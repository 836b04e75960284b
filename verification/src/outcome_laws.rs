//! Laws of what a transform gives, in plain words: the levels, the lakes and their sizes.

use crate::flooding::{floods, interior};
use crate::grid::{grid, pos};
use crate::lake_laws::{law_merged_lakes_are_bodies_of_water, linked, within_water};
use crate::lakes::lake;
use crate::laws::law_flood_keeps_water;
use crate::merging::merges;
use crate::neighbours::adjacent;
use crate::plain::{
    has_seeds, in_one_body, inside, is_low_step, is_merged, is_numbering, is_reached_from_seeds,
    is_seed_walk, is_stroke, is_swim, next_to, on, pixels_of, spreads,
};
use crate::random::shuffled;
use crate::relation::{is_path, joined};
use crate::rise_laws::law_water_rises;
use crate::spread_laws::{law_flood_spreads, law_merge_takes_the_least, lemma_words};
use crate::step_laws::{law_count, law_numbering, law_seeds};
use crate::transform::{colours_in_order, counts_rise, is_rise, is_watershed, raises, seeds_fit};
use crate::water_laws::{holds_water, law_water_of_a_level, water};
use vstd::prelude::*;

verus! {

/// The entries of an outcome are those of the levels from zero up to below the limit, in
/// this order and each once; each has a size for every seed and two more.
pub proof fn law_levels_in_order(
    levels: Map<(int, int), u8>,
    shape: (nat, nat),
    seeds: Seq<(usize, usize)>,
    merging: bool,
    max: u8,
    res: Seq<(u8, Vec<usize>)>,
)
    requires
        is_watershed(levels, shape, seeds, merging, max, res),
    ensures
        res.len() == max as int,
        forall|l: int| 0 <= l < max ==> (#[trigger] res[l]).0 as int == l,
        forall|l: int| 0 <= l < max ==> (#[trigger] res[l]).1@.len() == seeds.len() + 2,
{
}

/// The water rises by one level: it spreads, and then, if `merging`, what chains of pixels
/// tie together becomes one lake.
pub open spec fn rises_to(
    levels: Map<(int, int), u8>,
    before: Map<(int, int), usize>,
    after: Map<(int, int), usize>,
    shape: (nat, nat),
    lvl: u8,
    merging: bool,
) -> bool {
    if merging {
        exists|flooded: Map<(int, int), usize>| #[trigger]
            spreads(levels, before, flooded, shape, lvl) && is_merged(flooded, after, shape)
    } else {
        spreads(levels, before, after, shape, lvl)
    }
}

/// Raising the water by one level is a spread, and a merger if lakes are merged.
pub proof fn law_raise(
    levels: Map<(int, int), u8>,
    before: Map<(int, int), usize>,
    after: Map<(int, int), usize>,
    shape: (nat, nat),
    lvl: u8,
    merging: bool,
)
    requires
        before.dom() == grid(shape),
        raises(levels, before, after, shape, lvl, merging),
    ensures
        rises_to(levels, before, after, shape, lvl, merging),
{
    if merging {
        let flooded = choose|flooded: Map<(int, int), usize>| #[trigger]
            floods(levels, before, flooded, shape, lvl) && merges(flooded, after, shape);
        law_flood_keeps_water(levels, before, flooded, shape, lvl);
        law_flood_spreads(levels, before, flooded, shape, lvl);
        law_merge_takes_the_least(flooded, after, shape);
    } else {
        law_flood_spreads(levels, before, after, shape, lvl);
    }
}

/// The seeds have the numbers from one on as colours, in an order that the generator gave;
/// from there the water rises to one level after the other.
pub open spec fn is_plain_rise(
    levels: Map<(int, int), u8>,
    shape: (nat, nat),
    seeds: Seq<(usize, usize)>,
    merging: bool,
    max: u8,
    colours: Seq<usize>,
    canvases: Seq<Map<(int, int), usize>>,
) -> bool {
    &&& is_numbering(colours, seeds.len())
    &&& shuffled(Seq::new(seeds.len(), |i: int| (i + 1) as usize), colours)
    &&& canvases.len() == max + 1
    &&& has_seeds(canvases[0], shape, seeds, colours)
    &&& forall|l: int|
        #![trigger canvases[l]]
        0 <= l < max ==> rises_to(levels, canvases[l], canvases[l + 1], shape, l as u8, merging)
}

/// Entry `l` lists the numbers of pixels of each colour when the water has risen to `l`.
pub open spec fn lists_sizes(
    shape: (nat, nat),
    seeds: Seq<(usize, usize)>,
    max: u8,
    canvases: Seq<Map<(int, int), usize>>,
    res: Seq<(u8, Vec<usize>)>,
) -> bool {
    &&& res.len() == max
    &&& forall|l: int|
        #![trigger res[l]]
        0 <= l < max ==> res[l].0 == l && res[l].1@.len() == seeds.len() + 2
    &&& forall|l: int, c: int|
        #![trigger res[l].1@[c]]
        0 <= l < max && 0 <= c < seeds.len() + 2 ==> res[l].1@[c] == pixels_of(
            canvases[l + 1],
            shape,
            c,
        ).len()
}

/// What a transform gives are the sizes of the lakes of water that rises from the seeds.
pub proof fn law_outcome(
    levels: Map<(int, int), u8>,
    shape: (nat, nat),
    seeds: Seq<(usize, usize)>,
    merging: bool,
    max: u8,
    res: Seq<(u8, Vec<usize>)>,
)
    requires
        is_watershed(levels, shape, seeds, merging, max, res),
        seeds.len() + 2 <= usize::MAX,
    ensures
        exists|colours: Seq<usize>, canvases: Seq<Map<(int, int), usize>>|
            #[trigger] is_plain_rise(levels, shape, seeds, merging, max, colours, canvases)
                && lists_sizes(shape, seeds, max, canvases, res),
{
    let (colours, canvases) = choose|
        colours: Seq<usize>,
        canvases: Seq<Map<(int, int), usize>>,
    |
        {
            &&& #[trigger] is_rise(levels, shape, seeds, merging, max, colours, canvases)
            &&& counts_rise(seeds, max, canvases, res)
        };
    law_numbering(seeds.len(), colours);
    law_seeds(shape, seeds, colours, canvases[0]);
    assert(colours_in_order(seeds.len()) =~= Seq::new(seeds.len(), |i: int| (i + 1) as usize));
    assert forall|l: int|
        #![trigger canvases[l]]
        0 <= l < max implies rises_to(
        levels,
        canvases[l],
        canvases[l + 1],
        shape,
        l as u8,
        merging,
    ) by {
        law_water_rises(levels, shape, seeds, merging, max, colours, canvases, l, l);
        law_raise(levels, canvases[l], canvases[l + 1], shape, l as u8, merging);
    }
    assert(is_plain_rise(levels, shape, seeds, merging, max, colours, canvases));
    assert forall|l: int, c: int|
        #![trigger res[l].1@[c]]
        0 <= l < max && 0 <= c < seeds.len() + 2 implies res[l].1@[c] == pixels_of(
        canvases[l + 1],
        shape,
        c,
    ).len() by {
        law_water_rises(levels, shape, seeds, merging, max, colours, canvases, l + 1, l + 1);
        assert(res[l].0 == l);
        law_count(canvases[l + 1], shape, res[l].1@, c);
    }
}

/// A walk from a seed stays in a set that holds the water.
proof fn lemma_walk_stays(
    levels: Map<(int, int), u8>,
    shape: (nat, nat),
    seeds: Seq<(usize, usize)>,
    lvl: u8,
    set: Set<(int, int)>,
    walk: Seq<(int, int)>,
    p: (int, int),
    i: int,
)
    requires
        holds_water(set, levels, shape, seeds, lvl),
        is_seed_walk(levels, shape, seeds, lvl, walk, p),
        0 <= i < walk.len(),
    ensures
        set.contains(walk[i]),
    decreases i,
{
    if i == 0 {
        let k = choose|k: int|
            0 <= k < seeds.len() && (#[trigger] seeds[k]).0 == walk[0].0 && seeds[k].1
                == walk[0].1;
        assert(pos(seeds[k]) == walk[0]);
    } else {
        lemma_walk_stays(levels, shape, seeds, lvl, set, walk, p, i - 1);
        assert(is_low_step(levels, shape, lvl, walk, i));
        lemma_words(shape, walk[i], walk[i - 1]);
        lemma_words(shape, walk[i - 1], walk[i]);
        assert(adjacent(walk[i - 1], walk[i]));
    }
}

/// The pixels that walks lead to hold the water.
proof fn lemma_reached_holds(
    levels: Map<(int, int), u8>,
    shape: (nat, nat),
    seeds: Seq<(usize, usize)>,
    lvl: u8,
)
    ensures
        holds_water(
            Set::new(|p: (int, int)| is_reached_from_seeds(levels, shape, seeds, lvl, p)),
            levels,
            shape,
            seeds,
            lvl,
        ),
{
    let set = Set::new(|p: (int, int)| is_reached_from_seeds(levels, shape, seeds, lvl, p));
    assert forall|i: int| 0 <= i < seeds.len() implies set.contains(pos(#[trigger] seeds[i])) by {
        let p = pos(seeds[i]);
        let walk = seq![p];
        assert(seeds[i].0 == walk[0].0 && seeds[i].1 == walk[0].1);
        assert(is_seed_walk(levels, shape, seeds, lvl, walk, p));
    }
    assert forall|p: (int, int), q: (int, int)| #[trigger]
        adjacent(p, q) && set.contains(p) && interior(shape, q) && levels[q]
            <= lvl implies set.contains(q) by {
        let walk = choose|walk: Seq<(int, int)>|
            is_seed_walk(levels, shape, seeds, lvl, walk, p);
        let longer = walk.push(q);
        assert(longer[0] == walk[0]);
        lemma_words(shape, p, q);
        lemma_words(shape, q, p);
        assert forall|i: int| 0 < i < longer.len() implies #[trigger] is_low_step(
            levels,
            shape,
            lvl,
            longer,
            i,
        ) by {
            if i < walk.len() {
                assert(is_low_step(levels, shape, lvl, walk, i));
                assert(longer[i] == walk[i] && longer[i - 1] == walk[i - 1]);
            } else {
                assert(longer[i] == q && longer[i - 1] == p);
            }
        }
        assert(is_seed_walk(levels, shape, seeds, lvl, longer, q));
    }
}

/// When the water has risen to a level, a pixel is under it exactly where a walk leads to
/// it from a seed.
pub proof fn law_water_is_where_walks_lead(
    levels: Map<(int, int), u8>,
    shape: (nat, nat),
    seeds: Seq<(usize, usize)>,
    merging: bool,
    max: u8,
    colours: Seq<usize>,
    canvases: Seq<Map<(int, int), usize>>,
    l: int,
    p: (int, int),
)
    requires
        is_rise(levels, shape, seeds, merging, max, colours, canvases),
        seeds_fit(shape, seeds),
        0 <= l < max,
        on(shape, p),
    ensures
        canvases[l + 1][p] != 0 <==> is_reached_from_seeds(levels, shape, seeds, l as u8, p),
{
    let lvl = l as u8;
    let set = water(canvases[l + 1]);
    law_water_of_a_level(levels, shape, seeds, merging, max, colours, canvases, l);
    law_water_rises(levels, shape, seeds, merging, max, colours, canvases, l + 1, l + 1);
    assert(canvases[l + 1].dom().contains(p));
    assert(set.contains(p) <==> canvases[l + 1][p] != 0);
    if is_reached_from_seeds(levels, shape, seeds, lvl, p) {
        let walk = choose|walk: Seq<(int, int)>|
            is_seed_walk(levels, shape, seeds, lvl, walk, p);
        lemma_walk_stays(levels, shape, seeds, lvl, set, walk, p, walk.len() - 1);
    }
    if canvases[l + 1][p] != 0 {
        let reached = Set::new(
            |p: (int, int)| is_reached_from_seeds(levels, shape, seeds, lvl, p),
        );
        lemma_reached_holds(levels, shape, seeds, lvl);
        assert(holds_water(reached, levels, shape, seeds, lvl));
        assert(set.subset_of(reached));
        assert(reached.contains(p));
    }
}

/// The first size of an entry is the number of pixels that no walk leads to from a seed,
/// over pixels that have a pixel on each side and at most the level of the entry.
pub proof fn law_dry_pixels(
    levels: Map<(int, int), u8>,
    shape: (nat, nat),
    seeds: Seq<(usize, usize)>,
    merging: bool,
    max: u8,
    res: Seq<(u8, Vec<usize>)>,
    l: int,
)
    requires
        is_watershed(levels, shape, seeds, merging, max, res),
        seeds_fit(shape, seeds),
        0 <= l < max,
    ensures
        res[l].1@[0] == Set::new(
            |p: (int, int)|
                on(shape, p) && !is_reached_from_seeds(levels, shape, seeds, l as u8, p),
        ).len(),
{
    let (colours, canvases) = choose|
        colours: Seq<usize>,
        canvases: Seq<Map<(int, int), usize>>,
    |
        {
            &&& #[trigger] is_rise(levels, shape, seeds, merging, max, colours, canvases)
            &&& counts_rise(seeds, max, canvases, res)
        };
    let canvas = canvases[l + 1];
    law_water_rises(levels, shape, seeds, merging, max, colours, canvases, l + 1, l + 1);
    law_count(canvas, shape, res[l].1@, 0);
    let dry = Set::new(
        |p: (int, int)| on(shape, p) && !is_reached_from_seeds(levels, shape, seeds, l as u8, p),
    );
    assert forall|p: (int, int)| pixels_of(canvas, shape, 0).contains(p) <==> dry.contains(p) by {
        if on(shape, p) {
            law_water_is_where_walks_lead(
                levels,
                shape,
                seeds,
                merging,
                max,
                colours,
                canvases,
                l,
                p,
            );
        }
    }
    assert(pixels_of(canvas, shape, 0) =~= dry);
}

/// The pixels that water gets to at the level have colours, one for each body of water,
/// and the sizes are the numbers of pixels of each colour.
pub open spec fn is_body_count(
    levels: Map<(int, int), u8>,
    shape: (nat, nat),
    seeds: Seq<(usize, usize)>,
    lvl: u8,
    sizes: Seq<usize>,
    canvas: Map<(int, int), usize>,
) -> bool {
    &&& forall|p: (int, int)| #[trigger]
        on(shape, p) ==> (canvas[p] != 0 <==> is_reached_from_seeds(
            levels,
            shape,
            seeds,
            lvl,
            p,
        ))
    &&& forall|p: (int, int), q: (int, int)|
        #![trigger canvas[p], canvas[q]]
        on(shape, p) && on(shape, q) && canvas[p] != 0 ==> (canvas[p] == canvas[q]
            <==> in_one_body(levels, shape, seeds, lvl, p, q))
    &&& forall|c: int|
        #![trigger sizes[c]]
        0 <= c < sizes.len() ==> sizes[c] == pixels_of(canvas, shape, c).len()
}

/// Where lakes are merged, the sizes of an entry are those of the bodies of water.
pub proof fn law_merged_outcome(
    levels: Map<(int, int), u8>,
    shape: (nat, nat),
    seeds: Seq<(usize, usize)>,
    max: u8,
    res: Seq<(u8, Vec<usize>)>,
    l: int,
)
    requires
        is_watershed(levels, shape, seeds, true, max, res),
        seeds_fit(shape, seeds),
        0 <= l < max,
    ensures
        exists|canvas: Map<(int, int), usize>| #[trigger]
            is_body_count(levels, shape, seeds, l as u8, res[l].1@, canvas),
{
    let (colours, canvases) = choose|
        colours: Seq<usize>,
        canvases: Seq<Map<(int, int), usize>>,
    |
        {
            &&& #[trigger] is_rise(levels, shape, seeds, true, max, colours, canvases)
            &&& counts_rise(seeds, max, canvases, res)
        };
    let canvas = canvases[l + 1];
    let lvl = l as u8;
    let sizes = res[l].1@;
    law_water_rises(levels, shape, seeds, true, max, colours, canvases, l + 1, l + 1);
    assert forall|p: (int, int)| #[trigger] on(shape, p) implies (canvas[p] != 0
        <==> is_reached_from_seeds(levels, shape, seeds, lvl, p)) by {
        law_water_is_where_walks_lead(levels, shape, seeds, true, max, colours, canvases, l, p);
    }
    assert forall|p: (int, int), q: (int, int)|
        #![trigger canvas[p], canvas[q]]
        on(shape, p) && on(shape, q) && canvas[p] != 0 implies (canvas[p] == canvas[q]
        <==> in_one_body(levels, shape, seeds, lvl, p, q)) by {
        law_merged_lakes_are_bodies_of_water(
            levels,
            shape,
            seeds,
            max,
            colours,
            canvases,
            l,
            p,
            q,
        );
        lemma_bodies(levels, shape, seeds, lvl, canvas, p, q);
    }
    assert forall|c: int|
        #![trigger sizes[c]]
        0 <= c < sizes.len() implies sizes[c] == pixels_of(canvas, shape, c).len() by {
        assert(res[l].0 == l);
        law_count(canvas, shape, sizes, c);
    }
    assert(is_body_count(levels, shape, seeds, lvl, sizes, canvas));
}

proof fn lemma_bodies(
    levels: Map<(int, int), u8>,
    shape: (nat, nat),
    seeds: Seq<(usize, usize)>,
    lvl: u8,
    canvas: Map<(int, int), usize>,
    p: (int, int),
    q: (int, int),
)
    requires
        forall|x: (int, int)| #[trigger]
            on(shape, x) ==> (canvas[x] != 0 <==> is_reached_from_seeds(
                levels,
                shape,
                seeds,
                lvl,
                x,
            )),
    ensures
        in_one_body(levels, shape, seeds, lvl, p, q) <==> joined(
            within_water(canvas, shape),
            p,
            q,
        ),
{
    let r = within_water(canvas, shape);
    assert forall|x: (int, int), y: (int, int)| #[trigger]
        is_stroke(levels, shape, seeds, lvl, x, y) <==> r(x, y) by {
        lemma_words(shape, x, y);
        lemma_words(shape, y, x);
        if linked(shape, x, y) || (next_to(x, y) && (inside(shape, x) || inside(shape, y))) {
            assert(on(shape, x) && on(shape, y));
        }
    }
    if in_one_body(levels, shape, seeds, lvl, p, q) {
        let path = choose|path: Seq<(int, int)>|
            is_swim(levels, shape, seeds, lvl, path, p, q);
        assert forall|i: int| 0 <= i < path.len() - 1 implies r(
            #[trigger] path[i],
            path[i + 1],
        ) by {
            assert(is_stroke(levels, shape, seeds, lvl, path[i + 1 - 1], path[i + 1]));
        }
        assert(is_path(r, path, p, q));
    }
    if joined(r, p, q) {
        let path = choose|path: Seq<(int, int)>| is_path(r, path, p, q);
        assert forall|i: int| 0 < i < path.len() implies is_stroke(
            levels,
            shape,
            seeds,
            lvl,
            path[i - 1],
            #[trigger] path[i],
        ) by {
            assert(r(path[i - 1], path[i - 1 + 1]));
        }
        assert(is_swim(levels, shape, seeds, lvl, path, p, q));
    }
}

} // verus!
