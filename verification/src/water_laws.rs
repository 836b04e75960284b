//! Laws of which pixels are under water when it has risen to a level.

use crate::flooding::{
    borders_colour, borders_water, fillable, fills_once, floods, interior, lemma_floods_keep,
};
use crate::grid::{grid, on_grid, pos};
use crate::lakes::{lake, lake_size, UNCOLOURED};
use crate::laws::same_water;
use crate::neighbours::adjacent;
use crate::rise_laws::{
    law_water_is_determined, law_water_rises, lemma_raises_floods, lemma_rise_bounded,
};
use crate::transform::{
    counts_rise, is_rise, is_watershed, lemma_seeded_colours, raises, seeds_fit,
};
use vstd::prelude::*;

verus! {

/// The pixels under water.
pub open spec fn water(canvas: Map<(int, int), usize>) -> Set<(int, int)> {
    Set::new(|p: (int, int)| canvas.dom().contains(p) && canvas[p] != UNCOLOURED)
}

/// The set holds all seeds, and each pixel off the outermost ring and at or below the
/// level that shares an edge with a member.
pub open spec fn holds_water(
    set: Set<(int, int)>,
    levels: Map<(int, int), u8>,
    shape: (nat, nat),
    seeds: Seq<(usize, usize)>,
    lvl: u8,
) -> bool {
    &&& forall|i: int| 0 <= i < seeds.len() ==> set.contains(pos(#[trigger] seeds[i]))
    &&& forall|p: (int, int), q: (int, int)| #[trigger]
        adjacent(p, q) && set.contains(p) && interior(shape, q) && levels[q] <= lvl
            ==> set.contains(q)
}

/// The set is the least that holds the water at the level.
pub open spec fn is_least_water(
    set: Set<(int, int)>,
    levels: Map<(int, int), u8>,
    shape: (nat, nat),
    seeds: Seq<(usize, usize)>,
    lvl: u8,
) -> bool {
    &&& holds_water(set, levels, shape, seeds, lvl)
    &&& forall|other: Set<(int, int)>| #[trigger]
        holds_water(other, levels, shape, seeds, lvl) ==> set.subset_of(other)
}

/// Up to a level no water gets out of a set that holds the water at it.
proof fn lemma_water_stays_within(
    levels: Map<(int, int), u8>,
    shape: (nat, nat),
    seeds: Seq<(usize, usize)>,
    merging: bool,
    max: u8,
    colours: Seq<usize>,
    canvases: Seq<Map<(int, int), usize>>,
    m: int,
    lvl: u8,
    set: Set<(int, int)>,
)
    requires
        is_rise(levels, shape, seeds, merging, max, colours, canvases),
        0 <= m <= max,
        m <= lvl + 1,
        holds_water(set, levels, shape, seeds, lvl),
    ensures
        water(canvases[m]).subset_of(set),
    decreases m,
{
    if m == 0 {
        assert forall|p: (int, int)| water(canvases[0]).contains(p) implies set.contains(p) by {
            lemma_seeded_colours(shape, seeds, colours, canvases[0], p);
        }
    } else {
        lemma_water_stays_within(
            levels,
            shape,
            seeds,
            merging,
            max,
            colours,
            canvases,
            m - 1,
            lvl,
            set,
        );
        law_water_rises(levels, shape, seeds, merging, max, colours, canvases, m - 1, m - 1);
        let now = (m - 1) as u8;
        let before = canvases[m - 1];
        assert(raises(levels, before, canvases[m - 1 + 1], shape, now, merging));
        let flooded = lemma_raises_floods(levels, before, canvases[m], shape, now, merging);
        let inv = |c: Map<(int, int), usize>| c.dom() == grid(shape) && water(c).subset_of(set);
        assert forall|c: Map<(int, int), usize>, d: Map<(int, int), usize>|
            inv(c) && #[trigger] fills_once(levels, c, d, shape, now) implies inv(d) by {
            assert forall|p: (int, int)| water(d).contains(p) implies set.contains(p) by {
                if fillable(levels, c, shape, now, p) {
                    assert(borders_colour(c, p, d[p]));
                    let q = choose|q: (int, int)| #[trigger] adjacent(p, q) && c[q] == d[p];
                    assert(on_grid(shape, q));
                    assert(water(c).contains(q));
                    assert(adjacent(q, p));
                } else {
                    assert(d[p] == c[p]);
                    assert(water(c).contains(p));
                }
            }
        }
        lemma_floods_keep(levels, before, flooded, shape, now, inv);
        assert(inv(flooded));
        assert forall|p: (int, int)| water(canvases[m]).contains(p) implies set.contains(p) by {
            assert(flooded.dom().contains(p));
            assert(water(flooded).contains(p));
        }
    }
}

/// The seeds are under water at all levels.
proof fn lemma_seeds_are_under_water(
    levels: Map<(int, int), u8>,
    shape: (nat, nat),
    seeds: Seq<(usize, usize)>,
    merging: bool,
    max: u8,
    colours: Seq<usize>,
    canvases: Seq<Map<(int, int), usize>>,
    m: int,
    i: int,
)
    requires
        is_rise(levels, shape, seeds, merging, max, colours, canvases),
        seeds_fit(shape, seeds),
        0 <= m <= max,
        0 <= i < seeds.len(),
    ensures
        water(canvases[m]).contains(pos(seeds[i])),
{
    let p = pos(seeds[i]);
    assert(on_grid(shape, p));
    law_water_rises(levels, shape, seeds, merging, max, colours, canvases, 0, m);
    lemma_seeded_colours(shape, seeds, colours, canvases[0], p);
    assert(canvases[0][p] != UNCOLOURED);
    assert(canvases[m][p] != UNCOLOURED);
}

/// After a flood the water cannot go on.
proof fn lemma_flood_is_closed(
    levels: Map<(int, int), u8>,
    before: Map<(int, int), usize>,
    after: Map<(int, int), usize>,
    shape: (nat, nat),
    lvl: u8,
    p: (int, int),
    q: (int, int),
)
    requires
        floods(levels, before, after, shape, lvl),
        after.dom() == grid(shape),
        water(after).contains(p),
        adjacent(p, q),
        interior(shape, q),
        levels[q] <= lvl,
    ensures
        water(after).contains(q),
{
    assert(on_grid(shape, q));
    if after[q] == UNCOLOURED {
        assert(adjacent(q, p));
        assert(borders_water(after, q));
        assert(fillable(levels, after, shape, lvl, q));
    }
}

/// When the water has risen to a level, merging or not, the pixels under water are the
/// least set that holds all seeds and each pixel, off the outermost ring and at or below
/// the level, that shares an edge with a member.
pub proof fn law_water_of_a_level(
    levels: Map<(int, int), u8>,
    shape: (nat, nat),
    seeds: Seq<(usize, usize)>,
    merging: bool,
    max: u8,
    colours: Seq<usize>,
    canvases: Seq<Map<(int, int), usize>>,
    l: int,
)
    requires
        is_rise(levels, shape, seeds, merging, max, colours, canvases),
        seeds_fit(shape, seeds),
        0 <= l < max,
    ensures
        is_least_water(water(canvases[l + 1]), levels, shape, seeds, l as u8),
{
    let lvl = l as u8;
    let set = water(canvases[l + 1]);
    assert(holds_water(set, levels, shape, seeds, lvl)) by {
        assert forall|i: int| 0 <= i < seeds.len() implies set.contains(
            pos(#[trigger] seeds[i]),
        ) by {
            lemma_seeds_are_under_water(
                levels,
                shape,
                seeds,
                merging,
                max,
                colours,
                canvases,
                l + 1,
                i,
            );
        }
        let before = canvases[l];
        let after = canvases[l + 1];
        law_water_rises(levels, shape, seeds, merging, max, colours, canvases, l, l + 1);
        let flooded = lemma_raises_floods(levels, before, after, shape, lvl, merging);
        assert(water(flooded) =~= set) by {
            lemma_same_water_set(flooded, after);
        }
        assert forall|p: (int, int), q: (int, int)| #[trigger]
            adjacent(p, q) && set.contains(p) && interior(shape, q) && levels[q]
                <= lvl implies set.contains(q) by {
            lemma_flood_is_closed(levels, before, flooded, shape, lvl, p, q);
        }
    }
    assert forall|other: Set<(int, int)>| #[trigger]
        holds_water(other, levels, shape, seeds, lvl) implies set.subset_of(other) by {
        lemma_water_stays_within(
            levels,
            shape,
            seeds,
            merging,
            max,
            colours,
            canvases,
            l + 1,
            lvl,
            other,
        );
    }
}

proof fn lemma_same_water_set(a: Map<(int, int), usize>, b: Map<(int, int), usize>)
    requires
        same_water(a, b),
    ensures
        water(a) == water(b),
{
    assert forall|p: (int, int)| water(a).contains(p) <==> water(b).contains(p) by {
        if a.dom().contains(p) {
            assert(b.dom().contains(p));
        }
    }
    assert(water(a) =~= water(b));
}

/// The two lists hold the same seeds, in any order and each any number of times.
pub open spec fn same_seeds(seeds: Seq<(usize, usize)>, other: Seq<(usize, usize)>) -> bool {
    forall|s: (usize, usize)| #[trigger] seeds.contains(s) <==> other.contains(s)
}

proof fn lemma_same_seeds(
    set: Set<(int, int)>,
    levels: Map<(int, int), u8>,
    shape: (nat, nat),
    seeds: Seq<(usize, usize)>,
    other_seeds: Seq<(usize, usize)>,
    lvl: u8,
)
    requires
        same_seeds(seeds, other_seeds),
        holds_water(set, levels, shape, seeds, lvl),
    ensures
        holds_water(set, levels, shape, other_seeds, lvl),
{
    assert forall|i: int| 0 <= i < other_seeds.len() implies set.contains(
        pos(#[trigger] other_seeds[i]),
    ) by {
        assert(other_seeds.contains(other_seeds[i]));
        assert(seeds.contains(other_seeds[i]));
        let j = choose|j: int| 0 <= j < seeds.len() && seeds[j] == other_seeds[i];
        assert(set.contains(pos(seeds[j])));
    }
}

/// Which pixels are under water at a level depends neither on the order of the seeds, nor
/// on whether any is repeated, nor on whether lakes are merged.
pub proof fn law_seed_order(
    levels: Map<(int, int), u8>,
    shape: (nat, nat),
    seeds: Seq<(usize, usize)>,
    merging: bool,
    max: u8,
    colours: Seq<usize>,
    canvases: Seq<Map<(int, int), usize>>,
    other_seeds: Seq<(usize, usize)>,
    other_merging: bool,
    other_max: u8,
    other_colours: Seq<usize>,
    other_canvases: Seq<Map<(int, int), usize>>,
    l: int,
)
    requires
        is_rise(levels, shape, seeds, merging, max, colours, canvases),
        is_rise(
            levels,
            shape,
            other_seeds,
            other_merging,
            other_max,
            other_colours,
            other_canvases,
        ),
        seeds_fit(shape, seeds),
        seeds_fit(shape, other_seeds),
        same_seeds(seeds, other_seeds),
        0 <= l < max,
        l < other_max,
    ensures
        water(canvases[l + 1]) == water(other_canvases[l + 1]),
        same_water(canvases[l + 1], other_canvases[l + 1]),
{
    let lvl = l as u8;
    let a = canvases[l + 1];
    let b = other_canvases[l + 1];
    law_water_of_a_level(levels, shape, seeds, merging, max, colours, canvases, l);
    law_water_of_a_level(
        levels,
        shape,
        other_seeds,
        other_merging,
        other_max,
        other_colours,
        other_canvases,
        l,
    );
    lemma_same_seeds(water(a), levels, shape, seeds, other_seeds, lvl);
    lemma_same_seeds(water(b), levels, shape, other_seeds, seeds, lvl);
    assert(water(a) =~= water(b));
    law_water_rises(levels, shape, seeds, merging, max, colours, canvases, l + 1, l + 1);
    law_water_rises(
        levels,
        shape,
        other_seeds,
        other_merging,
        other_max,
        other_colours,
        other_canvases,
        l + 1,
        l + 1,
    );
    lemma_same_water(a, b);
}

proof fn lemma_same_water(a: Map<(int, int), usize>, b: Map<(int, int), usize>)
    requires
        a.dom() == b.dom(),
        water(a) == water(b),
    ensures
        same_water(a, b),
{
    assert forall|p: (int, int)| #[trigger] a.dom().contains(p) implies (a[p] == UNCOLOURED
        <==> b[p] == UNCOLOURED) by {
        assert(b.dom().contains(p));
        assert(water(a).contains(p) <==> a[p] != UNCOLOURED);
        assert(water(b).contains(p) <==> b[p] != UNCOLOURED);
    }
}

/// Each level of `other` is that of `levels` and `by` more.
pub open spec fn is_shifted(
    levels: Map<(int, int), u8>,
    other: Map<(int, int), u8>,
    shape: (nat, nat),
    by: nat,
) -> bool {
    forall|p: (int, int)| #[trigger] on_grid(shape, p) ==> other[p] == levels[p] + by
}

/// All levels of an image can be shifted: the water is then at a level where it was at
/// the level that is as much lower.
pub proof fn law_levels_can_be_shifted(
    levels: Map<(int, int), u8>,
    other_levels: Map<(int, int), u8>,
    by: nat,
    shape: (nat, nat),
    seeds: Seq<(usize, usize)>,
    merging: bool,
    max: u8,
    colours: Seq<usize>,
    canvases: Seq<Map<(int, int), usize>>,
    other_merging: bool,
    other_max: u8,
    other_colours: Seq<usize>,
    other_canvases: Seq<Map<(int, int), usize>>,
    l: int,
)
    requires
        is_rise(levels, shape, seeds, merging, max, colours, canvases),
        is_rise(
            other_levels,
            shape,
            seeds,
            other_merging,
            other_max,
            other_colours,
            other_canvases,
        ),
        seeds_fit(shape, seeds),
        is_shifted(levels, other_levels, shape, by),
        0 <= l < max,
        l + by < other_max,
    ensures
        water(canvases[l + 1]) == water(other_canvases[l + by + 1]),
        same_water(canvases[l + 1], other_canvases[l + by + 1]),
{
    let n = l + by;
    let lvl = l as u8;
    let other_lvl = n as u8;
    let a = canvases[l + 1];
    let b = other_canvases[n + 1];
    law_water_of_a_level(levels, shape, seeds, merging, max, colours, canvases, l);
    law_water_of_a_level(
        other_levels,
        shape,
        seeds,
        other_merging,
        other_max,
        other_colours,
        other_canvases,
        n,
    );
    assert forall|q: (int, int)| interior(shape, q) implies (levels[q] <= lvl <==> other_levels[q]
        <= other_lvl) by {
        assert(on_grid(shape, q));
    }
    assert(holds_water(water(a), other_levels, shape, seeds, other_lvl));
    assert(holds_water(water(b), levels, shape, seeds, lvl));
    assert(water(a) =~= water(b));
    law_water_rises(levels, shape, seeds, merging, max, colours, canvases, l + 1, l + 1);
    law_water_rises(
        other_levels,
        shape,
        seeds,
        other_merging,
        other_max,
        other_colours,
        other_canvases,
        n + 1,
        n + 1,
    );
    lemma_same_water(a, b);
}

/// From one seed, all outcomes of the transforms of an image are the same at the levels
/// that they share, merging or not.
pub proof fn law_one_seed(
    levels: Map<(int, int), u8>,
    shape: (nat, nat),
    seeds: Seq<(usize, usize)>,
    merging: bool,
    max: u8,
    res: Seq<(u8, Vec<usize>)>,
    other_merging: bool,
    other_max: u8,
    other_res: Seq<(u8, Vec<usize>)>,
    l: int,
)
    requires
        is_watershed(levels, shape, seeds, merging, max, res),
        is_watershed(levels, shape, seeds, other_merging, other_max, other_res),
        seeds.len() == 1,
        0 <= l < max,
        l < other_max,
    ensures
        res[l].0 == other_res[l].0,
        res[l].1@ == other_res[l].1@,
{
    let (colours, canvases) = choose|
        colours: Seq<usize>,
        canvases: Seq<Map<(int, int), usize>>,
    |
        {
            &&& #[trigger] is_rise(levels, shape, seeds, merging, max, colours, canvases)
            &&& counts_rise(seeds, max, canvases, res)
        };
    let (other_colours, other_canvases) = choose|
        colours: Seq<usize>,
        canvases: Seq<Map<(int, int), usize>>,
    |
        {
            &&& #[trigger] is_rise(
                levels,
                shape,
                seeds,
                other_merging,
                other_max,
                colours,
                canvases,
            )
            &&& counts_rise(seeds, other_max, canvases, other_res)
        };
    let a = canvases[l + 1];
    let b = other_canvases[l + 1];
    law_water_is_determined(
        levels,
        shape,
        seeds,
        merging,
        max,
        colours,
        canvases,
        other_merging,
        other_max,
        other_colours,
        other_canvases,
        l + 1,
    );
    lemma_rise_bounded(levels, shape, seeds, merging, max, colours, canvases, l + 1, 1);
    lemma_rise_bounded(
        levels,
        shape,
        seeds,
        other_merging,
        other_max,
        other_colours,
        other_canvases,
        l + 1,
        1,
    );
    assert forall|p: (int, int)| #[trigger] a.dom().contains(p) implies a[p] == b[p] by {
        assert(b.dom().contains(p));
    }
    assert(a =~= b);
    let sizes = res[l].1@;
    let other_sizes = other_res[l].1@;
    assert forall|c: int| 0 <= c < sizes.len() implies sizes[c] == other_sizes[c] by {
        assert(sizes[c] == lake_size(a, c as usize));
        assert(other_sizes[c] == lake_size(b, c as usize));
    }
    assert(sizes =~= other_sizes);
}

/// The number of pixels without water at a level depends neither on the order of the
/// seeds, nor on whether any is repeated, nor on chance, nor on whether lakes are merged.
pub proof fn law_seed_order_keeps_dry_pixels(
    levels: Map<(int, int), u8>,
    shape: (nat, nat),
    seeds: Seq<(usize, usize)>,
    merging: bool,
    max: u8,
    res: Seq<(u8, Vec<usize>)>,
    other_seeds: Seq<(usize, usize)>,
    other_merging: bool,
    other_max: u8,
    other_res: Seq<(u8, Vec<usize>)>,
    l: int,
)
    requires
        is_watershed(levels, shape, seeds, merging, max, res),
        is_watershed(levels, shape, other_seeds, other_merging, other_max, other_res),
        seeds_fit(shape, seeds),
        seeds_fit(shape, other_seeds),
        same_seeds(seeds, other_seeds),
        0 <= l < max,
        l < other_max,
    ensures
        res[l].1@[0] == other_res[l].1@[0],
{
    let (colours, canvases) = choose|
        colours: Seq<usize>,
        canvases: Seq<Map<(int, int), usize>>,
    |
        {
            &&& #[trigger] is_rise(levels, shape, seeds, merging, max, colours, canvases)
            &&& counts_rise(seeds, max, canvases, res)
        };
    let (other_colours, other_canvases) = choose|
        colours: Seq<usize>,
        canvases: Seq<Map<(int, int), usize>>,
    |
        {
            &&& #[trigger] is_rise(
                levels,
                shape,
                other_seeds,
                other_merging,
                other_max,
                colours,
                canvases,
            )
            &&& counts_rise(other_seeds, other_max, canvases, other_res)
        };
    law_seed_order(
        levels,
        shape,
        seeds,
        merging,
        max,
        colours,
        canvases,
        other_seeds,
        other_merging,
        other_max,
        other_colours,
        other_canvases,
        l,
    );
    assert(res[l].1@[0] == lake_size(canvases[l + 1], 0));
    assert(other_res[l].1@[0] == lake_size(other_canvases[l + 1], 0));
    assert(lake(canvases[l + 1], 0) =~= lake(other_canvases[l + 1], 0));
}

/// All levels of an image can be shifted: the number of pixels without water at a level
/// is then what it was at the level that is as much lower.
pub proof fn law_shift_keeps_dry_pixels(
    levels: Map<(int, int), u8>,
    other_levels: Map<(int, int), u8>,
    by: nat,
    shape: (nat, nat),
    seeds: Seq<(usize, usize)>,
    merging: bool,
    max: u8,
    res: Seq<(u8, Vec<usize>)>,
    other_merging: bool,
    other_max: u8,
    other_res: Seq<(u8, Vec<usize>)>,
    l: int,
)
    requires
        is_watershed(levels, shape, seeds, merging, max, res),
        is_watershed(other_levels, shape, seeds, other_merging, other_max, other_res),
        seeds_fit(shape, seeds),
        is_shifted(levels, other_levels, shape, by),
        0 <= l < max,
        l + by < other_max,
    ensures
        res[l].1@[0] == other_res[l + by].1@[0],
{
    let (colours, canvases) = choose|
        colours: Seq<usize>,
        canvases: Seq<Map<(int, int), usize>>,
    |
        {
            &&& #[trigger] is_rise(levels, shape, seeds, merging, max, colours, canvases)
            &&& counts_rise(seeds, max, canvases, res)
        };
    let (other_colours, other_canvases) = choose|
        colours: Seq<usize>,
        canvases: Seq<Map<(int, int), usize>>,
    |
        {
            &&& #[trigger] is_rise(
                other_levels,
                shape,
                seeds,
                other_merging,
                other_max,
                colours,
                canvases,
            )
            &&& counts_rise(seeds, other_max, canvases, other_res)
        };
    law_levels_can_be_shifted(
        levels,
        other_levels,
        by,
        shape,
        seeds,
        merging,
        max,
        colours,
        canvases,
        other_merging,
        other_max,
        other_colours,
        other_canvases,
        l,
    );
    let n = l + by;
    assert(res[l].1@[0] == lake_size(canvases[l + 1], 0));
    assert(other_res[n].1@[0] == lake_size(other_canvases[n + 1], 0));
    assert(lake(canvases[l + 1], 0) =~= lake(other_canvases[n + 1], 0));
}

} // verus!
