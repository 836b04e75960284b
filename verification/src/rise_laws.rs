//! Laws of water that rises from the seeds level by level.

use crate::flooding::{borders_colour, fillable, fills_once, floods, interior, lemma_floods_keep};
use crate::grid::{grid, on_grid, pos};
use crate::lakes::{counts_lakes, lake, lake_size, lemma_lake_finite, UNCOLOURED};
use crate::laws::{
    law_flood_is_determined, law_flood_keeps_water, law_lake_sizes_add_up, law_merge_keeps_water,
    law_merged_lakes_do_not_touch, same_water, total,
};
use crate::levels::NEVER_FILL;
use crate::merging::{merges, touches, touching};
use crate::neighbours::adjacent;
use crate::relation::{is_least_joined, lemma_joined_keeps};
use crate::transform::{
    colours_up_to, counts_rise, is_colouring, is_rise, is_seeded, is_watershed,
    lemma_floods_bounded, lemma_merges_bounded, lemma_seeded_bounded, lemma_seeded_colours,
    raises,
};
use vstd::prelude::*;
use vstd::set_lib::*;

verus! {

/// Some pixel of the canvas has the colour.
pub open spec fn occurs(canvas: Map<(int, int), usize>, c: usize) -> bool {
    exists|p: (int, int)| #[trigger] canvas.dom().contains(p) && canvas[p] == c
}

/// Water that was there is still there, and all colours were there before.
pub open spec fn rises(before: Map<(int, int), usize>, after: Map<(int, int), usize>) -> bool {
    &&& after.dom() == before.dom()
    &&& forall|p: (int, int)|
        #![trigger after[p]]
        before.dom().contains(p) && before[p] != UNCOLOURED ==> after[p] != UNCOLOURED
    &&& forall|p: (int, int)|
        #![trigger after[p]]
        before.dom().contains(p) && after[p] != UNCOLOURED ==> occurs(before, after[p])
}

proof fn lemma_floods_rise(
    levels: Map<(int, int), u8>,
    before: Map<(int, int), usize>,
    after: Map<(int, int), usize>,
    shape: (nat, nat),
    lvl: u8,
)
    requires
        floods(levels, before, after, shape, lvl),
        before.dom() == grid(shape),
    ensures
        rises(before, after),
{
    law_flood_keeps_water(levels, before, after, shape, lvl);
    let inv = |c: Map<(int, int), usize>|
        c.dom() == before.dom() && forall|p: (int, int)|
            #![trigger c[p]]
            before.dom().contains(p) && c[p] != UNCOLOURED ==> occurs(before, c[p]);
    assert(inv(before));
    assert forall|c: Map<(int, int), usize>, d: Map<(int, int), usize>|
        inv(c) && #[trigger] fills_once(levels, c, d, shape, lvl) implies inv(d) by {
        assert forall|p: (int, int)|
            #![trigger d[p]]
            before.dom().contains(p) && d[p] != UNCOLOURED implies occurs(before, d[p]) by {
            if fillable(levels, c, shape, lvl, p) {
                assert(borders_colour(c, p, d[p]));
                let q = choose|q: (int, int)| #[trigger] adjacent(p, q) && c[q] == d[p];
                assert(on_grid(shape, q));
            } else {
                assert(d[p] == c[p]);
            }
        }
    }
    lemma_floods_keep(levels, before, after, shape, lvl, inv);
    assert(inv(after));
}

proof fn lemma_merges_rise(
    before: Map<(int, int), usize>,
    after: Map<(int, int), usize>,
    shape: (nat, nat),
)
    requires
        merges(before, after, shape),
        before.dom() == grid(shape),
    ensures
        rises(before, after),
{
    law_merge_keeps_water(before, after, shape);
    let r = touching(before, shape);
    let inv = |x: usize| occurs(before, x);
    assert forall|x: usize, y: usize| inv(x) && #[trigger] r(x, y) implies inv(y) by {
        let (p, q) = choose|p: (int, int), q: (int, int)|
            {
                &&& #[trigger] adjacent(p, q)
                &&& interior(shape, p) || interior(shape, q)
                &&& before[p] == x
                &&& before[q] == y
            };
        assert(on_grid(shape, q));
        assert(before.dom().contains(q));
    }
    assert forall|p: (int, int)|
        #![trigger after[p]]
        before.dom().contains(p) && after[p] != UNCOLOURED implies occurs(before, after[p]) by {
        assert(is_least_joined(r, before[p], after[p]));
        assert(occurs(before, before[p]));
        lemma_joined_keeps(r, inv, before[p], after[p]);
    }
}

proof fn lemma_rises_transitive(
    a: Map<(int, int), usize>,
    b: Map<(int, int), usize>,
    c: Map<(int, int), usize>,
)
    requires
        rises(a, b),
        rises(b, c),
    ensures
        rises(a, c),
{
    assert forall|p: (int, int)|
        #![trigger c[p]]
        a.dom().contains(p) && a[p] != UNCOLOURED implies c[p] != UNCOLOURED by {
        assert(b[p] != UNCOLOURED);
    }
    assert forall|p: (int, int)|
        #![trigger c[p]]
        a.dom().contains(p) && c[p] != UNCOLOURED implies occurs(a, c[p]) by {
        assert(occurs(b, c[p]));
        let q = choose|q: (int, int)| #[trigger] b.dom().contains(q) && b[q] == c[p];
        assert(b[q] != UNCOLOURED);
    }
}

proof fn lemma_raises_rises(
    levels: Map<(int, int), u8>,
    before: Map<(int, int), usize>,
    after: Map<(int, int), usize>,
    shape: (nat, nat),
    lvl: u8,
    merging: bool,
)
    requires
        raises(levels, before, after, shape, lvl, merging),
        before.dom() == grid(shape),
    ensures
        rises(before, after),
{
    if merging {
        let flooded = choose|flooded: Map<(int, int), usize>| #[trigger]
            floods(levels, before, flooded, shape, lvl) && merges(flooded, after, shape);
        lemma_floods_rise(levels, before, flooded, shape, lvl);
        lemma_merges_rise(flooded, after, shape);
        lemma_rises_transitive(before, flooded, after);
    } else {
        lemma_floods_rise(levels, before, after, shape, lvl);
    }
}

/// When the water rises, no pixel falls dry and no new colour comes up.
pub proof fn law_water_rises(
    levels: Map<(int, int), u8>,
    shape: (nat, nat),
    seeds: Seq<(usize, usize)>,
    merging: bool,
    max: u8,
    colours: Seq<usize>,
    canvases: Seq<Map<(int, int), usize>>,
    l: int,
    m: int,
)
    requires
        is_rise(levels, shape, seeds, merging, max, colours, canvases),
        0 <= l <= m <= max,
    ensures
        canvases[l].dom() == grid(shape),
        rises(canvases[l], canvases[m]),
    decreases m,
{
    if l < m {
        law_water_rises(levels, shape, seeds, merging, max, colours, canvases, l, m - 1);
        assert(raises(
            levels,
            canvases[m - 1],
            canvases[m - 1 + 1],
            shape,
            (m - 1) as u8,
            merging,
        ));
        lemma_raises_rises(
            levels,
            canvases[m - 1],
            canvases[m],
            shape,
            (m - 1) as u8,
            merging,
        );
        lemma_rises_transitive(canvases[l], canvases[m - 1], canvases[m]);
    } else if l > 0 {
        law_water_rises(levels, shape, seeds, merging, max, colours, canvases, l - 1, m - 1);
        assert(raises(
            levels,
            canvases[m - 1],
            canvases[m - 1 + 1],
            shape,
            (m - 1) as u8,
            merging,
        ));
        lemma_raises_rises(
            levels,
            canvases[m - 1],
            canvases[m],
            shape,
            (m - 1) as u8,
            merging,
        );
    }
}

/// The number of pixels without water never grows from one level to a later one.
pub proof fn law_dry_pixels_never_grow(
    levels: Map<(int, int), u8>,
    shape: (nat, nat),
    seeds: Seq<(usize, usize)>,
    merging: bool,
    max: u8,
    res: Seq<(u8, Vec<usize>)>,
    l: int,
    m: int,
)
    requires
        is_watershed(levels, shape, seeds, merging, max, res),
        0 <= l <= m < max,
    ensures
        res[m].1@[0] <= res[l].1@[0],
{
    let (colours, canvases) = choose|
        colours: Seq<usize>,
        canvases: Seq<Map<(int, int), usize>>,
    |
        {
            &&& #[trigger] is_rise(levels, shape, seeds, merging, max, colours, canvases)
            &&& counts_rise(seeds, max, canvases, res)
        };
    law_water_rises(levels, shape, seeds, merging, max, colours, canvases, l + 1, m + 1);
    let before = canvases[l + 1];
    let after = canvases[m + 1];
    assert(res[l].1@[0] == lake_size(before, 0));
    assert(res[m].1@[0] == lake_size(after, 0));
    lemma_lake_finite(before, shape, 0);
    assert(lake(after, 0).subset_of(lake(before, 0))) by {
        assert forall|p: (int, int)| lake(after, 0).contains(p) implies lake(before, 0).contains(
            p,
        ) by {
            assert(after[p] == UNCOLOURED);
        }
    }
    lemma_len_subset(lake(after, 0), lake(before, 0));
}

/// A colour of which no pixel is left at some level has none at any later one.
pub proof fn law_no_lake_comes_back(
    levels: Map<(int, int), u8>,
    shape: (nat, nat),
    seeds: Seq<(usize, usize)>,
    merging: bool,
    max: u8,
    res: Seq<(u8, Vec<usize>)>,
    l: int,
    m: int,
    c: int,
)
    requires
        is_watershed(levels, shape, seeds, merging, max, res),
        seeds.len() + 2 <= usize::MAX,
        0 <= l <= m < max,
        1 <= c < seeds.len() + 2,
        res[l].1@[c] == 0,
    ensures
        res[m].1@[c] == 0,
{
    let (colours, canvases) = choose|
        colours: Seq<usize>,
        canvases: Seq<Map<(int, int), usize>>,
    |
        {
            &&& #[trigger] is_rise(levels, shape, seeds, merging, max, colours, canvases)
            &&& counts_rise(seeds, max, canvases, res)
        };
    law_water_rises(levels, shape, seeds, merging, max, colours, canvases, l + 1, m + 1);
    let before = canvases[l + 1];
    let after = canvases[m + 1];
    let colour = c as usize;
    assert(res[l].1@[c] == lake_size(before, colour));
    assert(res[m].1@[c] == lake_size(after, colour));
    lemma_lake_finite(before, shape, colour);
    lake(before, colour).lemma_len0_is_empty();
    assert forall|p: (int, int)| !lake(after, colour).contains(p) by {
        if lake(after, colour).contains(p) {
            assert(after[p] == colour);
            assert(occurs(before, colour));
            let q = choose|q: (int, int)| #[trigger] before.dom().contains(q) && before[q]
                == colour;
            assert(lake(before, colour).contains(q));
        }
    }
    assert(lake(after, colour) =~= Set::empty());
}

/// Where lakes are not merged, no lake ever loses a pixel.
pub proof fn law_segmented_lakes_grow(
    levels: Map<(int, int), u8>,
    shape: (nat, nat),
    seeds: Seq<(usize, usize)>,
    max: u8,
    colours: Seq<usize>,
    canvases: Seq<Map<(int, int), usize>>,
    l: int,
    m: int,
    c: usize,
)
    requires
        is_rise(levels, shape, seeds, false, max, colours, canvases),
        0 <= l <= m <= max,
        c != UNCOLOURED,
    ensures
        lake(canvases[l], c).subset_of(lake(canvases[m], c)),
        lake_size(canvases[l], c) <= lake_size(canvases[m], c),
    decreases m - l,
{
    law_water_rises(levels, shape, seeds, false, max, colours, canvases, l, m);
    if l < m {
        law_segmented_lakes_grow(levels, shape, seeds, max, colours, canvases, l, m - 1, c);
        law_water_rises(levels, shape, seeds, false, max, colours, canvases, l, m - 1);
        let before = canvases[m - 1];
        let after = canvases[m - 1 + 1];
        assert(raises(levels, before, after, shape, (m - 1) as u8, false));
        law_flood_keeps_water(levels, before, after, shape, (m - 1) as u8);
        assert forall|p: (int, int)| lake(before, c).contains(p) implies lake(after, c).contains(
            p,
        ) by {
            assert(after[p] == before[p]);
        }
    }
    lemma_lake_finite(canvases[m], shape, c);
    lemma_len_subset(lake(canvases[l], c), lake(canvases[m], c));
}

/// Where lakes are not merged, the sizes that are counted for a lake never shrink.
pub proof fn law_segmented_sizes_grow(
    levels: Map<(int, int), u8>,
    shape: (nat, nat),
    seeds: Seq<(usize, usize)>,
    max: u8,
    res: Seq<(u8, Vec<usize>)>,
    l: int,
    m: int,
    c: int,
)
    requires
        is_watershed(levels, shape, seeds, false, max, res),
        seeds.len() + 2 <= usize::MAX,
        0 <= l <= m < max,
        1 <= c < seeds.len() + 2,
    ensures
        res[l].1@[c] <= res[m].1@[c],
{
    let (colours, canvases) = choose|
        colours: Seq<usize>,
        canvases: Seq<Map<(int, int), usize>>,
    |
        {
            &&& #[trigger] is_rise(levels, shape, seeds, false, max, colours, canvases)
            &&& counts_rise(seeds, max, canvases, res)
        };
    law_segmented_lakes_grow(
        levels,
        shape,
        seeds,
        max,
        colours,
        canvases,
        l + 1,
        m + 1,
        c as usize,
    );
    assert(res[l].1@[c] == lake_size(canvases[l + 1], c as usize));
    assert(res[m].1@[c] == lake_size(canvases[m + 1], c as usize));
}

/// Where lakes are not merged and no pixel is a seed twice, each seed has a lake at
/// each level.
pub proof fn law_segmented_seeds_keep_their_lakes(
    levels: Map<(int, int), u8>,
    shape: (nat, nat),
    seeds: Seq<(usize, usize)>,
    max: u8,
    colours: Seq<usize>,
    canvases: Seq<Map<(int, int), usize>>,
    m: int,
    i: int,
)
    requires
        is_rise(levels, shape, seeds, false, max, colours, canvases),
        seeds.no_duplicates(),
        0 <= m <= max,
        0 <= i < seeds.len(),
        on_grid(shape, pos(seeds[i])),
    ensures
        canvases[m][pos(seeds[i])] == colours[i],
        lake_size(canvases[m], colours[i]) > 0,
{
    let p = pos(seeds[i]);
    let c = colours[i];
    assert forall|j: int| i < j < seeds.len() implies #[trigger] seeds[j] != seeds[i] by {}
    assert(canvases[0][p] == c);
    assert(lake(canvases[0], c).contains(p));
    law_segmented_lakes_grow(levels, shape, seeds, max, colours, canvases, 0, m, c);
    law_water_rises(levels, shape, seeds, false, max, colours, canvases, 0, m);
    lemma_lake_finite(canvases[m], shape, c);
    if lake_size(canvases[m], c) == 0 {
        lake(canvases[m], c).lemma_len0_is_empty();
    }
}

/// Where lakes are merged, no two lakes of different colours touch at any level.
pub proof fn law_merging_leaves_no_touching_lakes(
    levels: Map<(int, int), u8>,
    shape: (nat, nat),
    seeds: Seq<(usize, usize)>,
    max: u8,
    colours: Seq<usize>,
    canvases: Seq<Map<(int, int), usize>>,
    m: int,
    a: usize,
    b: usize,
)
    requires
        is_rise(levels, shape, seeds, true, max, colours, canvases),
        0 <= m < max,
        touches(canvases[m + 1], shape, a, b),
    ensures
        a == b,
{
    law_water_rises(levels, shape, seeds, true, max, colours, canvases, m, m);
    let before = canvases[m];
    let after = canvases[m + 1];
    assert(raises(levels, before, after, shape, m as u8, true));
    let flooded = choose|flooded: Map<(int, int), usize>| #[trigger]
        floods(levels, before, flooded, shape, m as u8) && merges(flooded, after, shape);
    law_flood_keeps_water(levels, before, flooded, shape, m as u8);
    law_merged_lakes_do_not_touch(flooded, after, shape, a, b);
}

/// The colours of a rise go up to the number of seeds.
pub proof fn lemma_rise_bounded(
    levels: Map<(int, int), u8>,
    shape: (nat, nat),
    seeds: Seq<(usize, usize)>,
    merging: bool,
    max: u8,
    colours: Seq<usize>,
    canvases: Seq<Map<(int, int), usize>>,
    m: int,
    last: usize,
)
    requires
        is_rise(levels, shape, seeds, merging, max, colours, canvases),
        0 <= m <= max,
        last == seeds.len(),
    ensures
        colours_up_to(canvases[m], last),
    decreases m,
{
    if m == 0 {
        lemma_seeded_bounded(shape, seeds, colours, canvases[0], last);
    } else {
        lemma_rise_bounded(levels, shape, seeds, merging, max, colours, canvases, m - 1, last);
        law_water_rises(levels, shape, seeds, merging, max, colours, canvases, m - 1, m - 1);
        let before = canvases[m - 1];
        let after = canvases[m - 1 + 1];
        assert(raises(levels, before, after, shape, (m - 1) as u8, merging));
        if merging {
            let flooded = choose|flooded: Map<(int, int), usize>| #[trigger]
                floods(levels, before, flooded, shape, (m - 1) as u8) && merges(
                    flooded,
                    after,
                    shape,
                );
            lemma_floods_bounded(levels, before, flooded, shape, (m - 1) as u8, last);
            lemma_merges_bounded(flooded, after, shape, last);
        } else {
            lemma_floods_bounded(levels, before, after, shape, (m - 1) as u8, last);
        }
    }
}

/// At each level the sizes that are counted add up to the number of pixels, and the
/// entry after that of the last colour is zero.
pub proof fn law_sizes_add_up(
    levels: Map<(int, int), u8>,
    shape: (nat, nat),
    seeds: Seq<(usize, usize)>,
    merging: bool,
    max: u8,
    res: Seq<(u8, Vec<usize>)>,
    l: int,
)
    requires
        is_watershed(levels, shape, seeds, merging, max, res),
        seeds.len() + 2 <= usize::MAX,
        0 <= l < max,
    ensures
        total(res[l].1@) == shape.0 * shape.1,
        res[l].1@[seeds.len() as int + 1] == 0,
{
    let (colours, canvases) = choose|
        colours: Seq<usize>,
        canvases: Seq<Map<(int, int), usize>>,
    |
        {
            &&& #[trigger] is_rise(levels, shape, seeds, merging, max, colours, canvases)
            &&& counts_rise(seeds, max, canvases, res)
        };
    let last = seeds.len() as usize;
    let canvas = canvases[l + 1];
    law_water_rises(levels, shape, seeds, merging, max, colours, canvases, l + 1, l + 1);
    lemma_rise_bounded(levels, shape, seeds, merging, max, colours, canvases, l + 1, last);
    assert(res[l].0 == l);
    law_lake_sizes_add_up(canvas, shape, res[l].1@);
    let beyond = (last + 1) as usize;
    assert(res[l].1@[last + 1] == lake_size(canvas, beyond));
    assert(lake(canvas, beyond) =~= Set::empty());
}

/// Which pixels are under water at a level depends neither on chance, nor on whether
/// lakes are merged, nor on how far the water rises after it.
pub proof fn law_water_is_determined(
    levels: Map<(int, int), u8>,
    shape: (nat, nat),
    seeds: Seq<(usize, usize)>,
    merging: bool,
    max: u8,
    colours: Seq<usize>,
    canvases: Seq<Map<(int, int), usize>>,
    other_merging: bool,
    other_max: u8,
    other_colours: Seq<usize>,
    other_canvases: Seq<Map<(int, int), usize>>,
    m: int,
)
    requires
        is_rise(levels, shape, seeds, merging, max, colours, canvases),
        is_rise(levels, shape, seeds, other_merging, other_max, other_colours, other_canvases),
        0 <= m <= max,
        m <= other_max,
    ensures
        same_water(canvases[m], other_canvases[m]),
    decreases m,
{
    if m == 0 {
        let a = canvases[0];
        let b = other_canvases[0];
        assert forall|p: (int, int)| #[trigger] a.dom().contains(p) implies (a[p] == UNCOLOURED
            <==> b[p] == UNCOLOURED) by {
            lemma_seeded_colours(shape, seeds, colours, a, p);
            lemma_seeded_colours(shape, seeds, other_colours, b, p);
        }
    } else {
        law_water_is_determined(
            levels,
            shape,
            seeds,
            merging,
            max,
            colours,
            canvases,
            other_merging,
            other_max,
            other_colours,
            other_canvases,
            m - 1,
        );
        law_water_rises(levels, shape, seeds, merging, max, colours, canvases, m - 1, m - 1);
        let lvl = (m - 1) as u8;
        let a = canvases[m - 1];
        let b = other_canvases[m - 1];
        assert(raises(levels, a, canvases[m - 1 + 1], shape, lvl, merging));
        assert(raises(levels, b, other_canvases[m - 1 + 1], shape, lvl, other_merging));
        let a_flooded = lemma_raises_floods(levels, a, canvases[m], shape, lvl, merging);
        let b_flooded = lemma_raises_floods(
            levels,
            b,
            other_canvases[m],
            shape,
            lvl,
            other_merging,
        );
        law_flood_is_determined(levels, a, a_flooded, b, b_flooded, shape, lvl);
    }
}

/// The flooded canvas on the way to a raised one, with the same pixels under water.
pub proof fn lemma_raises_floods(
    levels: Map<(int, int), u8>,
    before: Map<(int, int), usize>,
    after: Map<(int, int), usize>,
    shape: (nat, nat),
    lvl: u8,
    merging: bool,
) -> (flooded: Map<(int, int), usize>)
    requires
        raises(levels, before, after, shape, lvl, merging),
    ensures
        floods(levels, before, flooded, shape, lvl),
        same_water(flooded, after),
{
    if merging {
        let flooded = choose|flooded: Map<(int, int), usize>| #[trigger]
            floods(levels, before, flooded, shape, lvl) && merges(flooded, after, shape);
        law_merge_keeps_water(flooded, after, shape);
        flooded
    } else {
        after
    }
}

/// The number of pixels without water at a level is the same for all outcomes of the
/// transforms of an image from given seeds, merging or not, and
/// however far the water rises after it.
pub proof fn law_dry_pixels_are_determined(
    levels: Map<(int, int), u8>,
    shape: (nat, nat),
    seeds: Seq<(usize, usize)>,
    merging: bool,
    max: u8,
    res: Seq<(u8, Vec<usize>)>,
    other_merging: bool,
    other_max: u8,
    other_res: Seq<(u8, Vec<usize>)>,
    l: int,
)
    requires
        is_watershed(levels, shape, seeds, merging, max, res),
        is_watershed(levels, shape, seeds, other_merging, other_max, other_res),
        0 <= l < max,
        l < other_max,
    ensures
        res[l].1@[0] == other_res[l].1@[0],
{
    let (colours, canvases) = choose|
        colours: Seq<usize>,
        canvases: Seq<Map<(int, int), usize>>,
    |
        {
            &&& #[trigger] is_rise(levels, shape, seeds, merging, max, colours, canvases)
            &&& counts_rise(seeds, max, canvases, res)
        };
    let (other_colours, other_canvases) = choose|
        colours: Seq<usize>,
        canvases: Seq<Map<(int, int), usize>>,
    |
        {
            &&& #[trigger] is_rise(
                levels,
                shape,
                seeds,
                other_merging,
                other_max,
                colours,
                canvases,
            )
            &&& counts_rise(seeds, other_max, canvases, other_res)
        };
    law_water_is_determined(
        levels,
        shape,
        seeds,
        merging,
        max,
        colours,
        canvases,
        other_merging,
        other_max,
        other_colours,
        other_canvases,
        l + 1,
    );
    assert(res[l].1@[0] == lake_size(canvases[l + 1], 0));
    assert(other_res[l].1@[0] == lake_size(other_canvases[l + 1], 0));
    assert(lake(canvases[l + 1], 0) =~= lake(other_canvases[l + 1], 0));
}

/// A pixel that is never to be filled stays dry at all levels, unless it is a seed.
pub proof fn law_never_fill(
    levels: Map<(int, int), u8>,
    shape: (nat, nat),
    seeds: Seq<(usize, usize)>,
    merging: bool,
    max: u8,
    colours: Seq<usize>,
    canvases: Seq<Map<(int, int), usize>>,
    m: int,
    p: (int, int),
)
    requires
        is_rise(levels, shape, seeds, merging, max, colours, canvases),
        0 <= m <= max,
        on_grid(shape, p),
        levels[p] == NEVER_FILL,
        forall|i: int| 0 <= i < seeds.len() ==> pos(#[trigger] seeds[i]) != p,
    ensures
        canvases[m][p] == UNCOLOURED,
    decreases m,
{
    if m == 0 {
        assert(canvases[0].dom().contains(p));
        lemma_seeded_colours(shape, seeds, colours, canvases[0], p);
    } else {
        law_never_fill(levels, shape, seeds, merging, max, colours, canvases, m - 1, p);
        law_water_rises(levels, shape, seeds, merging, max, colours, canvases, m - 1, m - 1);
        let lvl = (m - 1) as u8;
        let before = canvases[m - 1];
        assert(raises(levels, before, canvases[m - 1 + 1], shape, lvl, merging));
        let flooded = lemma_raises_floods(levels, before, canvases[m], shape, lvl, merging);
        let inv = |c: Map<(int, int), usize>| c.dom() == grid(shape) && c[p] == UNCOLOURED;
        assert forall|c: Map<(int, int), usize>, d: Map<(int, int), usize>|
            inv(c) && #[trigger] fills_once(levels, c, d, shape, lvl) implies inv(d) by {
            assert(c.dom().contains(p));
            assert(d[p] == c[p]);
        }
        lemma_floods_keep(levels, before, flooded, shape, lvl, inv);
        assert(flooded.dom().contains(p));
    }
}

/// A run to a lower limit is the start of one to a higher: the first entries of an outcome
/// are an outcome for as many levels.
pub proof fn law_shorter_runs(
    levels: Map<(int, int), u8>,
    shape: (nat, nat),
    seeds: Seq<(usize, usize)>,
    merging: bool,
    max: u8,
    res: Seq<(u8, Vec<usize>)>,
    shorter: u8,
)
    requires
        is_watershed(levels, shape, seeds, merging, max, res),
        shorter <= max,
    ensures
        is_watershed(levels, shape, seeds, merging, shorter, res.take(shorter as int)),
{
    let (colours, canvases) = choose|
        colours: Seq<usize>,
        canvases: Seq<Map<(int, int), usize>>,
    |
        {
            &&& #[trigger] is_rise(levels, shape, seeds, merging, max, colours, canvases)
            &&& counts_rise(seeds, max, canvases, res)
        };
    let first = canvases.take(shorter + 1);
    assert forall|l: int| 0 <= l < shorter implies raises(
        levels,
        #[trigger] first[l],
        first[l + 1],
        shape,
        l as u8,
        merging,
    ) by {
        assert(first[l] == canvases[l] && first[l + 1] == canvases[l + 1]);
    }
    assert(is_rise(levels, shape, seeds, merging, shorter, colours, first));
    let entries = res.take(shorter as int);
    assert forall|l: int|
        #![trigger entries[l]]
        0 <= l < shorter implies entries[l].0 == l && entries[l].1@.len() == seeds.len() + 2
        && counts_lakes(first[l + 1], entries[l].1@) by {
        assert(entries[l] == res[l]);
        assert(first[l + 1] == canvases[l + 1]);
    }
}

} // verus!
