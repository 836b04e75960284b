//! Laws of what belongs to one lake.

use crate::flooding::{borders_colour, fillable, fills_once, floods, interior, lemma_floods_keep};
use crate::grid::{grid, on_grid, pos};
use crate::lakes::{lake, lake_size, lemma_lake_finite, UNCOLOURED};
use crate::laws::{
    law_flood_keeps_water, law_merge_joins_linked_lakes, law_merge_keeps_water, same_water,
};
use crate::merging::{merges, touches, touching};
use crate::neighbours::adjacent;
use crate::relation::{
    is_symmetric, joined, lemma_joined_keeps, lemma_joined_once, lemma_joined_refines,
    lemma_joined_self, lemma_joined_step, lemma_joined_symmetric, lemma_joined_transitive,
};
use crate::rise_laws::{
    law_merging_leaves_no_touching_lakes, law_water_is_determined, law_water_rises,
    lemma_rise_bounded,
};
use crate::transform::{
    counts_rise, is_colouring, is_rise, is_seeded, is_watershed, lemma_seeded_colours, raises,
};
use vstd::prelude::*;

verus! {

/// The two pixels share an edge, and at least one of them is not in the outermost ring
/// of the grid.
pub open spec fn linked(shape: (nat, nat), p: (int, int), q: (int, int)) -> bool {
    adjacent(p, q) && (interior(shape, p) || interior(shape, q))
}

/// Steps from one pixel to the next within the lake of one colour.
pub open spec fn within_lake(
    canvas: Map<(int, int), usize>,
    shape: (nat, nat),
    c: usize,
) -> spec_fn((int, int), (int, int)) -> bool {
    |x: (int, int), y: (int, int)| linked(shape, x, y) && canvas[x] == c && canvas[y] == c
}

/// Steps from one pixel to the next through water of any colour.
pub open spec fn within_water(
    canvas: Map<(int, int), usize>,
    shape: (nat, nat),
) -> spec_fn((int, int), (int, int)) -> bool {
    |x: (int, int), y: (int, int)|
        linked(shape, x, y) && canvas[x] != UNCOLOURED && canvas[y] != UNCOLOURED
}

/// From each pixel of a lake all of the lake can be reached within it.
pub open spec fn lakes_connect(canvas: Map<(int, int), usize>, shape: (nat, nat)) -> bool {
    forall|p: (int, int), q: (int, int)|
        #![trigger canvas[p], canvas[q]]
        on_grid(shape, p) && on_grid(shape, q) && canvas[p] == canvas[q] && canvas[p] != UNCOLOURED
            ==> joined(within_lake(canvas, shape, canvas[p]), p, q)
}

proof fn lemma_seeded_connect(
    shape: (nat, nat),
    seeds: Seq<(usize, usize)>,
    colours: Seq<usize>,
    canvas: Map<(int, int), usize>,
)
    requires
        is_colouring(seeds.len(), colours),
        is_seeded(shape, seeds, colours, canvas),
    ensures
        lakes_connect(canvas, shape),
{
    assert forall|p: (int, int), q: (int, int)|
        #![trigger canvas[p], canvas[q]]
        on_grid(shape, p) && on_grid(shape, q) && canvas[p] == canvas[q] && canvas[p]
            != UNCOLOURED implies joined(within_lake(canvas, shape, canvas[p]), p, q) by {
        lemma_seeded_colours(shape, seeds, colours, canvas, p);
        lemma_seeded_colours(shape, seeds, colours, canvas, q);
        let i = choose|i: int|
            0 <= i < seeds.len() && pos(#[trigger] seeds[i]) == p && canvas[p] == colours[i];
        let j = choose|j: int|
            0 <= j < seeds.len() && pos(#[trigger] seeds[j]) == q && canvas[q] == colours[j];
        assert(colours[i] == colours[j]);
        assert(i == j);
        lemma_joined_self(within_lake(canvas, shape, canvas[p]), p);
    }
}

/// Each pixel under water after a round of flooding is linked, within its lake, to one
/// that had its colour before.
proof fn lemma_anchor(
    levels: Map<(int, int), u8>,
    before: Map<(int, int), usize>,
    after: Map<(int, int), usize>,
    shape: (nat, nat),
    lvl: u8,
    p: (int, int),
) -> (anchor: (int, int))
    requires
        before.dom() == grid(shape),
        fills_once(levels, before, after, shape, lvl),
        on_grid(shape, p),
        after[p] != UNCOLOURED,
    ensures
        on_grid(shape, anchor),
        before[anchor] == after[p],
        joined(within_lake(after, shape, after[p]), p, anchor),
{
    let s = within_lake(after, shape, after[p]);
    assert(before.dom().contains(p));
    if fillable(levels, before, shape, lvl, p) {
        assert(borders_colour(before, p, after[p]));
        let n = choose|n: (int, int)| #[trigger] adjacent(p, n) && before[n] == after[p];
        assert(before.dom().contains(n));
        assert(after[n] == before[n]);
        assert(s(p, n));
        lemma_joined_once(s, p, n);
        n
    } else {
        lemma_joined_self(s, p);
        p
    }
}

proof fn lemma_fills_connect(
    levels: Map<(int, int), u8>,
    before: Map<(int, int), usize>,
    after: Map<(int, int), usize>,
    shape: (nat, nat),
    lvl: u8,
)
    requires
        before.dom() == grid(shape),
        lakes_connect(before, shape),
        fills_once(levels, before, after, shape, lvl),
    ensures
        lakes_connect(after, shape),
{
    assert forall|p: (int, int), q: (int, int)|
        #![trigger after[p], after[q]]
        on_grid(shape, p) && on_grid(shape, q) && after[p] == after[q] && after[p]
            != UNCOLOURED implies joined(within_lake(after, shape, after[p]), p, q) by {
        let c = after[p];
        let r = within_lake(before, shape, c);
        let s = within_lake(after, shape, c);
        let p0 = lemma_anchor(levels, before, after, shape, lvl, p);
        let q0 = lemma_anchor(levels, before, after, shape, lvl, q);
        assert(joined(r, p0, q0));
        assert forall|x: (int, int), y: (int, int)| #[trigger] r(x, y) implies joined(s, x, y) by {
            assert(before.dom().contains(x) && before.dom().contains(y));
            assert(after[x] == before[x] && after[y] == before[y]);
            assert(s(x, y));
            lemma_joined_once(s, x, y);
        }
        lemma_joined_refines(r, s, p0, q0);
        lemma_joined_symmetric(s, q, q0);
        lemma_joined_transitive(s, p, p0, q0);
        lemma_joined_transitive(s, p, q0, q);
    }
}

proof fn lemma_floods_connect(
    levels: Map<(int, int), u8>,
    before: Map<(int, int), usize>,
    after: Map<(int, int), usize>,
    shape: (nat, nat),
    lvl: u8,
)
    requires
        before.dom() == grid(shape),
        lakes_connect(before, shape),
        floods(levels, before, after, shape, lvl),
    ensures
        lakes_connect(after, shape),
{
    let inv = |c: Map<(int, int), usize>| c.dom() == grid(shape) && lakes_connect(c, shape);
    assert forall|c: Map<(int, int), usize>, d: Map<(int, int), usize>|
        inv(c) && #[trigger] fills_once(levels, c, d, shape, lvl) implies inv(d) by {
        lemma_fills_connect(levels, c, d, shape, lvl);
    }
    lemma_floods_keep(levels, before, after, shape, lvl, inv);
}

/// A merged lake can be walked from one pixel of a lake before to all of that lake.
proof fn lemma_old_lake_connects(
    before: Map<(int, int), usize>,
    after: Map<(int, int), usize>,
    shape: (nat, nat),
    p: (int, int),
    q: (int, int),
)
    requires
        before.dom() == grid(shape),
        lakes_connect(before, shape),
        merges(before, after, shape),
        on_grid(shape, p),
        on_grid(shape, q),
        before[p] == before[q],
        before[p] != UNCOLOURED,
    ensures
        joined(within_lake(after, shape, after[p]), p, q),
{
    let r = within_lake(before, shape, before[p]);
    let s = within_lake(after, shape, after[p]);
    assert(joined(r, p, q));
    assert forall|x: (int, int), y: (int, int)| #[trigger] r(x, y) implies joined(s, x, y) by {
        assert(before.dom().contains(x) && before.dom().contains(y));
        lemma_joined_self(touching(before, shape), before[p]);
        law_merge_joins_linked_lakes(before, after, shape, p, x);
        law_merge_joins_linked_lakes(before, after, shape, p, y);
        assert(s(x, y));
        lemma_joined_once(s, x, y);
    }
    lemma_joined_refines(r, s, p, q);
}

proof fn lemma_merges_connect(
    before: Map<(int, int), usize>,
    after: Map<(int, int), usize>,
    shape: (nat, nat),
)
    requires
        before.dom() == grid(shape),
        lakes_connect(before, shape),
        merges(before, after, shape),
    ensures
        lakes_connect(after, shape),
{
    let t = touching(before, shape);
    assert forall|p: (int, int), q: (int, int)|
        #![trigger after[p], after[q]]
        on_grid(shape, p) && on_grid(shape, q) && after[p] == after[q] && after[p]
            != UNCOLOURED implies joined(within_lake(after, shape, after[p]), p, q) by {
        let s = within_lake(after, shape, after[p]);
        law_merge_keeps_water(before, after, shape);
        assert(before.dom().contains(p) && before.dom().contains(q));
        law_merge_joins_linked_lakes(before, after, shape, p, q);
        let inv = |x: usize|
            {
                &&& x != UNCOLOURED
                &&& joined(t, before[p], x)
                &&& forall|z: (int, int)|
                    on_grid(shape, z) && #[trigger] before[z] == x ==> joined(s, p, z)
            };
        assert(inv(before[p])) by {
            lemma_joined_self(t, before[p]);
            assert forall|z: (int, int)|
                on_grid(shape, z) && #[trigger] before[z] == before[p] implies joined(s, p, z) by {
                lemma_old_lake_connects(before, after, shape, p, z);
            }
        }
        assert forall|x: usize, y: usize| inv(x) && #[trigger] t(x, y) implies inv(y) by {
            let (a, b) = choose|a: (int, int), b: (int, int)|
                {
                    &&& #[trigger] adjacent(a, b)
                    &&& interior(shape, a) || interior(shape, b)
                    &&& before[a] == x
                    &&& before[b] == y
                };
            assert(before.dom().contains(a) && before.dom().contains(b));
            lemma_joined_step(t, before[p], x, y);
            law_merge_joins_linked_lakes(before, after, shape, p, a);
            law_merge_joins_linked_lakes(before, after, shape, p, b);
            assert(joined(s, p, a));
            assert(linked(shape, a, b));
            assert(s(a, b));
            lemma_joined_step(s, p, a, b);
            assert forall|z: (int, int)|
                on_grid(shape, z) && #[trigger] before[z] == y implies joined(s, p, z) by {
                lemma_old_lake_connects(before, after, shape, b, z);
                lemma_joined_transitive(s, p, b, z);
            }
        }
        lemma_joined_keeps(t, inv, before[p], before[q]);
    }
}

proof fn lemma_rise_connects(
    levels: Map<(int, int), u8>,
    shape: (nat, nat),
    seeds: Seq<(usize, usize)>,
    merging: bool,
    max: u8,
    colours: Seq<usize>,
    canvases: Seq<Map<(int, int), usize>>,
    m: int,
)
    requires
        is_rise(levels, shape, seeds, merging, max, colours, canvases),
        0 <= m <= max,
    ensures
        lakes_connect(canvases[m], shape),
    decreases m,
{
    if m == 0 {
        lemma_seeded_connect(shape, seeds, colours, canvases[0]);
    } else {
        lemma_rise_connects(levels, shape, seeds, merging, max, colours, canvases, m - 1);
        law_water_rises(levels, shape, seeds, merging, max, colours, canvases, m - 1, m - 1);
        let before = canvases[m - 1];
        let after = canvases[m - 1 + 1];
        let lvl = (m - 1) as u8;
        assert(raises(levels, before, after, shape, lvl, merging));
        if merging {
            let flooded = choose|flooded: Map<(int, int), usize>| #[trigger]
                floods(levels, before, flooded, shape, lvl) && merges(flooded, after, shape);
            lemma_floods_connect(levels, before, flooded, shape, lvl);
            law_flood_keeps_water(levels, before, flooded, shape, lvl);
            lemma_merges_connect(flooded, after, shape);
        } else {
            lemma_floods_connect(levels, before, after, shape, lvl);
        }
    }
}

/// At each level, merging or not, a lake is in one piece: any two of its pixels are
/// connected within it.
pub proof fn law_lakes_are_connected(
    levels: Map<(int, int), u8>,
    shape: (nat, nat),
    seeds: Seq<(usize, usize)>,
    merging: bool,
    max: u8,
    colours: Seq<usize>,
    canvases: Seq<Map<(int, int), usize>>,
    m: int,
    p: (int, int),
    q: (int, int),
)
    requires
        is_rise(levels, shape, seeds, merging, max, colours, canvases),
        0 <= m <= max,
        on_grid(shape, p),
        on_grid(shape, q),
        canvases[m][p] == canvases[m][q],
        canvases[m][p] != UNCOLOURED,
    ensures
        joined(within_lake(canvases[m], shape, canvases[m][p]), p, q),
{
    lemma_rise_connects(levels, shape, seeds, merging, max, colours, canvases, m);
}

/// Where lakes are merged, the lakes of a level are its bodies of water: two pixels
/// under water have one colour exactly where water connects them.
pub proof fn law_merged_lakes_are_bodies_of_water(
    levels: Map<(int, int), u8>,
    shape: (nat, nat),
    seeds: Seq<(usize, usize)>,
    max: u8,
    colours: Seq<usize>,
    canvases: Seq<Map<(int, int), usize>>,
    m: int,
    p: (int, int),
    q: (int, int),
)
    requires
        is_rise(levels, shape, seeds, true, max, colours, canvases),
        0 <= m < max,
        on_grid(shape, p),
        on_grid(shape, q),
        canvases[m + 1][p] != UNCOLOURED,
    ensures
        canvases[m + 1][p] == canvases[m + 1][q] <==> joined(
            within_water(canvases[m + 1], shape),
            p,
            q,
        ),
{
    let canvas = canvases[m + 1];
    let w = within_water(canvas, shape);
    if canvas[p] == canvas[q] {
        let s = within_lake(canvas, shape, canvas[p]);
        law_lakes_are_connected(
            levels,
            shape,
            seeds,
            true,
            max,
            colours,
            canvases,
            m + 1,
            p,
            q,
        );
        assert forall|x: (int, int), y: (int, int)| #[trigger] s(x, y) implies joined(w, x, y) by {
            assert(w(x, y));
            lemma_joined_once(w, x, y);
        }
        lemma_joined_refines(s, w, p, q);
    }
    if joined(w, p, q) {
        let inv = |x: (int, int)| canvas[x] == canvas[p];
        assert forall|x: (int, int), y: (int, int)| inv(x) && #[trigger] w(x, y) implies inv(y) by {
            assert(adjacent(x, y));
            assert(touches(canvas, shape, canvas[x], canvas[y]));
            law_merging_leaves_no_touching_lakes(
                levels,
                shape,
                seeds,
                max,
                colours,
                canvases,
                m,
                canvas[x],
                canvas[y],
            );
        }
        lemma_joined_keeps(w, inv, p, q);
    }
}

/// Where lakes are merged, the lakes are a matter of the water alone: of two rises with
/// the same pixels under water at a level of each, any lake of the one is a lake of the
/// other. Neither the images nor the seeds have to be the same.
pub proof fn law_merged_lakes_follow_the_water(
    shape: (nat, nat),
    levels: Map<(int, int), u8>,
    seeds: Seq<(usize, usize)>,
    max: u8,
    colours: Seq<usize>,
    canvases: Seq<Map<(int, int), usize>>,
    m: int,
    other_levels: Map<(int, int), u8>,
    other_seeds: Seq<(usize, usize)>,
    other_max: u8,
    other_colours: Seq<usize>,
    other_canvases: Seq<Map<(int, int), usize>>,
    n: int,
    p: (int, int),
)
    requires
        is_rise(levels, shape, seeds, true, max, colours, canvases),
        is_rise(
            other_levels,
            shape,
            other_seeds,
            true,
            other_max,
            other_colours,
            other_canvases,
        ),
        0 <= m < max,
        0 <= n < other_max,
        same_water(canvases[m + 1], other_canvases[n + 1]),
        on_grid(shape, p),
        canvases[m + 1][p] != UNCOLOURED,
    ensures
        other_canvases[n + 1][p] != UNCOLOURED,
        lake(canvases[m + 1], canvases[m + 1][p]) == lake(
            other_canvases[n + 1],
            other_canvases[n + 1][p],
        ),
{
    let a = canvases[m + 1];
    let b = other_canvases[n + 1];
    law_water_rises(levels, shape, seeds, true, max, colours, canvases, m + 1, m + 1);
    assert(a.dom().contains(p));
    assert(within_water(a, shape) =~= within_water(b, shape)) by {
        assert forall|x: (int, int), y: (int, int)| #[trigger]
            within_water(a, shape)(x, y) == within_water(b, shape)(x, y) by {
            if linked(shape, x, y) {
                assert(a.dom().contains(x) && a.dom().contains(y));
            }
        }
    }
    assert forall|q: (int, int)| on_grid(shape, q) implies (a[p] == a[q] <==> b[p] == b[q]) by {
        law_merged_lakes_are_bodies_of_water(
            levels,
            shape,
            seeds,
            max,
            colours,
            canvases,
            m,
            p,
            q,
        );
        law_merged_lakes_are_bodies_of_water(
            other_levels,
            shape,
            other_seeds,
            other_max,
            other_colours,
            other_canvases,
            n,
            p,
            q,
        );
    }
    assert(lake(a, a[p]) =~= lake(b, b[p]));
}

/// Where lakes are merged, chance decides their colours and nothing else: each lake of
/// one outcome is a lake of any other.
pub proof fn law_merged_lakes_are_determined(
    levels: Map<(int, int), u8>,
    shape: (nat, nat),
    seeds: Seq<(usize, usize)>,
    max: u8,
    colours: Seq<usize>,
    canvases: Seq<Map<(int, int), usize>>,
    other_max: u8,
    other_colours: Seq<usize>,
    other_canvases: Seq<Map<(int, int), usize>>,
    m: int,
    p: (int, int),
)
    requires
        is_rise(levels, shape, seeds, true, max, colours, canvases),
        is_rise(levels, shape, seeds, true, other_max, other_colours, other_canvases),
        0 <= m < max,
        m < other_max,
        on_grid(shape, p),
        canvases[m + 1][p] != UNCOLOURED,
    ensures
        other_canvases[m + 1][p] != UNCOLOURED,
        lake(canvases[m + 1], canvases[m + 1][p]) == lake(
            other_canvases[m + 1],
            other_canvases[m + 1][p],
        ),
{
    law_water_is_determined(
        levels,
        shape,
        seeds,
        true,
        max,
        colours,
        canvases,
        true,
        other_max,
        other_colours,
        other_canvases,
        m + 1,
    );
    law_merged_lakes_follow_the_water(
        shape,
        levels,
        seeds,
        max,
        colours,
        canvases,
        m,
        levels,
        seeds,
        other_max,
        other_colours,
        other_canvases,
        m,
        p,
    );
}

/// Where lakes are merged, the sizes that are counted at a level do not depend on
/// chance, only the entries that they stand in do: each size of a lake of one outcome
/// is that of a lake of any other.
pub proof fn law_merged_sizes_are_determined(
    levels: Map<(int, int), u8>,
    shape: (nat, nat),
    seeds: Seq<(usize, usize)>,
    max: u8,
    res: Seq<(u8, Vec<usize>)>,
    other_max: u8,
    other_res: Seq<(u8, Vec<usize>)>,
    l: int,
    c: int,
)
    requires
        is_watershed(levels, shape, seeds, true, max, res),
        is_watershed(levels, shape, seeds, true, other_max, other_res),
        seeds.len() + 2 <= usize::MAX,
        0 <= l < max,
        l < other_max,
        1 <= c <= seeds.len(),
        res[l].1@[c] > 0,
    ensures
        exists|d: int|
            1 <= d <= seeds.len() && #[trigger] other_res[l].1@[d] == res[l].1@[c],
{
    let (colours, canvases) = choose|
        colours: Seq<usize>,
        canvases: Seq<Map<(int, int), usize>>,
    |
        {
            &&& #[trigger] is_rise(levels, shape, seeds, true, max, colours, canvases)
            &&& counts_rise(seeds, max, canvases, res)
        };
    let (other_colours, other_canvases) = choose|
        colours: Seq<usize>,
        canvases: Seq<Map<(int, int), usize>>,
    |
        {
            &&& #[trigger] is_rise(levels, shape, seeds, true, other_max, colours, canvases)
            &&& counts_rise(seeds, other_max, canvases, other_res)
        };
    let a = canvases[l + 1];
    let b = other_canvases[l + 1];
    let colour = c as usize;
    law_water_rises(levels, shape, seeds, true, max, colours, canvases, l + 1, l + 1);
    law_water_rises(
        levels,
        shape,
        seeds,
        true,
        other_max,
        other_colours,
        other_canvases,
        l + 1,
        l + 1,
    );
    assert(res[l].1@[c] == lake_size(a, colour));
    lemma_lake_finite(a, shape, colour);
    assert(!lake(a, colour).is_empty()) by {
        if lake(a, colour).is_empty() {
            assert(lake(a, colour) =~= Set::empty());
        }
    }
    let p = lake(a, colour).choose();
    assert(lake(a, colour).contains(p));
    law_merged_lakes_are_determined(
        levels,
        shape,
        seeds,
        max,
        colours,
        canvases,
        other_max,
        other_colours,
        other_canvases,
        l,
        p,
    );
    let last = seeds.len() as usize;
    lemma_rise_bounded(
        levels,
        shape,
        seeds,
        true,
        other_max,
        other_colours,
        other_canvases,
        l + 1,
        last,
    );
    assert(b.dom().contains(p));
    let d = b[p] as int;
    assert(other_res[l].1@[d] == lake_size(b, b[p]));
}

} // verus!
