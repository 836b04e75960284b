//! Laws of colour maps, of flooding and merging, of lakes and of minima.

use crate::colour_map::{lemma_together_symmetric, maps_to_least, mentioned, shares, together};
use crate::flooding::{
    borders_colour, borders_water, fillable, fills_once, floods, interior, lemma_floods_keep,
};
use crate::grid::{grid, on_grid, pos};
use crate::lakes::{
    counts_lakes, lake, lake_size, lemma_grid_size, lemma_lake_finite, UNCOLOURED,
};
use crate::levels::{is_local_minimum, lists_minima};
use crate::merging::{merges, touches, touching};
use crate::neighbours::{adjacent, surrounds};
use crate::relation::{
    is_least_joined, is_symmetric, joined, lemma_joined_keeps, lemma_joined_once,
    lemma_joined_refines, lemma_joined_self, lemma_joined_step, lemma_joined_symmetric,
    lemma_joined_transitive,
};
use vstd::prelude::*;
use vstd::set_lib::*;

verus! {

// Colour maps.

/// Some merger holds a colour exactly where one holds it twice over.
proof fn lemma_mentioned(mergers: Seq<Seq<usize>>, c: usize)
    ensures
        mentioned(mergers, c) == shares(mergers, c, c),
{
    if mentioned(mergers, c) {
        let k = choose|k: int| 0 <= k < mergers.len() && (#[trigger] mergers[k]).contains(c);
        assert(mergers[k].contains(c));
    }
}

/// The two lists hold the same colours.
pub open spec fn same_colours(a: Seq<usize>, b: Seq<usize>) -> bool {
    forall|c: usize| a.contains(c) <==> #[trigger] b.contains(c)
}

/// Each merger has the colours of some merger of the other list.
pub open spec fn covered_by(mergers: Seq<Seq<usize>>, others: Seq<Seq<usize>>) -> bool {
    forall|k: int|
        0 <= k < mergers.len() ==> exists|j: int|
            0 <= j < others.len() && same_colours(#[trigger] mergers[k], #[trigger] others[j])
}

proof fn lemma_covered_shares(
    mergers: Seq<Seq<usize>>,
    others: Seq<Seq<usize>>,
    a: usize,
    b: usize,
)
    requires
        covered_by(mergers, others),
        shares(mergers, a, b),
    ensures
        shares(others, a, b),
{
    let k = choose|k: int|
        0 <= k < mergers.len() && (#[trigger] mergers[k]).contains(a) && mergers[k].contains(b);
    let j = choose|j: int|
        0 <= j < others.len() && same_colours(mergers[k], #[trigger] others[j]);
    assert(others[j].contains(a) && others[j].contains(b));
}

/// The order in which mergers come makes no difference to the colour map, nor does the
/// order of the colours within them, nor whether any of them is repeated.
pub proof fn law_merger_order(
    base: Seq<usize>,
    mergers: Seq<Seq<usize>>,
    reordered: Seq<Seq<usize>>,
    map: Seq<usize>,
    other: Seq<usize>,
)
    requires
        base.len() <= usize::MAX,
        covered_by(mergers, reordered),
        covered_by(reordered, mergers),
        maps_to_least(base, mergers, map),
        maps_to_least(base, reordered, other),
    ensures
        map == other,
{
    assert forall|a: usize, b: usize| #[trigger] shares(mergers, a, b) == shares(
        reordered,
        a,
        b,
    ) by {
        if shares(mergers, a, b) {
            lemma_covered_shares(mergers, reordered, a, b);
        }
        if shares(reordered, a, b) {
            lemma_covered_shares(reordered, mergers, a, b);
        }
    }
    assert(together(mergers) =~= together(reordered));
    assert forall|i: int| 0 <= i < map.len() implies map[i] == other[i] by {
        let c = i as usize;
        assert(map[c as int] == map[i] && other[c as int] == other[i]);
        lemma_mentioned(mergers, c);
        lemma_mentioned(reordered, c);
        if mentioned(mergers, c) {
            assert(joined(together(mergers), c, map[i]));
            assert(joined(together(mergers), c, other[i]));
        }
    }
    assert(map =~= other);
}

/// Two colours that mergers mention go to one colour exactly where mergers link them.
pub proof fn law_linked_colours_merge(
    base: Seq<usize>,
    mergers: Seq<Seq<usize>>,
    map: Seq<usize>,
    a: usize,
    b: usize,
)
    requires
        maps_to_least(base, mergers, map),
        a < map.len(),
        b < map.len(),
        mentioned(mergers, a),
        mentioned(mergers, b),
    ensures
        map[a as int] == map[b as int] <==> joined(together(mergers), a, b),
{
    lemma_together_symmetric(mergers);
    assert(is_least_joined(together(mergers), a, map[a as int]));
    assert(is_least_joined(together(mergers), b, map[b as int]));
    lemma_least_joined(together(mergers), a, b, map[a as int], map[b as int]);
}

/// Where steps can be taken back, the least that can be reached is the same exactly
/// where one can be reached from the other.
proof fn lemma_least_joined(
    r: spec_fn(usize, usize) -> bool,
    a: usize,
    b: usize,
    least_a: usize,
    least_b: usize,
)
    requires
        is_symmetric(r),
        is_least_joined(r, a, least_a),
        is_least_joined(r, b, least_b),
    ensures
        least_a == least_b <==> joined(r, a, b),
{
    if joined(r, a, b) {
        lemma_joined_symmetric(r, a, b);
        lemma_joined_transitive(r, a, b, least_b);
        lemma_joined_transitive(r, b, a, least_a);
    }
    if least_a == least_b {
        lemma_joined_symmetric(r, b, least_b);
        lemma_joined_transitive(r, a, least_a, b);
    }
}

/// The colour that a region takes is one of its own, and it stays.
pub proof fn law_colour_map_is_stable(
    base: Seq<usize>,
    mergers: Seq<Seq<usize>>,
    map: Seq<usize>,
    c: usize,
)
    requires
        maps_to_least(base, mergers, map),
        c < map.len(),
        mentioned(mergers, c),
    ensures
        map[c as int] <= c,
        map[map[c as int] as int] == map[c as int],
{
    let r = together(mergers);
    let least = map[c as int];
    assert(is_least_joined(r, c, least));
    lemma_joined_self(r, c);
    assert(joined(r, c, c));
    let inv = |x: usize| mentioned(mergers, x);
    assert forall|x: usize, y: usize| inv(x) && #[trigger] r(x, y) implies inv(y) by {
        let k = choose|k: int|
            0 <= k < mergers.len() && (#[trigger] mergers[k]).contains(x) && mergers[k].contains(
                y,
            );
        assert(mergers[k].contains(y));
    }
    lemma_joined_keeps(r, inv, c, least);
    assert(is_least_joined(r, least, map[least as int]));
    lemma_together_symmetric(mergers);
    lemma_least_joined(r, c, least, least, map[least as int]);
}

// Flooding.

/// Pixels under water keep their colour when the canvas is flooded.
pub proof fn law_flood_keeps_water(
    levels: Map<(int, int), u8>,
    before: Map<(int, int), usize>,
    after: Map<(int, int), usize>,
    shape: (nat, nat),
    lvl: u8,
)
    requires
        floods(levels, before, after, shape, lvl),
    ensures
        after.dom() == before.dom(),
        forall|p: (int, int)|
            #![trigger after[p]]
            before.dom().contains(p) && before[p] != UNCOLOURED ==> after[p] == before[p],
{
    let inv = |c: Map<(int, int), usize>| keeps_water(before, c);
    assert forall|c: Map<(int, int), usize>, d: Map<(int, int), usize>|
        inv(c) && #[trigger] fills_once(levels, c, d, shape, lvl) implies inv(d) by {}
    lemma_floods_keep(levels, before, after, shape, lvl, inv);
}

/// Pixels under water in `before` have the same colour in `after`.
pub open spec fn keeps_water(
    before: Map<(int, int), usize>,
    after: Map<(int, int), usize>,
) -> bool {
    &&& after.dom() == before.dom()
    &&& forall|p: (int, int)|
        #![trigger after[p]]
        before.dom().contains(p) && before[p] != UNCOLOURED ==> after[p] == before[p]
}

/// The pixel is free for water at this level: not in the outermost ring, not above the
/// level, and without water.
pub open spec fn is_free(
    levels: Map<(int, int), u8>,
    colours: Map<(int, int), usize>,
    shape: (nat, nat),
    lvl: u8,
    p: (int, int),
) -> bool {
    interior(shape, p) && levels[p] <= lvl && colours[p] == UNCOLOURED
}

/// Steps onto a free pixel next to the last one.
pub open spec fn flows(
    levels: Map<(int, int), u8>,
    colours: Map<(int, int), usize>,
    shape: (nat, nat),
    lvl: u8,
) -> spec_fn((int, int), (int, int)) -> bool {
    |x: (int, int), y: (int, int)| adjacent(x, y) && is_free(levels, colours, shape, lvl, y)
}

/// Water can get to `p` from a pixel under water over free pixels next to each other.
pub open spec fn is_reached(
    levels: Map<(int, int), u8>,
    colours: Map<(int, int), usize>,
    shape: (nat, nat),
    lvl: u8,
    p: (int, int),
) -> bool {
    exists|source: (int, int)|
        {
            &&& colours.dom().contains(source)
            &&& colours[source] != UNCOLOURED
            &&& #[trigger] joined(flows(levels, colours, shape, lvl), source, p)
        }
}

/// After a flood the pixels under water are those that water can get to, no more and
/// no less.
pub proof fn law_flood_reach(
    levels: Map<(int, int), u8>,
    before: Map<(int, int), usize>,
    after: Map<(int, int), usize>,
    shape: (nat, nat),
    lvl: u8,
    p: (int, int),
)
    requires
        floods(levels, before, after, shape, lvl),
        before.dom() == grid(shape),
        on_grid(shape, p),
    ensures
        after[p] != UNCOLOURED <==> is_reached(levels, before, shape, lvl, p),
{
    let r = flows(levels, before, shape, lvl);
    law_flood_keeps_water(levels, before, after, shape, lvl);
    if after[p] != UNCOLOURED {
        let inv = |c: Map<(int, int), usize>|
            keeps_water(before, c) && forall|q: (int, int)|
                #![trigger c[q]]
                on_grid(shape, q) && c[q] != UNCOLOURED ==> is_reached(
                    levels,
                    before,
                    shape,
                    lvl,
                    q,
                );
        assert(inv(before)) by {
            assert forall|q: (int, int)|
                #![trigger before[q]]
                on_grid(shape, q) && before[q] != UNCOLOURED implies is_reached(
                levels,
                before,
                shape,
                lvl,
                q,
            ) by {
                lemma_joined_self(r, q);
            }
        }
        assert forall|c: Map<(int, int), usize>, d: Map<(int, int), usize>|
            inv(c) && #[trigger] fills_once(levels, c, d, shape, lvl) implies inv(d) by {
            assert(keeps_water(before, d));
            assert forall|q: (int, int)|
                #![trigger d[q]]
                on_grid(shape, q) && d[q] != UNCOLOURED implies is_reached(
                levels,
                before,
                shape,
                lvl,
                q,
            ) by {
                assert(before.dom().contains(q));
                if fillable(levels, c, shape, lvl, q) {
                    assert(borders_colour(c, q, d[q]));
                    let n = choose|n: (int, int)| #[trigger] adjacent(q, n) && c[n] == d[q];
                    assert(on_grid(shape, n));
                    assert(is_reached(levels, before, shape, lvl, n));
                    let source = choose|source: (int, int)|
                        {
                            &&& before.dom().contains(source)
                            &&& before[source] != UNCOLOURED
                            &&& #[trigger] joined(r, source, n)
                        };
                    assert(before[q] == UNCOLOURED);
                    assert(adjacent(n, q));
                    assert(r(n, q));
                    lemma_joined_step(r, source, n, q);
                } else {
                    assert(d[q] == c[q]);
                }
            }
        }
        lemma_floods_keep(levels, before, after, shape, lvl, inv);
        assert(inv(after));
    }
    if is_reached(levels, before, shape, lvl, p) {
        let source = choose|source: (int, int)|
            {
                &&& before.dom().contains(source)
                &&& before[source] != UNCOLOURED
                &&& #[trigger] joined(r, source, p)
            };
        let inv = |x: (int, int)| on_grid(shape, x) && after[x] != UNCOLOURED;
        assert(after[source] == before[source]);
        assert forall|x: (int, int), y: (int, int)| inv(x) && #[trigger] r(x, y) implies inv(y) by {
            if after[y] == UNCOLOURED {
                assert(adjacent(y, x));
                assert(borders_water(after, y));
                assert(fillable(levels, after, shape, lvl, y));
            }
        }
        lemma_joined_keeps(r, inv, source, p);
    }
}

/// Steps onto a free pixel next to the last one that has a colour in `after`.
pub open spec fn flows_within(
    levels: Map<(int, int), u8>,
    before: Map<(int, int), usize>,
    after: Map<(int, int), usize>,
    shape: (nat, nat),
    lvl: u8,
    colour: usize,
) -> spec_fn((int, int), (int, int)) -> bool {
    |x: (int, int), y: (int, int)|
        adjacent(x, y) && is_free(levels, before, shape, lvl, y) && after[y] == colour
}

/// The water on `p` comes from a pixel that had its colour before, over pixels that all
/// took this colour.
pub open spec fn has_source(
    levels: Map<(int, int), u8>,
    before: Map<(int, int), usize>,
    after: Map<(int, int), usize>,
    shape: (nat, nat),
    lvl: u8,
    p: (int, int),
) -> bool {
    exists|source: (int, int)|
        {
            &&& before.dom().contains(source)
            &&& before[source] == after[p]
            &&& #[trigger] joined(
                flows_within(levels, before, after, shape, lvl, after[p]),
                source,
                p,
            )
        }
}

/// A lake grows from where it was: each pixel under water after a flood is connected,
/// within its lake, to a pixel that had this colour before.
pub proof fn law_flood_spreads_from_lakes(
    levels: Map<(int, int), u8>,
    before: Map<(int, int), usize>,
    after: Map<(int, int), usize>,
    shape: (nat, nat),
    lvl: u8,
    p: (int, int),
)
    requires
        floods(levels, before, after, shape, lvl),
        before.dom() == grid(shape),
        on_grid(shape, p),
        after[p] != UNCOLOURED,
    ensures
        has_source(levels, before, after, shape, lvl, p),
{
    let inv = |c: Map<(int, int), usize>|
        keeps_water(before, c) && forall|q: (int, int)|
            #![trigger c[q]]
            on_grid(shape, q) && c[q] != UNCOLOURED ==> has_source(
                levels,
                before,
                c,
                shape,
                lvl,
                q,
            );
    assert(inv(before)) by {
        assert forall|q: (int, int)|
            #![trigger before[q]]
            on_grid(shape, q) && before[q] != UNCOLOURED implies has_source(
            levels,
            before,
            before,
            shape,
            lvl,
            q,
        ) by {
            lemma_joined_self(flows_within(levels, before, before, shape, lvl, before[q]), q);
        }
    }
    assert forall|c: Map<(int, int), usize>, d: Map<(int, int), usize>|
        inv(c) && #[trigger] fills_once(levels, c, d, shape, lvl) implies inv(d) by {
        assert forall|q: (int, int)|
            #![trigger d[q]]
            on_grid(shape, q) && d[q] != UNCOLOURED implies has_source(
            levels,
            before,
            d,
            shape,
            lvl,
            q,
        ) by {
            let colour = d[q];
            let r = flows_within(levels, before, c, shape, lvl, colour);
            let s = flows_within(levels, before, d, shape, lvl, colour);
            assert(before.dom().contains(q));
            // What took the colour by then keeps it.
            assert forall|x: (int, int), y: (int, int)| #[trigger] r(x, y) implies joined(
                s,
                x,
                y,
            ) by {
                assert(on_grid(shape, y));
                assert(c.dom().contains(y));
                assert(d[y] == c[y]);
                assert(s(x, y));
                lemma_joined_once(s, x, y);
            }
            if fillable(levels, c, shape, lvl, q) {
                assert(borders_colour(c, q, colour));
                let n = choose|n: (int, int)| #[trigger] adjacent(q, n) && c[n] == colour;
                assert(on_grid(shape, n));
                assert(has_source(levels, before, c, shape, lvl, n));
                let source = choose|source: (int, int)|
                    {
                        &&& before.dom().contains(source)
                        &&& before[source] == c[n]
                        &&& #[trigger] joined(r, source, n)
                    };
                lemma_joined_refines(r, s, source, n);
                assert(before[q] == UNCOLOURED);
                assert(adjacent(n, q));
                assert(s(n, q));
                lemma_joined_step(s, source, n, q);
            } else {
                assert(d[q] == c[q]);
                assert(has_source(levels, before, c, shape, lvl, q));
                let source = choose|source: (int, int)|
                    {
                        &&& before.dom().contains(source)
                        &&& before[source] == c[q]
                        &&& #[trigger] joined(r, source, q)
                    };
                lemma_joined_refines(r, s, source, q);
            }
        }
    }
    lemma_floods_keep(levels, before, after, shape, lvl, inv);
    assert(inv(after));
}

/// The same pixels are under water on both canvases.
pub open spec fn same_water(a: Map<(int, int), usize>, b: Map<(int, int), usize>) -> bool {
    &&& a.dom() == b.dom()
    &&& forall|p: (int, int)| #[trigger]
        a.dom().contains(p) ==> (a[p] == UNCOLOURED <==> b[p] == UNCOLOURED)
}

/// Which pixels a flood puts under water does not depend on chance, nor on the colours
/// of the lakes: only on where there was water.
pub proof fn law_flood_is_determined(
    levels: Map<(int, int), u8>,
    before: Map<(int, int), usize>,
    after: Map<(int, int), usize>,
    other_before: Map<(int, int), usize>,
    other_after: Map<(int, int), usize>,
    shape: (nat, nat),
    lvl: u8,
)
    requires
        before.dom() == grid(shape),
        same_water(before, other_before),
        floods(levels, before, after, shape, lvl),
        floods(levels, other_before, other_after, shape, lvl),
    ensures
        same_water(after, other_after),
{
    law_flood_keeps_water(levels, before, after, shape, lvl);
    law_flood_keeps_water(levels, other_before, other_after, shape, lvl);
    assert forall|p: (int, int)| #[trigger] after.dom().contains(p) implies (after[p] == UNCOLOURED
        <==> other_after[p] == UNCOLOURED) by {
        law_flood_reach(levels, before, after, shape, lvl, p);
        law_flood_reach(levels, other_before, other_after, shape, lvl, p);
        if after[p] != UNCOLOURED {
            lemma_same_reach(levels, before, other_before, shape, lvl, p);
        }
        if other_after[p] != UNCOLOURED {
            lemma_same_reach(levels, other_before, before, shape, lvl, p);
        }
    }
}

proof fn lemma_same_reach(
    levels: Map<(int, int), u8>,
    a: Map<(int, int), usize>,
    b: Map<(int, int), usize>,
    shape: (nat, nat),
    lvl: u8,
    p: (int, int),
)
    requires
        a.dom() == grid(shape),
        same_water(a, b),
        is_reached(levels, a, shape, lvl, p),
    ensures
        is_reached(levels, b, shape, lvl, p),
{
    let r = flows(levels, a, shape, lvl);
    let s = flows(levels, b, shape, lvl);
    let source = choose|source: (int, int)|
        {
            &&& a.dom().contains(source)
            &&& a[source] != UNCOLOURED
            &&& #[trigger] joined(r, source, p)
        };
    assert forall|x: (int, int), y: (int, int)| #[trigger] r(x, y) implies joined(s, x, y) by {
        assert(a.dom().contains(y));
        assert(s(x, y));
        lemma_joined_once(s, x, y);
    }
    lemma_joined_refines(r, s, source, p);
    assert(b.dom().contains(source) && b[source] != UNCOLOURED);
}

// Merging.

proof fn lemma_touching_symmetric(colours: Map<(int, int), usize>, shape: (nat, nat))
    ensures
        is_symmetric(touching(colours, shape)),
{
    assert forall|a: usize, b: usize| #[trigger]
        touching(colours, shape)(a, b) implies touching(colours, shape)(b, a) by {
        let (p, q) = choose|p: (int, int), q: (int, int)|
            {
                &&& #[trigger] adjacent(p, q)
                &&& interior(shape, p) || interior(shape, q)
                &&& colours[p] == a
                &&& colours[q] == b
            };
        assert(adjacent(q, p));
    }
}

/// Merging puts no pixel under water and takes none out of it.
pub proof fn law_merge_keeps_water(
    before: Map<(int, int), usize>,
    after: Map<(int, int), usize>,
    shape: (nat, nat),
)
    requires
        merges(before, after, shape),
    ensures
        same_water(before, after),
{
    let r = touching(before, shape);
    assert forall|p: (int, int)| #[trigger] before.dom().contains(p) implies (before[p]
        == UNCOLOURED <==> after[p] == UNCOLOURED) by {
        assert(is_least_joined(r, before[p], after[p]));
        let dry = |x: usize| x == UNCOLOURED;
        let wet = |x: usize| x != UNCOLOURED;
        assert forall|x: usize, y: usize| dry(x) && #[trigger] r(x, y) implies dry(y) by {}
        assert forall|x: usize, y: usize| wet(x) && #[trigger] r(x, y) implies wet(y) by {}
        if before[p] == UNCOLOURED {
            lemma_joined_keeps(r, dry, before[p], after[p]);
        } else {
            lemma_joined_keeps(r, wet, before[p], after[p]);
        }
    }
}

/// Two pixels have one colour after merging exactly where lakes that touch link the
/// colours that they had.
pub proof fn law_merge_joins_linked_lakes(
    before: Map<(int, int), usize>,
    after: Map<(int, int), usize>,
    shape: (nat, nat),
    p: (int, int),
    q: (int, int),
)
    requires
        merges(before, after, shape),
        before.dom().contains(p),
        before.dom().contains(q),
    ensures
        after[p] == after[q] <==> joined(touching(before, shape), before[p], before[q]),
{
    lemma_touching_symmetric(before, shape);
    assert(is_least_joined(touching(before, shape), before[p], after[p]));
    assert(is_least_joined(touching(before, shape), before[q], after[q]));
    lemma_least_joined(touching(before, shape), before[p], before[q], after[p], after[q]);
}

/// After merging, no two lakes of different colours touch.
pub proof fn law_merged_lakes_do_not_touch(
    before: Map<(int, int), usize>,
    after: Map<(int, int), usize>,
    shape: (nat, nat),
    a: usize,
    b: usize,
)
    requires
        merges(before, after, shape),
        before.dom() == grid(shape),
        touches(after, shape, a, b),
    ensures
        a == b,
{
    let (p, q) = choose|p: (int, int), q: (int, int)|
        {
            &&& #[trigger] adjacent(p, q)
            &&& interior(shape, p) || interior(shape, q)
            &&& after[p] == a
            &&& after[q] == b
        };
    assert(on_grid(shape, p) && on_grid(shape, q));
    assert(before.dom().contains(p) && before.dom().contains(q));
    law_merge_keeps_water(before, after, shape);
    assert(touching(before, shape)(before[p], before[q]));
    lemma_joined_once(touching(before, shape), before[p], before[q]);
    law_merge_joins_linked_lakes(before, after, shape, p, q);
}

/// A lake that touches no lake of another colour keeps its colour when lakes are
/// merged, and no other lake takes it.
pub proof fn law_merge_keeps_lone_lakes(
    before: Map<(int, int), usize>,
    after: Map<(int, int), usize>,
    shape: (nat, nat),
    c: usize,
)
    requires
        merges(before, after, shape),
        forall|d: usize| #[trigger] touches(before, shape, c, d) ==> d == c,
    ensures
        lake(after, c) == lake(before, c),
{
    let r = touching(before, shape);
    lemma_touching_symmetric(before, shape);
    let inv = |x: usize| x == c;
    assert forall|x: usize, y: usize| inv(x) && #[trigger] r(x, y) implies inv(y) by {
        assert(touches(before, shape, c, y));
    }
    assert forall|p: (int, int)| before.dom().contains(p) implies (after[p] == c <==> before[p]
        == c) by {
        assert(is_least_joined(r, before[p], after[p]));
        if before[p] == c {
            lemma_joined_keeps(r, inv, before[p], after[p]);
        }
        if after[p] == c {
            lemma_joined_symmetric(r, before[p], after[p]);
            lemma_joined_keeps(r, inv, after[p], before[p]);
        }
    }
    assert(lake(after, c) =~= lake(before, c));
}

// Lakes.

/// The sum of a list.
pub open spec fn total(sizes: Seq<usize>) -> int
    decreases sizes.len(),
{
    if sizes.len() == 0 {
        0
    } else {
        total(sizes.drop_last()) + sizes.last()
    }
}

/// The pixels whose colours are below `n`.
spec fn below(colours: Map<(int, int), usize>, n: int) -> Set<(int, int)> {
    Set::new(|p: (int, int)| colours.dom().contains(p) && colours[p] < n)
}

/// The sizes of all lakes and the number of pixels without water add up to the number
/// of pixels.
pub proof fn law_lake_sizes_add_up(
    colours: Map<(int, int), usize>,
    shape: (nat, nat),
    sizes: Seq<usize>,
)
    requires
        colours.dom() == grid(shape),
        sizes.len() <= usize::MAX,
        forall|p: (int, int)| #[trigger] colours.dom().contains(p) ==> colours[p] < sizes.len(),
        counts_lakes(colours, sizes),
    ensures
        total(sizes) == shape.0 * shape.1,
{
    lemma_total(colours, shape, sizes, sizes.len() as int);
    assert(sizes.take(sizes.len() as int) =~= sizes);
    assert(below(colours, sizes.len() as int) =~= grid(shape));
    lemma_grid_size(shape);
}

proof fn lemma_total(
    colours: Map<(int, int), usize>,
    shape: (nat, nat),
    sizes: Seq<usize>,
    n: int,
)
    requires
        colours.dom() == grid(shape),
        sizes.len() <= usize::MAX,
        counts_lakes(colours, sizes),
        0 <= n <= sizes.len(),
    ensures
        total(sizes.take(n)) == below(colours, n).len(),
        below(colours, n).finite(),
    decreases n,
{
    if n == 0 {
        assert(below(colours, 0) =~= Set::empty());
    } else {
        lemma_total(colours, shape, sizes, n - 1);
        assert(sizes.take(n).drop_last() =~= sizes.take(n - 1));
        let c = (n - 1) as usize;
        assert(sizes[n - 1] == lake_size(colours, c));
        lemma_lake_finite(colours, shape, c);
        assert(below(colours, n) =~= below(colours, n - 1).union(lake(colours, c)));
        assert(below(colours, n - 1).disjoint(lake(colours, c)));
        lemma_set_disjoint_lens(below(colours, n - 1), lake(colours, c));
    }
}

// Levels.

/// No two local minima are next to each other.
pub proof fn law_minima_lie_apart(
    levels: Map<(int, int), u8>,
    shape: (nat, nat),
    minima: Seq<(usize, usize)>,
    j: int,
    k: int,
)
    requires
        lists_minima(levels, shape, minima),
        0 <= j < minima.len(),
        0 <= k < minima.len(),
    ensures
        !surrounds(pos(minima[j]), pos(minima[k])),
{
    let p = pos(minima[j]);
    let q = pos(minima[k]);
    assert(is_local_minimum(levels, shape, p) && is_local_minimum(levels, shape, q));
    if surrounds(p, q) {
        assert(surrounds(q, p));
    }
}

} // verus!
