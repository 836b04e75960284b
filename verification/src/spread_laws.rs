//! Laws of floods and mergers in plain words: who gets a pixel, and what becomes one lake.

use crate::flooding::{
    borders_water, coloured, colours_around, fillable, fills_once, floods, interior, is_flood_trace,
    is_uniform, takes_colour,
};
use crate::grid::{grid, on_grid};
use crate::laws::{law_flood_keeps_water, law_merge_keeps_water};
use crate::merging::{merges, touches, touching};
use crate::neighbours::adjacent;
use crate::plain::{
    chained, comes, if_wet, inside, is_chain, is_merged, is_pick, is_step, is_tied, is_walk,
    is_wet_after, next_to, on, spreads, wet_around,
};
use crate::relation::{
    is_least_joined, is_path, joined, lemma_joined_keeps, lemma_joined_self, lemma_joined_step,
};
use vstd::prelude::*;

verus! {

pub proof fn lemma_words(shape: (nat, nat), p: (int, int), q: (int, int))
    ensures
        on(shape, p) <==> on_grid(shape, p),
        inside(shape, p) <==> interior(shape, p),
        next_to(p, q) <==> adjacent(p, q),
        next_to(p, q) <==> next_to(q, p),
{
}

/// A walk goes on to a free pixel next to its end.
proof fn lemma_walk_on(
    levels: Map<(int, int), u8>,
    before: Map<(int, int), usize>,
    shape: (nat, nat),
    lvl: u8,
    c: usize,
    q: (int, int),
    p: (int, int),
    n: int,
)
    requires
        0 <= n,
        comes(levels, before, shape, lvl, c, q, n),
        next_to(q, p),
        inside(shape, p),
        levels[p] <= lvl,
        before[p] == 0,
    ensures
        comes(levels, before, shape, lvl, c, p, n + 1),
{
    reveal(comes);
    let walk = choose|walk: Seq<(int, int)>|
        {
            &&& #[trigger] is_walk(levels, before, shape, lvl, c, walk)
            &&& walk.len() == n + 1
            &&& walk[n] == q
        };
    let longer = walk.push(p);
    assert forall|i: int| 0 < i < longer.len() implies #[trigger] is_step(
        levels,
        before,
        shape,
        lvl,
        longer,
        i,
    ) by {
        if i < walk.len() {
            assert(is_step(levels, before, shape, lvl, walk, i));
            assert(longer[i] == walk[i] && longer[i - 1] == walk[i - 1]);
        } else {
            assert(longer[i] == p && longer[i - 1] == q);
        }
    }
    assert(longer[0] == walk[0]);
    assert(is_walk(levels, before, shape, lvl, c, longer));
}

/// What a walk of some steps comes over last.
proof fn lemma_walk_back(
    levels: Map<(int, int), u8>,
    before: Map<(int, int), usize>,
    shape: (nat, nat),
    lvl: u8,
    c: usize,
    p: (int, int),
    n: int,
) -> (q: (int, int))
    requires
        0 < n,
        comes(levels, before, shape, lvl, c, p, n),
    ensures
        comes(levels, before, shape, lvl, c, q, n - 1),
        next_to(q, p),
        inside(shape, p),
        levels[p] <= lvl,
        before[p] == 0,
        c != 0,
{
    reveal(comes);
    let walk = choose|walk: Seq<(int, int)>|
        {
            &&& #[trigger] is_walk(levels, before, shape, lvl, c, walk)
            &&& walk.len() == n + 1
            &&& walk[n] == p
        };
    let shorter = walk.take(n);
    assert forall|i: int| 0 < i < shorter.len() implies #[trigger] is_step(
        levels,
        before,
        shape,
        lvl,
        shorter,
        i,
    ) by {
        assert(is_step(levels, before, shape, lvl, walk, i));
        assert(shorter[i] == walk[i] && shorter[i - 1] == walk[i - 1]);
    }
    assert(is_walk(levels, before, shape, lvl, c, shorter));
    let q = walk[n - 1];
    assert(shorter[n - 1] == q);
    assert(is_step(levels, before, shape, lvl, walk, n));
    q
}

/// A walk of no steps.
proof fn lemma_no_walk(
    levels: Map<(int, int), u8>,
    before: Map<(int, int), usize>,
    shape: (nat, nat),
    lvl: u8,
    c: usize,
    p: (int, int),
)
    requires
        on(shape, p),
    ensures
        comes(levels, before, shape, lvl, c, p, 0) <==> c != 0 && before[p] == c,
{
    reveal(comes);
    if c != 0 && before[p] == c {
        let walk = seq![p];
        assert(is_walk(levels, before, shape, lvl, c, walk));
        assert(walk[0] == p);
    }
}

/// The canvas after `i` rounds: water is where it can get to in as many steps, and has a
/// colour that can get there in as many.
#[verifier::opaque]
spec fn is_round(
    levels: Map<(int, int), u8>,
    before: Map<(int, int), usize>,
    shape: (nat, nat),
    lvl: u8,
    i: int,
    canvas: Map<(int, int), usize>,
) -> bool {
    &&& canvas.dom() == grid(shape)
    &&& forall|p: (int, int)| #[trigger]
        on(shape, p) && before[p] != 0 ==> canvas[p] == before[p]
    &&& forall|p: (int, int)| #[trigger]
        on(shape, p) ==> (canvas[p] != 0 <==> is_wet_after(levels, before, shape, lvl, p, i))
    &&& forall|p: (int, int)| #[trigger]
        on(shape, p) && canvas[p] != 0 ==> exists|k: int|
            0 <= k <= i && #[trigger] comes(levels, before, shape, lvl, canvas[p], p, k)
}

/// What holds of one pixel after `i` rounds.
proof fn lemma_round_at(
    levels: Map<(int, int), u8>,
    before: Map<(int, int), usize>,
    shape: (nat, nat),
    lvl: u8,
    i: int,
    canvas: Map<(int, int), usize>,
    p: (int, int),
)
    requires
        is_round(levels, before, shape, lvl, i, canvas),
        on(shape, p),
    ensures
        canvas.dom().contains(p),
        before[p] != 0 ==> canvas[p] == before[p],
        canvas[p] != 0 <==> is_wet_after(levels, before, shape, lvl, p, i),
        canvas[p] != 0 ==> exists|k: int|
            0 <= k <= i && #[trigger] comes(levels, before, shape, lvl, canvas[p], p, k),
{
    reveal(is_round);
}

proof fn lemma_next_round_at(
    levels: Map<(int, int), u8>,
    before: Map<(int, int), usize>,
    shape: (nat, nat),
    lvl: u8,
    i: int,
    c: Map<(int, int), usize>,
    d: Map<(int, int), usize>,
    p: (int, int),
)
    requires
        0 <= i,
        is_round(levels, before, shape, lvl, i, c),
        fills_once(levels, c, d, shape, lvl),
        on(shape, p),
    ensures
        before[p] != 0 ==> d[p] == before[p],
        d[p] != 0 <==> is_wet_after(levels, before, shape, lvl, p, i + 1),
        d[p] != 0 ==> exists|k: int|
            0 <= k <= i + 1 && #[trigger] comes(levels, before, shape, lvl, d[p], p, k),
{
    lemma_round_at(levels, before, shape, lvl, i, c, p);
    if fillable(levels, c, shape, lvl, p) {
        assert(takes_colour(c, p, d[p]));
        let q = choose|q: (int, int)| #[trigger] adjacent(p, q) && c[q] == d[p];
        lemma_words(shape, p, q);
        assert(on(shape, q) && c[q] != 0);
        lemma_round_at(levels, before, shape, lvl, i, c, q);
        let k = choose|k: int|
            0 <= k <= i && #[trigger] comes(levels, before, shape, lvl, c[q], q, k);
        lemma_walk_on(levels, before, shape, lvl, d[p], q, p, k);
        assert(comes(levels, before, shape, lvl, d[p], p, k + 1));
    } else {
        assert(d[p] == c[p]);
        if c[p] != 0 {
            let k = choose|k: int|
                0 <= k <= i && #[trigger] comes(levels, before, shape, lvl, c[p], p, k);
            assert(comes(levels, before, shape, lvl, d[p], p, k));
        } else if is_wet_after(levels, before, shape, lvl, p, i + 1) {
            let (colour, k) = choose|colour: usize, k: int|
                0 <= k <= i + 1 && #[trigger] comes(levels, before, shape, lvl, colour, p, k);
            if k <= i {
                assert(is_wet_after(levels, before, shape, lvl, p, i));
            } else {
                let q = lemma_walk_back(levels, before, shape, lvl, colour, p, k);
                lemma_words(shape, p, q);
                assert(on(shape, q));
                lemma_round_at(levels, before, shape, lvl, i, c, q);
                assert(comes(levels, before, shape, lvl, colour, q, i));
                assert(is_wet_after(levels, before, shape, lvl, q, i));
                assert(adjacent(p, q) && c[q] != 0);
                assert(borders_water(c, p));
                assert(fillable(levels, c, shape, lvl, p));
            }
        }
    }
}

proof fn lemma_next_round(
    levels: Map<(int, int), u8>,
    before: Map<(int, int), usize>,
    shape: (nat, nat),
    lvl: u8,
    i: int,
    c: Map<(int, int), usize>,
    d: Map<(int, int), usize>,
)
    requires
        0 <= i,
        is_round(levels, before, shape, lvl, i, c),
        fills_once(levels, c, d, shape, lvl),
    ensures
        is_round(levels, before, shape, lvl, i + 1, d),
{
    assert(c.dom() == grid(shape)) by {
        reveal(is_round);
    }
    assert forall|p: (int, int)| #[trigger] on(shape, p) implies {
        &&& before[p] != 0 ==> d[p] == before[p]
        &&& (d[p] != 0 <==> is_wet_after(levels, before, shape, lvl, p, i + 1))
        &&& (d[p] != 0 ==> exists|k: int|
            0 <= k <= i + 1 && #[trigger] comes(levels, before, shape, lvl, d[p], p, k))
    } by {
        lemma_next_round_at(levels, before, shape, lvl, i, c, d, p);
    }
    reveal(is_round);
}

proof fn lemma_first_round(
    levels: Map<(int, int), u8>,
    before: Map<(int, int), usize>,
    shape: (nat, nat),
    lvl: u8,
)
    requires
        before.dom() == grid(shape),
    ensures
        is_round(levels, before, shape, lvl, 0, before),
{
    assert forall|p: (int, int)| #[trigger] on(shape, p) implies {
        &&& (before[p] != 0 <==> is_wet_after(levels, before, shape, lvl, p, 0))
        &&& (before[p] != 0 ==> exists|k: int|
            0 <= k <= 0 && #[trigger] comes(levels, before, shape, lvl, before[p], p, k))
    } by {
        lemma_no_walk(levels, before, shape, lvl, before[p], p);
        if is_wet_after(levels, before, shape, lvl, p, 0) {
            let (c, k) = choose|c: usize, k: int|
                0 <= k <= 0 && #[trigger] comes(levels, before, shape, lvl, c, p, k);
            lemma_no_walk(levels, before, shape, lvl, c, p);
        }
    }
    reveal(is_round);
}

proof fn lemma_rounds(
    levels: Map<(int, int), u8>,
    before: Map<(int, int), usize>,
    after: Map<(int, int), usize>,
    shape: (nat, nat),
    lvl: u8,
    trace: Seq<Map<(int, int), usize>>,
    i: int,
)
    requires
        before.dom() == grid(shape),
        is_flood_trace(levels, before, after, shape, lvl, trace),
        0 <= i < trace.len(),
    ensures
        is_round(levels, before, shape, lvl, i, trace[i]),
    decreases i,
{
    if i == 0 {
        lemma_first_round(levels, before, shape, lvl);
    } else {
        lemma_rounds(levels, before, after, shape, lvl, trace, i - 1);
        assert(fills_once(levels, trace[i - 1], trace[i - 1 + 1], shape, lvl));
        lemma_next_round(levels, before, shape, lvl, i - 1, trace[i - 1], trace[i]);
    }
}

/// Water that is there after some round keeps its colour to the end.
proof fn lemma_rounds_keep(
    levels: Map<(int, int), u8>,
    before: Map<(int, int), usize>,
    after: Map<(int, int), usize>,
    shape: (nat, nat),
    lvl: u8,
    trace: Seq<Map<(int, int), usize>>,
    i: int,
    p: (int, int),
)
    requires
        before.dom() == grid(shape),
        is_flood_trace(levels, before, after, shape, lvl, trace),
        0 <= i < trace.len(),
        on(shape, p),
        trace[i][p] != 0,
    ensures
        after[p] == trace[i][p],
    decreases trace.len() - i,
{
    if i + 1 < trace.len() {
        lemma_rounds(levels, before, after, shape, lvl, trace, i);
        lemma_round_at(levels, before, shape, lvl, i, trace[i], p);
        assert(fills_once(levels, trace[i], trace[i + 1], shape, lvl));
        assert(trace[i + 1][p] == trace[i][p]);
        lemma_rounds_keep(levels, before, after, shape, lvl, trace, i + 1, p);
    }
}

/// Where a walk leads, there is water after the flood.
proof fn lemma_walks_end_in_water(
    levels: Map<(int, int), u8>,
    before: Map<(int, int), usize>,
    after: Map<(int, int), usize>,
    shape: (nat, nat),
    lvl: u8,
    c: usize,
    p: (int, int),
    n: int,
)
    requires
        before.dom() == grid(shape),
        floods(levels, before, after, shape, lvl),
        on(shape, p),
        0 <= n,
        comes(levels, before, shape, lvl, c, p, n),
    ensures
        after[p] != 0,
    decreases n,
{
    law_flood_keeps_water(levels, before, after, shape, lvl);
    assert(before.dom().contains(p));
    if n == 0 {
        lemma_no_walk(levels, before, shape, lvl, c, p);
        assert(after[p] == before[p]);
    } else {
        let q = lemma_walk_back(levels, before, shape, lvl, c, p, n);
        lemma_words(shape, p, q);
        assert(on(shape, q));
        lemma_walks_end_in_water(levels, before, after, shape, lvl, c, q, n - 1);
        if after[p] == 0 {
            assert(adjacent(p, q));
            assert(borders_water(after, p));
            assert(fillable(levels, after, shape, lvl, p));
        }
    }
}

/// Four colours without the zeros.
pub proof fn lemma_four(a: usize, b: usize, c: usize, d: usize)
    ensures
        coloured(seq![a, b, c, d]) == if_wet(a != 0, a) + if_wet(b != 0, b) + if_wet(c != 0, c)
            + if_wet(d != 0, d),
{
    reveal(Seq::filter);
    let keep = |x: usize| x != crate::lakes::UNCOLOURED;
    let s4 = seq![a, b, c, d];
    let s3 = seq![a, b, c];
    let s2 = seq![a, b];
    let s1 = seq![a];
    let s0: Seq<usize> = seq![];
    assert(s4.drop_last() =~= s3);
    assert(s3.drop_last() =~= s2);
    assert(s2.drop_last() =~= s1);
    assert(s1.drop_last() =~= s0);
    assert(s0.filter(keep) =~= s0);
    assert(s1.filter(keep) =~= if_wet(a != 0, a));
    assert(s2.filter(keep) =~= if_wet(a != 0, a) + if_wet(b != 0, b));
    assert(s3.filter(keep) =~= if_wet(a != 0, a) + if_wet(b != 0, b) + if_wet(c != 0, c));
    assert(s4.filter(keep) =~= if_wet(a != 0, a) + if_wet(b != 0, b) + if_wet(c != 0, c) + if_wet(
        d != 0,
        d,
    ));
}

/// After `i` rounds water is where it can get to in as many steps, in its colour.
proof fn lemma_sooner(
    levels: Map<(int, int), u8>,
    before: Map<(int, int), usize>,
    after: Map<(int, int), usize>,
    shape: (nat, nat),
    lvl: u8,
    trace: Seq<Map<(int, int), usize>>,
    i: int,
    q: (int, int),
)
    requires
        before.dom() == grid(shape),
        is_flood_trace(levels, before, after, shape, lvl, trace),
        0 <= i < trace.len(),
        on(shape, q),
    ensures
        trace[i][q] != 0 <==> is_wet_after(levels, before, shape, lvl, q, i),
        trace[i][q] != 0 ==> after[q] == trace[i][q],
{
    lemma_rounds(levels, before, after, shape, lvl, trace, i);
    lemma_round_at(levels, before, shape, lvl, i, trace[i], q);
    if trace[i][q] != 0 {
        lemma_rounds_keep(levels, before, after, shape, lvl, trace, i, q);
    }
}

/// A pixel that water gets to takes its colour from those next to it that water gets to
/// sooner: the one colour that they have, or the one that a draw points at.
pub proof fn law_draws_decide(
    levels: Map<(int, int), u8>,
    before: Map<(int, int), usize>,
    after: Map<(int, int), usize>,
    shape: (nat, nat),
    lvl: u8,
    c: usize,
    p: (int, int),
    n: int,
)
    requires
        before.dom() == grid(shape),
        floods(levels, before, after, shape, lvl),
        on(shape, p),
        before[p] == 0,
        0 <= n,
        comes(levels, before, shape, lvl, c, p, n),
        !is_wet_after(levels, before, shape, lvl, p, n - 1),
    ensures
        is_pick(wet_around(levels, before, after, shape, lvl, p, n - 1), after[p]),
{
    let trace = choose|trace: Seq<Map<(int, int), usize>>|
        is_flood_trace(levels, before, after, shape, lvl, trace);
    lemma_no_walk(levels, before, shape, lvl, c, p);
    assert(n > 0);
    lemma_walks_end_in_water(levels, before, after, shape, lvl, c, p, n);
    let end = trace.len() - 1;
    lemma_rounds(levels, before, after, shape, lvl, trace, end);
    lemma_round_at(levels, before, shape, lvl, end, trace[end], p);
    if end < n {
        let (e, k) = choose|e: usize, k: int|
            0 <= k <= end && #[trigger] comes(levels, before, shape, lvl, e, p, k);
        assert(is_wet_after(levels, before, shape, lvl, p, n - 1));
    }
    let last = trace[n - 1];
    let next = trace[n - 1 + 1];
    lemma_rounds(levels, before, after, shape, lvl, trace, n - 1);
    lemma_rounds(levels, before, after, shape, lvl, trace, n);
    lemma_round_at(levels, before, shape, lvl, n - 1, last, p);
    lemma_round_at(levels, before, shape, lvl, n, next, p);
    assert(is_wet_after(levels, before, shape, lvl, p, n));
    assert(last[p] == 0 && next[p] != 0);
    lemma_rounds_keep(levels, before, after, shape, lvl, trace, n, p);
    assert(fills_once(levels, last, next, shape, lvl));
    assert(fillable(levels, last, shape, lvl, p));
    assert(takes_colour(last, p, after[p]));
    let below = (p.0 + 1, p.1);
    let right = (p.0, p.1 + 1);
    let left = (p.0, p.1 - 1);
    let above = (p.0 - 1, p.1);
    assert(on(shape, below) && on(shape, right) && on(shape, left) && on(shape, above));
    lemma_sooner(levels, before, after, shape, lvl, trace, n - 1, below);
    lemma_sooner(levels, before, after, shape, lvl, trace, n - 1, right);
    lemma_sooner(levels, before, after, shape, lvl, trace, n - 1, left);
    lemma_sooner(levels, before, after, shape, lvl, trace, n - 1, above);
    lemma_four(last[below], last[right], last[left], last[above]);
    let list = wet_around(levels, before, after, shape, lvl, p, n - 1);
    assert(coloured(colours_around(last, p)) == list);
    if is_uniform(list) {
        assert forall|i: int| 0 <= i < list.len() implies #[trigger] list[i] == after[p] by {}
    }
}

/// A pixel that a flood puts under water goes to a nearest lake: wherever water of some
/// colour can get to it in a number of steps, water of the colour that it takes can get to
/// it in no more.
pub proof fn law_nearest_lake(
    levels: Map<(int, int), u8>,
    before: Map<(int, int), usize>,
    after: Map<(int, int), usize>,
    shape: (nat, nat),
    lvl: u8,
    c: usize,
    p: (int, int),
    n: int,
)
    requires
        before.dom() == grid(shape),
        floods(levels, before, after, shape, lvl),
        on(shape, p),
        0 <= n,
        comes(levels, before, shape, lvl, c, p, n),
    ensures
        after[p] != 0,
        exists|k: int| 0 <= k <= n && #[trigger] comes(levels, before, shape, lvl, after[p], p, k),
{
    let trace = choose|trace: Seq<Map<(int, int), usize>>|
        is_flood_trace(levels, before, after, shape, lvl, trace);
    let end = trace.len() - 1;
    lemma_walks_end_in_water(levels, before, after, shape, lvl, c, p, n);
    let i = if n < end {
        n
    } else {
        end
    };
    lemma_rounds(levels, before, after, shape, lvl, trace, i);
    lemma_round_at(levels, before, shape, lvl, i, trace[i], p);
    if n < end {
        assert(is_wet_after(levels, before, shape, lvl, p, n));
    }
    assert(trace[i][p] != 0);
    lemma_rounds_keep(levels, before, after, shape, lvl, trace, i, p);
    let k = choose|k: int|
        0 <= k <= i && #[trigger] comes(levels, before, shape, lvl, trace[i][p], p, k);
    assert(comes(levels, before, shape, lvl, after[p], p, k));
}

/// A flood leaves water as it is, fills exactly the pixels that walks lead to, and gives
/// each of them to a nearest lake, by a draw where the pixels that it comes from differ.
pub proof fn law_flood_spreads(
    levels: Map<(int, int), u8>,
    before: Map<(int, int), usize>,
    after: Map<(int, int), usize>,
    shape: (nat, nat),
    lvl: u8,
)
    requires
        before.dom() == grid(shape),
        floods(levels, before, after, shape, lvl),
    ensures
        spreads(levels, before, after, shape, lvl),
{
    law_flood_keeps_water(levels, before, after, shape, lvl);
    assert forall|p: (int, int)| #[trigger] on(shape, p) && before[p] != 0 implies after[p]
        == before[p] by {
        assert(before.dom().contains(p));
    }
    assert forall|p: (int, int)| #[trigger] on(shape, p) implies (after[p] != 0 <==> exists|
        c: usize,
        n: int,
    |
        0 <= n && #[trigger] comes(levels, before, shape, lvl, c, p, n)) by {
        if after[p] != 0 {
            let trace = choose|trace: Seq<Map<(int, int), usize>>|
                is_flood_trace(levels, before, after, shape, lvl, trace);
            let end = trace.len() - 1;
            lemma_rounds(levels, before, after, shape, lvl, trace, end);
            lemma_round_at(levels, before, shape, lvl, end, trace[end], p);
            let k = choose|k: int|
                0 <= k <= end && #[trigger] comes(levels, before, shape, lvl, after[p], p, k);
            assert(comes(levels, before, shape, lvl, after[p], p, k));
        }
        if exists|c: usize, n: int|
            0 <= n && #[trigger] comes(levels, before, shape, lvl, c, p, n) {
            let (c, n) = choose|c: usize, n: int|
                0 <= n && #[trigger] comes(levels, before, shape, lvl, c, p, n);
            lemma_walks_end_in_water(levels, before, after, shape, lvl, c, p, n);
        }
    }
    assert forall|p: (int, int), c: usize, n: int|
        on(shape, p) && 0 <= n && #[trigger] comes(
            levels,
            before,
            shape,
            lvl,
            c,
            p,
            n,
        ) implies exists|k: int|
        0 <= k <= n && #[trigger] comes(levels, before, shape, lvl, after[p], p, k) by {
        law_nearest_lake(levels, before, after, shape, lvl, c, p, n);
    }
    assert forall|p: (int, int), c: usize, n: int|
        on(shape, p) && before[p] == 0 && 0 <= n && #[trigger] comes(
            levels,
            before,
            shape,
            lvl,
            c,
            p,
            n,
        ) && !is_wet_after(levels, before, shape, lvl, p, n - 1) implies is_pick(
        wet_around(levels, before, after, shape, lvl, p, n - 1),
        after[p],
    ) by {
        law_draws_decide(levels, before, after, shape, lvl, c, p, n);
    }
}

// Mergers.

spec fn ties(
    canvas: Map<(int, int), usize>,
    shape: (nat, nat),
) -> spec_fn((int, int), (int, int)) -> bool {
    |x: (int, int), y: (int, int)| is_tied(canvas, shape, x, y)
}

proof fn lemma_chained(
    canvas: Map<(int, int), usize>,
    shape: (nat, nat),
    p: (int, int),
    q: (int, int),
)
    ensures
        chained(canvas, shape, p, q) <==> joined(ties(canvas, shape), p, q),
{
    let r = ties(canvas, shape);
    if chained(canvas, shape, p, q) {
        let chain = choose|chain: Seq<(int, int)>| is_chain(canvas, shape, chain, p, q);
        assert forall|i: int| 0 <= i < chain.len() - 1 implies r(
            #[trigger] chain[i],
            chain[i + 1],
        ) by {
            assert(is_tied(canvas, shape, chain[i + 1 - 1], chain[i + 1]));
        }
        assert(is_path(r, chain, p, q));
    }
    if joined(r, p, q) {
        let chain = choose|chain: Seq<(int, int)>| is_path(r, chain, p, q);
        assert forall|i: int|
            #![trigger chain[i]]
            0 < i < chain.len() implies is_tied(canvas, shape, chain[i - 1], chain[i]) by {
            assert(r(chain[i - 1], chain[i - 1 + 1]));
        }
        assert(is_chain(canvas, shape, chain, p, q));
    }
}

/// Merging leaves pixels without water as they are, and gives each other pixel the least
/// of the colours that chains of pixels lead to, of one colour or next to each other.
pub proof fn law_merge_takes_the_least(
    before: Map<(int, int), usize>,
    after: Map<(int, int), usize>,
    shape: (nat, nat),
)
    requires
        before.dom() == grid(shape),
        merges(before, after, shape),
    ensures
        is_merged(before, after, shape),
{
    let t = touching(before, shape);
    let r = ties(before, shape);
    law_merge_keeps_water(before, after, shape);
    assert forall|p: (int, int)| #[trigger] on(shape, p) && before[p] == 0 implies after[p]
        == 0 by {
        assert(before.dom().contains(p));
    }
    assert forall|p: (int, int)| #[trigger] on(shape, p) && before[p] != 0 implies exists|
        q: (int, int),
    |
        on(shape, q) && #[trigger] chained(before, shape, p, q) && before[q] == after[p] by {
        assert(before.dom().contains(p));
        assert(is_least_joined(t, before[p], after[p]));
        let inv = |x: usize|
            x != 0 && exists|q: (int, int)|
                on(shape, q) && #[trigger] chained(before, shape, p, q) && before[q] == x;
        assert(inv(before[p])) by {
            lemma_joined_self(r, p);
            lemma_chained(before, shape, p, p);
        }
        assert forall|x: usize, y: usize| inv(x) && #[trigger] t(x, y) implies inv(y) by {
            let q = choose|q: (int, int)|
                on(shape, q) && #[trigger] chained(before, shape, p, q) && before[q] == x;
            let (a, b) = choose|a: (int, int), b: (int, int)|
                {
                    &&& #[trigger] adjacent(a, b)
                    &&& interior(shape, a) || interior(shape, b)
                    &&& before[a] == x
                    &&& before[b] == y
                };
            lemma_words(shape, a, b);
            lemma_words(shape, b, a);
            assert(on(shape, a) && on(shape, b));
            lemma_chained(before, shape, p, q);
            assert(r(q, a));
            lemma_joined_step(r, p, q, a);
            assert(r(a, b));
            lemma_joined_step(r, p, a, b);
            lemma_chained(before, shape, p, b);
        }
        lemma_joined_keeps(t, inv, before[p], after[p]);
    }
    assert forall|p: (int, int), q: (int, int)|
        on(shape, p) && before[p] != 0 && on(shape, q) && #[trigger] chained(
            before,
            shape,
            p,
            q,
        ) implies after[p] <= before[q] by {
        assert(before.dom().contains(p));
        assert(is_least_joined(t, before[p], after[p]));
        lemma_chained(before, shape, p, q);
        let inv = |x: (int, int)| joined(t, before[p], before[x]);
        lemma_joined_self(t, before[p]);
        assert forall|x: (int, int), y: (int, int)| inv(x) && #[trigger] r(x, y) implies inv(y) by {
            lemma_words(shape, x, y);
            lemma_words(shape, y, x);
            if before[x] != before[y] {
                assert(adjacent(x, y));
                assert(touches(before, shape, before[x], before[y]));
                assert(t(before[x], before[y]));
                lemma_joined_step(t, before[p], before[x], before[y]);
            }
        }
        lemma_joined_keeps(r, inv, p, q);
    }
}

} // verus!
