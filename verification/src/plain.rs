//! The words that the laws of outcomes are stated in: pixels, walks over them and sets of
//! them, spelled out in numbers.
//!
//! No function of the library is written or specified in these words, so the laws hold
//! what the functions do against something that stands by itself.

use crate::random::drawn;
use vstd::prelude::*;

verus! {

/// The pair is the place of a pixel.
pub open spec fn on(shape: (nat, nat), p: (int, int)) -> bool {
    0 <= p.0 && p.0 < shape.0 && 0 <= p.1 && p.1 < shape.1
}

/// The pixel has a pixel on each side.
pub open spec fn inside(shape: (nat, nat), p: (int, int)) -> bool {
    0 < p.0 && p.0 < shape.0 - 1 && 0 < p.1 && p.1 < shape.1 - 1
}

/// The distance between two numbers.
pub open spec fn gap(a: int, b: int) -> int {
    if a < b {
        b - a
    } else {
        a - b
    }
}

/// One step up, down, left or right leads from one to the other.
pub open spec fn next_to(p: (int, int), q: (int, int)) -> bool {
    gap(p.0, q.0) + gap(p.1, q.1) == 1
}

/// The pixels of one colour.
pub open spec fn pixels_of(
    canvas: Map<(int, int), usize>,
    shape: (nat, nat),
    c: int,
) -> Set<(int, int)> {
    Set::new(|p: (int, int)| on(shape, p) && canvas[p] == c)
}

// Floods.

/// Step `i` of a walk leads to a pixel next to the last that has a pixel on each side, no
/// colour, and a level of at most `lvl`.
pub open spec fn is_step(
    levels: Map<(int, int), u8>,
    before: Map<(int, int), usize>,
    shape: (nat, nat),
    lvl: u8,
    walk: Seq<(int, int)>,
    i: int,
) -> bool {
    &&& next_to(walk[i - 1], walk[i])
    &&& inside(shape, walk[i])
    &&& levels[walk[i]] <= lvl
    &&& before[walk[i]] == 0
}

/// A walk starts on a pixel that has the colour `c`, and goes step by step over pixels
/// that have a pixel on each side, no colour, and a level of at most `lvl`.
pub open spec fn is_walk(
    levels: Map<(int, int), u8>,
    before: Map<(int, int), usize>,
    shape: (nat, nat),
    lvl: u8,
    c: usize,
    walk: Seq<(int, int)>,
) -> bool {
    &&& walk.len() > 0
    &&& on(shape, walk[0])
    &&& before[walk[0]] == c
    &&& forall|i: int|
        0 < i < walk.len() ==> #[trigger] is_step(levels, before, shape, lvl, walk, i)
}

/// Water of the colour `c` can get to `p` in `n` steps.
#[verifier::opaque]
pub open spec fn comes(
    levels: Map<(int, int), u8>,
    before: Map<(int, int), usize>,
    shape: (nat, nat),
    lvl: u8,
    c: usize,
    p: (int, int),
    n: int,
) -> bool {
    c != 0 && exists|walk: Seq<(int, int)>|
        {
            &&& #[trigger] is_walk(levels, before, shape, lvl, c, walk)
            &&& walk.len() == n + 1
            &&& walk[n] == p
        }
}

/// Water of some colour can get to `p` in at most `n` steps.
pub open spec fn is_wet_after(
    levels: Map<(int, int), u8>,
    before: Map<(int, int), usize>,
    shape: (nat, nat),
    lvl: u8,
    p: (int, int),
    n: int,
) -> bool {
    exists|c: usize, k: int|
        0 <= k <= n && #[trigger] comes(levels, before, shape, lvl, c, p, k)
}

/// A list of one colour, or of none.
pub open spec fn if_wet(wet: bool, c: usize) -> Seq<usize> {
    if wet {
        seq![c]
    } else {
        seq![]
    }
}

/// The colours of the pixels below, right of, left of and above `p` that water can get to
/// in at most `n` steps.
pub open spec fn wet_around(
    levels: Map<(int, int), u8>,
    before: Map<(int, int), usize>,
    after: Map<(int, int), usize>,
    shape: (nat, nat),
    lvl: u8,
    p: (int, int),
    n: int,
) -> Seq<usize> {
    let below = (p.0 + 1, p.1);
    let right = (p.0, p.1 + 1);
    let left = (p.0, p.1 - 1);
    let above = (p.0 - 1, p.1);
    if_wet(is_wet_after(levels, before, shape, lvl, below, n), after[below]) + if_wet(
        is_wet_after(levels, before, shape, lvl, right, n),
        after[right],
    ) + if_wet(is_wet_after(levels, before, shape, lvl, left, n), after[left]) + if_wet(
        is_wet_after(levels, before, shape, lvl, above, n),
        after[above],
    )
}

/// A colour from a list: the one that all of them are, or else the one at the place that
/// the generator drew.
pub open spec fn is_pick(list: Seq<usize>, c: usize) -> bool {
    ||| list.len() > 0 && forall|i: int| 0 <= i < list.len() ==> #[trigger] list[i] == c
    ||| exists|d: usize|
        {
            &&& #[trigger] drawn(list.len() as usize, d)
            &&& d < list.len()
            &&& list[d as int] == c
        }
}

/// Where water was, it stays. Else a pixel is under water exactly where some walk leads to
/// it. Its colour is then that of a lake from which no walk is longer than the shortest;
/// it is picked from the pixels next to it that water can get to sooner.
pub open spec fn spreads(
    levels: Map<(int, int), u8>,
    before: Map<(int, int), usize>,
    after: Map<(int, int), usize>,
    shape: (nat, nat),
    lvl: u8,
) -> bool {
    &&& after.dom() == before.dom()
    &&& forall|p: (int, int)| #[trigger]
        on(shape, p) && before[p] != 0 ==> after[p] == before[p]
    &&& forall|p: (int, int)| #[trigger]
        on(shape, p) ==> (after[p] != 0 <==> exists|c: usize, n: int|
            0 <= n && #[trigger] comes(levels, before, shape, lvl, c, p, n))
    &&& forall|p: (int, int), c: usize, n: int|
        on(shape, p) && 0 <= n && #[trigger] comes(levels, before, shape, lvl, c, p, n)
            ==> exists|k: int|
            0 <= k <= n && #[trigger] comes(levels, before, shape, lvl, after[p], p, k)
    &&& forall|p: (int, int), c: usize, n: int|
        on(shape, p) && before[p] == 0 && 0 <= n && #[trigger] comes(
            levels,
            before,
            shape,
            lvl,
            c,
            p,
            n,
        ) && !is_wet_after(levels, before, shape, lvl, p, n - 1) ==> is_pick(
            wet_around(levels, before, after, shape, lvl, p, n - 1),
            after[p],
        )
}

// Mergers.

/// The pixels are both under water, and have one colour or are next to each other, not
/// both of them at the rim.
pub open spec fn is_tied(
    canvas: Map<(int, int), usize>,
    shape: (nat, nat),
    p: (int, int),
    q: (int, int),
) -> bool {
    &&& on(shape, p) && canvas[p] != 0
    &&& on(shape, q) && canvas[q] != 0
    &&& canvas[p] == canvas[q] || (next_to(p, q) && (inside(shape, p) || inside(shape, q)))
}

/// A chain of pixels, each tied to the next.
pub open spec fn is_chain(
    canvas: Map<(int, int), usize>,
    shape: (nat, nat),
    chain: Seq<(int, int)>,
    p: (int, int),
    q: (int, int),
) -> bool {
    &&& chain.len() > 0
    &&& chain[0] == p
    &&& chain[chain.len() - 1] == q
    &&& forall|i: int|
        0 < i < chain.len() ==> is_tied(canvas, shape, chain[i - 1], #[trigger] chain[i])
}

/// Some chain leads from `p` to `q`.
pub open spec fn chained(
    canvas: Map<(int, int), usize>,
    shape: (nat, nat),
    p: (int, int),
    q: (int, int),
) -> bool {
    exists|chain: Seq<(int, int)>| is_chain(canvas, shape, chain, p, q)
}

/// Pixels without water stay without. Each other takes the least colour of those that
/// chains lead to.
pub open spec fn is_merged(
    before: Map<(int, int), usize>,
    after: Map<(int, int), usize>,
    shape: (nat, nat),
) -> bool {
    &&& after.dom() == before.dom()
    &&& forall|p: (int, int)| #[trigger] on(shape, p) && before[p] == 0 ==> after[p] == 0
    &&& forall|p: (int, int)| #[trigger]
        on(shape, p) && before[p] != 0 ==> exists|q: (int, int)|
            on(shape, q) && #[trigger] chained(before, shape, p, q) && before[q] == after[p]
    &&& forall|p: (int, int), q: (int, int)|
        on(shape, p) && before[p] != 0 && on(shape, q) && #[trigger] chained(
            before,
            shape,
            p,
            q,
        ) ==> after[p] <= before[q]
}

// Seeds.

/// Each of the numbers from one to `n` is in the list once, and nothing else is.
pub open spec fn is_numbering(colours: Seq<usize>, n: nat) -> bool {
    &&& colours.len() == n
    &&& forall|i: int| 0 <= i < n ==> 1 <= #[trigger] colours[i] && colours[i] <= n
    &&& forall|i: int, j: int| 0 <= i < j < n ==> colours[i] != colours[j]
}

/// A pixel has the colour of the last of the seeds that are there, or none.
pub open spec fn has_seeds(
    canvas: Map<(int, int), usize>,
    shape: (nat, nat),
    seeds: Seq<(usize, usize)>,
    colours: Seq<usize>,
) -> bool {
    forall|p: (int, int)| #[trigger]
        on(shape, p) ==> {
            ||| canvas[p] == 0 && forall|i: int|
                0 <= i < seeds.len() ==> (#[trigger] seeds[i]).0 != p.0 || seeds[i].1 != p.1
            ||| exists|i: int|
                {
                    &&& 0 <= i < seeds.len()
                    &&& (#[trigger] seeds[i]).0 == p.0 && seeds[i].1 == p.1
                    &&& canvas[p] == colours[i]
                    &&& forall|j: int|
                        i < j < seeds.len() ==> (#[trigger] seeds[j]).0 != p.0 || seeds[j].1
                            != p.1
                }
        }
}

/// Step `i` of a walk leads to a pixel next to the last that has a pixel on each side and
/// a level of at most `lvl`.
pub open spec fn is_low_step(
    levels: Map<(int, int), u8>,
    shape: (nat, nat),
    lvl: u8,
    walk: Seq<(int, int)>,
    i: int,
) -> bool {
    next_to(walk[i - 1], walk[i]) && inside(shape, walk[i]) && levels[walk[i]] <= lvl
}

/// A walk from a seed, step by step over pixels that have a pixel on each side and a level
/// of at most `lvl`.
pub open spec fn is_seed_walk(
    levels: Map<(int, int), u8>,
    shape: (nat, nat),
    seeds: Seq<(usize, usize)>,
    lvl: u8,
    walk: Seq<(int, int)>,
    p: (int, int),
) -> bool {
    &&& walk.len() > 0
    &&& exists|k: int|
        0 <= k < seeds.len() && (#[trigger] seeds[k]).0 == walk[0].0 && seeds[k].1 == walk[0].1
    &&& walk[walk.len() - 1] == p
    &&& forall|i: int|
        0 < i < walk.len() ==> #[trigger] is_low_step(levels, shape, lvl, walk, i)
}

/// Water that rises from the seeds to the level gets to `p`.
pub open spec fn is_reached_from_seeds(
    levels: Map<(int, int), u8>,
    shape: (nat, nat),
    seeds: Seq<(usize, usize)>,
    lvl: u8,
    p: (int, int),
) -> bool {
    exists|walk: Seq<(int, int)>| is_seed_walk(levels, shape, seeds, lvl, walk, p)
}

/// Water gets to both pixels; they are next to each other, and not both at the rim.
pub open spec fn is_stroke(
    levels: Map<(int, int), u8>,
    shape: (nat, nat),
    seeds: Seq<(usize, usize)>,
    lvl: u8,
    p: (int, int),
    q: (int, int),
) -> bool {
    &&& next_to(p, q)
    &&& inside(shape, p) || inside(shape, q)
    &&& is_reached_from_seeds(levels, shape, seeds, lvl, p)
    &&& is_reached_from_seeds(levels, shape, seeds, lvl, q)
}

/// A path through pixels that water gets to, of which no two that follow each other are
/// both at the rim.
pub open spec fn is_swim(
    levels: Map<(int, int), u8>,
    shape: (nat, nat),
    seeds: Seq<(usize, usize)>,
    lvl: u8,
    path: Seq<(int, int)>,
    p: (int, int),
    q: (int, int),
) -> bool {
    &&& path.len() > 0
    &&& path[0] == p
    &&& path[path.len() - 1] == q
    &&& forall|i: int|
        0 < i < path.len() ==> is_stroke(
            levels,
            shape,
            seeds,
            lvl,
            path[i - 1],
            #[trigger] path[i],
        )
}

/// One body of water holds both pixels.
pub open spec fn in_one_body(
    levels: Map<(int, int), u8>,
    shape: (nat, nat),
    seeds: Seq<(usize, usize)>,
    lvl: u8,
    p: (int, int),
    q: (int, int),
) -> bool {
    exists|path: Seq<(int, int)>| is_swim(levels, shape, seeds, lvl, path, p, q)
}

} // verus!
