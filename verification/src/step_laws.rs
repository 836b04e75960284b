//! Laws of the steps of a transform, each in plain words.

use crate::builder::BuildError;
use crate::colour_map::{lists, maps_to_least, mentioned, shares, together};
use crate::decimal::{decimal, digit};
use crate::flooding::{
    borders_colour, coloured, colours_around, fillable, fills_once, is_uniform, lists_fillable,
    paints, takes_colour,
};
use crate::grid::{canvas_fits, cells, extent, grid, on_grid, pos};
use crate::lakes::{counts_lakes, lake, lake_size};
use crate::levels::{is_local_minimum, lists_minima};
use crate::merging::{is_border, is_merger_order, lists_mergers, meets_at};
use crate::neighbours::{adjacent, around_4con, around_8con, is_index, positions, surrounds};
use crate::plain::{gap, has_seeds, if_wet, inside, is_numbering, is_pick, next_to, on, pixels_of};
use crate::relation::{is_least_joined, is_path, joined};
use crate::sorted::is_increasing;
use crate::spread_laws::{lemma_four, lemma_words};
use crate::transform::{colours_up_to, is_colouring, is_seeded, seeds_fit};
use crate::window::{edge_cells, outer_cells};
use vstd::prelude::*;

verus! {

// Flooding.

/// Water flows onto the pixel next: it has a pixel on each side, a level of at most `lvl`
/// and no colour, and a pixel next to it has one.
pub open spec fn is_next(
    levels: Map<(int, int), u8>,
    canvas: Map<(int, int), usize>,
    shape: (nat, nat),
    lvl: u8,
    p: (int, int),
) -> bool {
    &&& inside(shape, p)
    &&& levels[p] <= lvl
    &&& canvas[p] == 0
    &&& exists|q: (int, int)| #[trigger] next_to(p, q) && canvas[q] != 0
}

/// The colours next to a pixel: below, right, left and above, without those of no water.
pub open spec fn colours_next_to(
    canvas: Map<(int, int), usize>,
    p: (int, int),
) -> Seq<usize> {
    let below = canvas[(p.0 + 1, p.1)];
    let right = canvas[(p.0, p.1 + 1)];
    let left = canvas[(p.0, p.1 - 1)];
    let above = canvas[(p.0 - 1, p.1)];
    if_wet(below != 0, below) + if_wet(right != 0, right) + if_wet(left != 0, left) + if_wet(
        above != 0,
        above,
    )
}

/// Which pixels water flows onto next.
pub proof fn law_fillable(
    levels: Map<(int, int), u8>,
    canvas: Map<(int, int), usize>,
    shape: (nat, nat),
    lvl: u8,
    p: (int, int),
)
    ensures
        fillable(levels, canvas, shape, lvl, p) <==> is_next(levels, canvas, shape, lvl, p),
{
    if fillable(levels, canvas, shape, lvl, p) {
        let q = choose|q: (int, int)| #[trigger] adjacent(p, q) && canvas[q] != 0;
        lemma_words(shape, p, q);
        assert(next_to(p, q));
    }
    if is_next(levels, canvas, shape, lvl, p) {
        let q = choose|q: (int, int)| #[trigger] next_to(p, q) && canvas[q] != 0;
        lemma_words(shape, p, q);
        assert(adjacent(p, q));
    }
}

/// A colour that a pixel takes is that of a pixel next to it, by a draw where they differ.
pub proof fn law_takes_colour(canvas: Map<(int, int), usize>, p: (int, int), c: usize)
    requires
        takes_colour(canvas, p, c),
    ensures
        c != 0,
        exists|q: (int, int)| #[trigger] next_to(p, q) && canvas[q] == c,
        is_pick(colours_next_to(canvas, p), c),
{
    let q = choose|q: (int, int)| #[trigger] adjacent(p, q) && canvas[q] == c;
    assert(next_to(p, q));
    lemma_four(
        canvas[(p.0 + 1, p.1)],
        canvas[(p.0, p.1 + 1)],
        canvas[(p.0, p.1 - 1)],
        canvas[(p.0 - 1, p.1)],
    );
    let list = colours_next_to(canvas, p);
    assert(coloured(colours_around(canvas, p)) == list);
    if is_uniform(list) {
        assert forall|i: int| 0 <= i < list.len() implies #[trigger] list[i] == c by {}
    }
}

/// The search for pixels lists each one that water flows onto next, once and no other, with
/// a colour from next to it, by a draw where they differ.
pub proof fn law_search(
    levels: Map<(int, int), u8>,
    canvas: Map<(int, int), usize>,
    shape: (nat, nat),
    lvl: u8,
    px: Seq<((usize, usize), usize)>,
)
    requires
        lists_fillable(levels, canvas, shape, lvl, px),
    ensures
        forall|k: int|
            #![trigger px[k]]
            0 <= k < px.len() ==> {
                let p = (px[k].0.0 as int, px[k].0.1 as int);
                &&& is_next(levels, canvas, shape, lvl, p)
                &&& is_pick(colours_next_to(canvas, p), px[k].1)
            },
        forall|p: (int, int)| #[trigger]
            is_next(levels, canvas, shape, lvl, p) ==> exists|k: int|
                {
                    &&& 0 <= k < px.len()
                    &&& (#[trigger] px[k]).0.0 == p.0
                    &&& px[k].0.1 == p.1
                },
        forall|j: int, k: int| 0 <= j < k < px.len() ==> px[j].0 != px[k].0,
{
    assert forall|k: int|
        #![trigger px[k]]
        0 <= k < px.len() implies {
        let p = (px[k].0.0 as int, px[k].0.1 as int);
        &&& is_next(levels, canvas, shape, lvl, p)
        &&& is_pick(colours_next_to(canvas, p), px[k].1)
    } by {
        let p = pos(px[k].0);
        law_fillable(levels, canvas, shape, lvl, p);
        law_takes_colour(canvas, p, px[k].1);
    }
    assert forall|p: (int, int)| #[trigger]
        is_next(levels, canvas, shape, lvl, p) implies exists|k: int|
        {
            &&& 0 <= k < px.len()
            &&& (#[trigger] px[k]).0.0 == p.0
            &&& px[k].0.1 == p.1
        } by {
        law_fillable(levels, canvas, shape, lvl, p);
        let k = choose|k: int| 0 <= k < px.len() && pos((#[trigger] px[k]).0) == p;
        assert(px[k].0.0 == p.0);
    }
}

/// In a round each pixel that water flows onto next takes a colour from next to it, by a
/// draw where they differ, all from the canvas before the round; the others keep theirs.
pub proof fn law_round(
    levels: Map<(int, int), u8>,
    before: Map<(int, int), usize>,
    after: Map<(int, int), usize>,
    shape: (nat, nat),
    lvl: u8,
    p: (int, int),
)
    requires
        before.dom() == grid(shape),
        fills_once(levels, before, after, shape, lvl),
        on(shape, p),
    ensures
        is_next(levels, before, shape, lvl, p) ==> after[p] != 0 && is_pick(
            colours_next_to(before, p),
            after[p],
        ),
        !is_next(levels, before, shape, lvl, p) ==> after[p] == before[p],
{
    assert(before.dom().contains(p));
    law_fillable(levels, before, shape, lvl, p);
    if fillable(levels, before, shape, lvl, p) {
        assert(takes_colour(before, p, after[p]));
        law_takes_colour(before, p, after[p]);
    }
}

/// Colouring gives each listed pixel its colour, and leaves the others as they are.
pub proof fn law_colouring_pixels(
    before: Map<(int, int), usize>,
    px: Seq<((usize, usize), usize)>,
    after: Map<(int, int), usize>,
    shape: (nat, nat),
    p: (int, int),
)
    requires
        before.dom() == grid(shape),
        paints(before, px, after),
        on(shape, p),
    ensures
        forall|k: int|
            0 <= k < px.len() && (#[trigger] px[k]).0.0 == p.0 && px[k].0.1 == p.1 ==> after[p]
                == px[k].1,
        (forall|k: int|
            0 <= k < px.len() ==> (#[trigger] px[k]).0.0 != p.0 || px[k].0.1 != p.1)
            ==> after[p] == before[p],
{
    assert(before.dom().contains(p));
    assert forall|k: int|
        0 <= k < px.len() && (#[trigger] px[k]).0.0 == p.0 && px[k].0.1 == p.1 implies after[p]
        == px[k].1 by {
        assert(pos(px[k].0) == p);
    }
    if forall|k: int| 0 <= k < px.len() ==> (#[trigger] px[k]).0.0 != p.0 || px[k].0.1 != p.1 {
        assert forall|k: int| 0 <= k < px.len() implies pos((#[trigger] px[k]).0) != p by {}
    }
}

// Merging.

/// Two lakes meet at the pixel: it has a pixel on each side and a colour, and a pixel next
/// to it has another.
pub open spec fn is_meeting(
    canvas: Map<(int, int), usize>,
    shape: (nat, nat),
    p: (int, int),
) -> bool {
    &&& inside(shape, p)
    &&& canvas[p] != 0
    &&& exists|q: (int, int)| #[trigger]
        next_to(p, q) && canvas[q] != 0 && canvas[q] != canvas[p]
}

/// The colour is that of the pixel or of one next to it.
pub open spec fn is_there(canvas: Map<(int, int), usize>, p: (int, int), c: usize) -> bool {
    c != 0 && (canvas[p] == c || exists|q: (int, int)| #[trigger]
        next_to(p, q) && canvas[q] == c)
}

/// There is one merger for each pixel at which lakes meet, and no other: the colours that
/// are there, each once and from the least to the greatest.
pub open spec fn are_mergers(
    canvas: Map<(int, int), usize>,
    shape: (nat, nat),
    mergers: Seq<Seq<usize>>,
    order: Seq<(int, int)>,
) -> bool {
    &&& order.len() == mergers.len()
    &&& forall|j: int, k: int| 0 <= j < k < order.len() ==> order[j] != order[k]
    &&& forall|p: (int, int)| #[trigger]
        is_meeting(canvas, shape, p) <==> exists|k: int|
            0 <= k < order.len() && #[trigger] order[k] == p
    &&& forall|k: int, i: int, j: int|
        0 <= k < mergers.len() && 0 <= i < j < mergers[k].len() ==> #[trigger] mergers[k][i]
            < #[trigger] mergers[k][j]
    &&& forall|k: int, c: usize|
        0 <= k < mergers.len() ==> (#[trigger] mergers[k].contains(c) <==> is_there(
            canvas,
            order[k],
            c,
        ))
}

/// The search for mergers finds the colours at each pixel at which lakes meet.
pub proof fn law_mergers(
    canvas: Map<(int, int), usize>,
    shape: (nat, nat),
    mergers: Seq<Seq<usize>>,
)
    requires
        lists_mergers(canvas, shape, mergers),
    ensures
        exists|order: Seq<(int, int)>| are_mergers(canvas, shape, mergers, order),
{
    let order = choose|order: Seq<(int, int)>| is_merger_order(canvas, shape, mergers, order);
    assert forall|p: (int, int)| #[trigger]
        is_meeting(canvas, shape, p) <==> exists|k: int|
            0 <= k < order.len() && #[trigger] order[k] == p by {
        if is_meeting(canvas, shape, p) {
            let q = choose|q: (int, int)| #[trigger]
                next_to(p, q) && canvas[q] != 0 && canvas[q] != canvas[p];
            lemma_words(shape, p, q);
            assert(adjacent(p, q));
            assert(borders_colour(canvas, p, canvas[q]));
            assert(is_border(canvas, shape, p));
            let k = choose|k: int| 0 <= k < order.len() && order[k] == p;
            assert(order[k] == p);
        }
        if exists|k: int| 0 <= k < order.len() && #[trigger] order[k] == p {
            let k = choose|k: int| 0 <= k < order.len() && #[trigger] order[k] == p;
            assert(is_border(canvas, shape, order[k]));
            let c = choose|c: usize| c != canvas[p] && #[trigger] borders_colour(canvas, p, c);
            let q = choose|q: (int, int)| #[trigger] adjacent(p, q) && canvas[q] == c;
            lemma_words(shape, p, q);
            assert(next_to(p, q));
        }
    }
    assert forall|k: int, i: int, j: int|
        0 <= k < mergers.len() && 0 <= i < j < mergers[k].len() implies #[trigger] mergers[k][i]
        < #[trigger] mergers[k][j] by {
        assert(is_border(canvas, shape, order[k]) && is_increasing(mergers[k]));
    }
    assert forall|k: int, c: usize| 0 <= k < mergers.len() implies (
    #[trigger] mergers[k].contains(c) <==> is_there(canvas, order[k], c)) by {
        let p = order[k];
        assert(is_border(canvas, shape, order[k]));
        assert(mergers[k].contains(c) <==> meets_at(canvas, p, c));
        if borders_colour(canvas, p, c) {
            let q = choose|q: (int, int)| #[trigger] adjacent(p, q) && canvas[q] == c;
            assert(next_to(p, q));
        }
        if exists|q: (int, int)| #[trigger] next_to(p, q) && canvas[q] == c {
            let q = choose|q: (int, int)| #[trigger] next_to(p, q) && canvas[q] == c;
            lemma_words(shape, p, q);
            assert(adjacent(p, q));
        }
    }
    assert(are_mergers(canvas, shape, mergers, order));
}

/// Some merger has both colours.
pub open spec fn in_one_merger(mergers: Seq<Seq<usize>>, a: usize, b: usize) -> bool {
    exists|k: int, i: int, j: int|
        {
            &&& 0 <= k < mergers.len()
            &&& 0 <= i < mergers[k].len()
            &&& 0 <= j < mergers[k].len()
            &&& #[trigger] mergers[k][i] == a
            &&& #[trigger] mergers[k][j] == b
        }
}

/// A list of colours from `a` to `b` of which any two that follow each other are in one
/// merger.
pub open spec fn is_merger_chain(
    mergers: Seq<Seq<usize>>,
    chain: Seq<usize>,
    a: usize,
    b: usize,
) -> bool {
    &&& chain.len() > 0
    &&& chain[0] == a
    &&& chain[chain.len() - 1] == b
    &&& forall|i: int|
        0 < i < chain.len() ==> in_one_merger(mergers, chain[i - 1], #[trigger] chain[i])
}

/// Mergers lead from one colour to the other.
pub open spec fn mergers_lead(mergers: Seq<Seq<usize>>, a: usize, b: usize) -> bool {
    exists|chain: Seq<usize>| is_merger_chain(mergers, chain, a, b)
}

proof fn lemma_one_merger(mergers: Seq<Seq<usize>>, a: usize, b: usize)
    ensures
        in_one_merger(mergers, a, b) <==> shares(mergers, a, b),
{
    if shares(mergers, a, b) {
        let k = choose|k: int|
            0 <= k < mergers.len() && (#[trigger] mergers[k]).contains(a) && mergers[k].contains(
                b,
            );
        let i = choose|i: int| 0 <= i < mergers[k].len() && mergers[k][i] == a;
        let j = choose|j: int| 0 <= j < mergers[k].len() && mergers[k][j] == b;
        assert(mergers[k][i] == a && mergers[k][j] == b);
    }
    if in_one_merger(mergers, a, b) {
        let (k, i, j) = choose|k: int, i: int, j: int|
            {
                &&& 0 <= k < mergers.len()
                &&& 0 <= i < mergers[k].len()
                &&& 0 <= j < mergers[k].len()
                &&& #[trigger] mergers[k][i] == a
                &&& #[trigger] mergers[k][j] == b
            };
        assert(mergers[k].contains(a) && mergers[k].contains(b));
    }
}

proof fn lemma_mergers_lead(mergers: Seq<Seq<usize>>, a: usize, b: usize)
    ensures
        mergers_lead(mergers, a, b) <==> joined(together(mergers), a, b),
{
    let r = together(mergers);
    if mergers_lead(mergers, a, b) {
        let chain = choose|chain: Seq<usize>| is_merger_chain(mergers, chain, a, b);
        assert forall|i: int| 0 <= i < chain.len() - 1 implies r(
            #[trigger] chain[i],
            chain[i + 1],
        ) by {
            assert(in_one_merger(mergers, chain[i + 1 - 1], chain[i + 1]));
            lemma_one_merger(mergers, chain[i], chain[i + 1]);
        }
        assert(is_path(r, chain, a, b));
    }
    if joined(r, a, b) {
        let chain = choose|chain: Seq<usize>| is_path(r, chain, a, b);
        assert forall|i: int| 0 < i < chain.len() implies in_one_merger(
            mergers,
            chain[i - 1],
            #[trigger] chain[i],
        ) by {
            assert(r(chain[i - 1], chain[i - 1 + 1]));
            lemma_one_merger(mergers, chain[i - 1], chain[i]);
        }
        assert(is_merger_chain(mergers, chain, a, b));
    }
}

/// A colour that some merger has goes to the least colour that mergers lead to; any other
/// goes where it went.
pub proof fn law_colour_map(
    base: Seq<usize>,
    mergers: Seq<Seq<usize>>,
    map: Seq<usize>,
    c: usize,
)
    requires
        maps_to_least(base, mergers, map),
        c < base.len(),
    ensures
        map.len() == base.len(),
        in_one_merger(mergers, c, c) ==> mergers_lead(mergers, c, map[c as int]) && forall|d: usize|
            #[trigger] mergers_lead(mergers, c, d) ==> map[c as int] <= d,
        !in_one_merger(mergers, c, c) ==> map[c as int] == base[c as int],
{
    lemma_one_merger(mergers, c, c);
    let to = map[c as int];
    assert(mentioned(mergers, c) <==> shares(mergers, c, c)) by {
        if mentioned(mergers, c) {
            let k = choose|k: int| 0 <= k < mergers.len() && (#[trigger] mergers[k]).contains(c);
            assert(mergers[k].contains(c));
        }
    }
    if mentioned(mergers, c) {
        assert(is_least_joined(together(mergers), c, to));
        lemma_mergers_lead(mergers, c, to);
        assert forall|d: usize| #[trigger] mergers_lead(mergers, c, d) implies to <= d by {
            lemma_mergers_lead(mergers, c, d);
        }
    }
}

/// Each item of a sorted list is less than any later one.
pub proof fn law_increasing(s: Seq<usize>)
    ensures
        is_increasing(s) <==> forall|i: int, j: int| 0 <= i < j < s.len() ==> s[i] < s[j],
{
}

// Lakes.

/// Each entry of the count is the number of pixels of that colour.
pub proof fn law_count(
    canvas: Map<(int, int), usize>,
    shape: (nat, nat),
    sizes: Seq<usize>,
    c: int,
)
    requires
        canvas.dom() == grid(shape),
        counts_lakes(canvas, sizes),
        sizes.len() <= usize::MAX,
        0 <= c < sizes.len(),
    ensures
        sizes[c] == pixels_of(canvas, shape, c).len(),
{
    assert(sizes[c] == lake_size(canvas, c as usize));
    assert(lake(canvas, c as usize) =~= pixels_of(canvas, shape, c));
}

// Seeds.

/// The colours of seeds are the numbers from one on, each once.
pub proof fn law_numbering(n: nat, colours: Seq<usize>)
    ensures
        is_colouring(n, colours) <==> is_numbering(colours, n),
{
}

/// A seeded canvas has the colour of the last seed at each pixel, and no other colour.
pub proof fn law_seeds(
    shape: (nat, nat),
    seeds: Seq<(usize, usize)>,
    colours: Seq<usize>,
    canvas: Map<(int, int), usize>,
)
    requires
        is_seeded(shape, seeds, colours, canvas),
    ensures
        has_seeds(canvas, shape, seeds, colours),
{
    assert forall|p: (int, int)| #[trigger] on(shape, p) implies {
        ||| canvas[p] == 0 && forall|i: int|
            0 <= i < seeds.len() ==> (#[trigger] seeds[i]).0 != p.0 || seeds[i].1 != p.1
        ||| exists|i: int|
            {
                &&& 0 <= i < seeds.len()
                &&& (#[trigger] seeds[i]).0 == p.0 && seeds[i].1 == p.1
                &&& canvas[p] == colours[i]
                &&& forall|j: int|
                    i < j < seeds.len() ==> (#[trigger] seeds[j]).0 != p.0 || seeds[j].1 != p.1
            }
    } by {
        assert(canvas.dom().contains(p));
        if exists|i: int| 0 <= i < seeds.len() && pos(#[trigger] seeds[i]) == p {
            let i = choose|i: int| 0 <= i < seeds.len() && pos(#[trigger] seeds[i]) == p;
            let last = lemma_last(seeds, p, i, seeds.len() as int);
            assert(canvas[pos(seeds[last])] == colours[last]);
        } else {
            assert forall|i: int| 0 <= i < seeds.len() implies (#[trigger] seeds[i]).0 != p.0
                || seeds[i].1 != p.1 by {
                assert(pos(seeds[i]) != p);
            }
        }
    }
}

proof fn lemma_last(seeds: Seq<(usize, usize)>, p: (int, int), i: int, end: int) -> (last: int)
    requires
        0 <= i < end <= seeds.len(),
        pos(seeds[i]) == p,
        forall|j: int| end <= j < seeds.len() ==> pos(#[trigger] seeds[j]) != p,
    ensures
        0 <= last < seeds.len(),
        pos(seeds[last]) == p,
        forall|j: int| last < j < seeds.len() ==> pos(#[trigger] seeds[j]) != p,
    decreases end,
{
    if pos(seeds[end - 1]) == p {
        end - 1
    } else {
        lemma_last(seeds, p, i, end - 1)
    }
}

// Minima.

/// The pixel at `(i, j)` has eight pixels around it, all of them higher.
pub open spec fn is_lowest(
    levels: Map<(int, int), u8>,
    shape: (nat, nat),
    i: int,
    j: int,
) -> bool {
    &&& 1 <= i && i + 1 < shape.0
    &&& 1 <= j && j + 1 < shape.1
    &&& forall|q: (int, int)|
        #![trigger levels[q]]
        gap(q.0, i) <= 1 && gap(q.1, j) <= 1 && q != (i, j) ==> levels[(i, j)] < levels[q]
}

/// The list of minima has each pixel that is lower than the eight around it, once and no
/// other.
pub proof fn law_minima(
    levels: Map<(int, int), u8>,
    shape: (nat, nat),
    minima: Seq<(usize, usize)>,
)
    requires
        lists_minima(levels, shape, minima),
    ensures
        forall|i: int, j: int| #[trigger]
            is_lowest(levels, shape, i, j) <==> exists|k: int|
                0 <= k < minima.len() && (#[trigger] minima[k]).0 == i && minima[k].1 == j,
        forall|j: int, k: int| 0 <= j < k < minima.len() ==> minima[j] != minima[k],
{
    assert forall|i: int, j: int| #[trigger]
        is_lowest(levels, shape, i, j) <==> exists|k: int|
            0 <= k < minima.len() && (#[trigger] minima[k]).0 == i && minima[k].1 == j by {
        let p = (i, j);
        lemma_lowest(levels, shape, i, j);
        if is_lowest(levels, shape, i, j) {
            let k = choose|k: int| 0 <= k < minima.len() && pos(#[trigger] minima[k]) == p;
            assert(minima[k].0 == i);
        }
        if exists|k: int|
            0 <= k < minima.len() && (#[trigger] minima[k]).0 == i && minima[k].1 == j {
            let k = choose|k: int|
                0 <= k < minima.len() && (#[trigger] minima[k]).0 == i && minima[k].1 == j;
            assert(pos(minima[k]) == p);
        }
    }
}

proof fn lemma_lowest(levels: Map<(int, int), u8>, shape: (nat, nat), i: int, j: int)
    ensures
        is_lowest(levels, shape, i, j) <==> is_local_minimum(levels, shape, (i, j)),
{
    let p = (i, j);
    if is_lowest(levels, shape, i, j) {
        assert forall|q: (int, int)| #[trigger] surrounds(p, q) implies levels[p] < levels[q] by {}
    }
    if is_local_minimum(levels, shape, p) {
        assert forall|q: (int, int)|
            #![trigger levels[q]]
            gap(q.0, i) <= 1 && gap(q.1, j) <= 1 && q != (i, j) implies levels[(i, j)]
            < levels[q] by {
            assert(surrounds(p, q));
        }
    }
}

/// Where all levels of an image are shifted, its minima stay where they are.
pub proof fn law_minima_can_be_shifted(
    levels: Map<(int, int), u8>,
    other_levels: Map<(int, int), u8>,
    by: int,
    shape: (nat, nat),
    minima: Seq<(usize, usize)>,
    other_minima: Seq<(usize, usize)>,
)
    requires
        forall|p: (int, int)| #[trigger] on(shape, p) ==> other_levels[p] == levels[p] + by,
        lists_minima(levels, shape, minima),
        lists_minima(other_levels, shape, other_minima),
    ensures
        forall|s: (usize, usize)| #[trigger] minima.contains(s) <==> other_minima.contains(s),
        minima.len() == other_minima.len(),
{
    assert forall|i: int, j: int| #[trigger]
        is_lowest(levels, shape, i, j) <==> is_lowest(other_levels, shape, i, j) by {
        if 1 <= i && i + 1 < shape.0 && 1 <= j && j + 1 < shape.1 {
            assert(on(shape, (i, j)));
            assert forall|q: (int, int)|
                gap(q.0, i) <= 1 && gap(q.1, j) <= 1 implies #[trigger] on(shape, q) by {}
            if is_lowest(levels, shape, i, j) {
                assert forall|q: (int, int)|
                    #![trigger other_levels[q]]
                    gap(q.0, i) <= 1 && gap(q.1, j) <= 1 && q != (i, j) implies other_levels[(
                i,
                j,
            )] < other_levels[q] by {
                    assert(on(shape, q));
                    assert(levels[(i, j)] < levels[q]);
                }
            }
            if is_lowest(other_levels, shape, i, j) {
                assert forall|q: (int, int)|
                    #![trigger levels[q]]
                    gap(q.0, i) <= 1 && gap(q.1, j) <= 1 && q != (i, j) implies levels[(i, j)]
                    < levels[q] by {
                    assert(on(shape, q));
                    assert(other_levels[(i, j)] < other_levels[q]);
                }
            }
        }
    }
    law_minima(levels, shape, minima);
    law_minima(other_levels, shape, other_minima);
    assert forall|s: (usize, usize)| #[trigger] minima.contains(s) <==> other_minima.contains(
        s,
    ) by {
        let (i, j) = (s.0 as int, s.1 as int);
        assert(is_lowest(levels, shape, i, j) <==> is_lowest(other_levels, shape, i, j));
        if minima.contains(s) {
            let k = choose|k: int| 0 <= k < minima.len() && minima[k] == s;
            assert(minima[k].0 == i && minima[k].1 == j);
            let m = choose|m: int|
                0 <= m < other_minima.len() && (#[trigger] other_minima[m]).0 == i
                    && other_minima[m].1 == j;
            assert(other_minima[m] == s);
        }
        if other_minima.contains(s) {
            let k = choose|k: int| 0 <= k < other_minima.len() && other_minima[k] == s;
            assert(other_minima[k].0 == i && other_minima[k].1 == j);
            let m = choose|m: int|
                0 <= m < minima.len() && (#[trigger] minima[m]).0 == i && minima[m].1 == j;
            assert(minima[m] == s);
        }
    }
    minima.unique_seq_to_set();
    other_minima.unique_seq_to_set();
    assert(minima.to_set() =~= other_minima.to_set());
}

// Neighbours and windows.

/// The neighbours across an edge are the places without a negative index that one step
/// leads to, each once: below, right, left, above.
pub proof fn law_neighbours_4con(index: (usize, usize), res: Seq<(usize, usize)>)
    requires
        positions(res) == around_4con(pos(index)).filter(|p: (int, int)| is_index(p)),
    ensures
        positions(res) == four_places(index),
        forall|q: (usize, usize)|
            index.0 < usize::MAX && index.1 < usize::MAX ==> (#[trigger] res.contains(q)
                <==> next_to((index.0 as int, index.1 as int), (q.0 as int, q.1 as int))),
{
    let (x, y) = (index.0 as int, index.1 as int);
    let keep = |p: (int, int)| is_index(p);
    let all = around_4con(pos(index));
    reveal(Seq::filter);
    let s3 = seq![(x + 1, y), (x, y + 1), (x, y - 1)];
    let s2 = seq![(x + 1, y), (x, y + 1)];
    let s1 = seq![(x + 1, y)];
    let s0: Seq<(int, int)> = seq![];
    assert(all.drop_last() =~= s3);
    assert(s3.drop_last() =~= s2);
    assert(s2.drop_last() =~= s1);
    assert(s1.drop_last() =~= s0);
    assert(s0.filter(keep) =~= s0);
    assert(s1.filter(keep) =~= s1);
    assert(s2.filter(keep) =~= s2);
    assert(s3.filter(keep) =~= s2 + if_place(y >= 1, (x, y - 1)));
    assert(all.filter(keep) =~= s2 + if_place(y >= 1, (x, y - 1)) + if_place(
        x >= 1,
        (x - 1, y),
    ));
    assert(four_places(index) =~= all.filter(keep));
    if index.0 < usize::MAX && index.1 < usize::MAX {
        assert forall|q: (usize, usize)| #[trigger] res.contains(q) <==> next_to(
            (x, y),
            (q.0 as int, q.1 as int),
        ) by {
            let places = four_places(index);
            if res.contains(q) {
                let k = choose|k: int| 0 <= k < res.len() && res[k] == q;
                assert(places[k] == pos(q));
            }
            if next_to((x, y), (q.0 as int, q.1 as int)) {
                let left = s2 + if_place(y >= 1, (x, y - 1));
                assert(places[0] == (x + 1, y) && places[1] == (x, y + 1));
                if y >= 1 {
                    assert(places[2] == (x, y - 1));
                }
                if x >= 1 {
                    assert(places[left.len() as int] == (x - 1, y));
                }
                let k = if pos(q) == (x + 1, y) {
                    0
                } else if pos(q) == (x, y + 1) {
                    1
                } else if pos(q) == (x, y - 1) {
                    2
                } else {
                    left.len() as int
                };
                assert(places[k] == pos(q));
                assert(positions(res)[k] == pos(res[k]));
                assert(res[k] == q);
            }
        }
    }
}

/// A list of one place, or of none.
pub open spec fn if_place(there: bool, p: (int, int)) -> Seq<(int, int)> {
    if there {
        seq![p]
    } else {
        seq![]
    }
}

/// The places below, right, left and above, without those with a negative index.
pub open spec fn four_places(index: (usize, usize)) -> Seq<(int, int)> {
    let (x, y) = (index.0 as int, index.1 as int);
    seq![(x + 1, y), (x, y + 1)] + if_place(y >= 1, (x, y - 1)) + if_place(x >= 1, (x - 1, y))
}

/// The eight neighbours are the places at most one row and one column away, each once, and
/// no other.
pub proof fn law_around_8con(p: (int, int))
    ensures
        around_8con(p).len() == 8,
        forall|i: int, j: int| 0 <= i < j < 8 ==> around_8con(p)[i] != around_8con(p)[j],
        forall|q: (int, int)| #[trigger]
            around_8con(p).contains(q) <==> gap(p.0, q.0) <= 1 && gap(p.1, q.1) <= 1 && p != q,
{
    let all = around_8con(p);
    assert forall|q: (int, int)| #[trigger] all.contains(q) <==> gap(p.0, q.0) <= 1 && gap(
        p.1,
        q.1,
    ) <= 1 && p != q by {
        assert(all[0] == (p.0 + 1, p.1) && all[1] == (p.0 + 1, p.1 + 1) && all[2] == (
            p.0 + 1,
            p.1 - 1,
        ) && all[3] == (p.0, p.1 + 1) && all[4] == (p.0, p.1 - 1) && all[5] == (p.0 - 1, p.1)
            && all[6] == (p.0 - 1, p.1 + 1) && all[7] == (p.0 - 1, p.1 - 1));
    }
}

proof fn lemma_filter(s: Seq<(int, int)>, keep: spec_fn((int, int)) -> bool, q: (int, int))
    requires
        forall|i: int, j: int| 0 <= i < j < s.len() ==> s[i] != s[j],
    ensures
        s.filter(keep).contains(q) <==> s.contains(q) && keep(q),
        forall|i: int, j: int|
            0 <= i < j < s.filter(keep).len() ==> s.filter(keep)[i] != s.filter(keep)[j],
    decreases s.len(),
{
    reveal(Seq::filter);
    if s.len() > 0 {
        let init = s.drop_last();
        let kept = init.filter(keep);
        let last = s.last();
        lemma_filter(init, keep, q);
        lemma_filter(init, keep, last);
        assert(s =~= init.push(last));
        if init.contains(q) {
            let i = choose|i: int| 0 <= i < init.len() && init[i] == q;
            assert(s[i] == q);
        }
        if s.contains(q) {
            let i = choose|i: int| 0 <= i < s.len() && s[i] == q;
            if i < init.len() {
                assert(init[i] == q);
            }
        }
        assert(s[s.len() - 1] == last);
        assert(!init.contains(last)) by {
            if init.contains(last) {
                let i = choose|i: int| 0 <= i < init.len() && init[i] == last;
                assert(s[i] == last);
            }
        }
        if keep(last) {
            let more = kept.push(last);
            assert(s.filter(keep) == more);
            assert(more[kept.len() as int] == last);
            if kept.contains(q) {
                let i = choose|i: int| 0 <= i < kept.len() && kept[i] == q;
                assert(more[i] == q);
            }
            if more.contains(q) {
                let i = choose|i: int| 0 <= i < more.len() && more[i] == q;
                if i < kept.len() {
                    assert(kept[i] == q);
                }
            }
            assert forall|i: int, j: int| 0 <= i < j < more.len() implies more[i] != more[j] by {
                if j == kept.len() {
                    assert(kept[i] == more[i]);
                    assert(kept.contains(kept[i]));
                }
            }
        }
    }
}

/// The neighbours across an edge or a corner are the places without a negative index at
/// most one row and one column away, each once.
pub proof fn law_neighbours_8con(index: (usize, usize), res: Seq<(usize, usize)>)
    requires
        positions(res) == around_8con(pos(index)).filter(|p: (int, int)| is_index(p)),
    ensures
        forall|q: (usize, usize)| #[trigger]
            res.contains(q) <==> gap(index.0 as int, q.0 as int) <= 1 && gap(
                index.1 as int,
                q.1 as int,
            ) <= 1 && q != index,
        forall|i: int, j: int| 0 <= i < j < res.len() ==> res[i] != res[j],
{
    let p = pos(index);
    let all = around_8con(p);
    let keep = |p: (int, int)| is_index(p);
    law_around_8con(p);
    assert forall|q: (usize, usize)| #[trigger] res.contains(q) <==> gap(
        index.0 as int,
        q.0 as int,
    ) <= 1 && gap(index.1 as int, q.1 as int) <= 1 && q != index by {
        lemma_filter(all, keep, pos(q));
        if res.contains(q) {
            let k = choose|k: int| 0 <= k < res.len() && res[k] == q;
            assert(positions(res)[k] == pos(q));
            assert(all.filter(keep).contains(pos(q)));
        }
        if all.filter(keep).contains(pos(q)) {
            let k = choose|k: int|
                0 <= k < all.filter(keep).len() && all.filter(keep)[k] == pos(q);
            assert(positions(res)[k] == pos(res[k]));
            assert(res[k] == q);
        }
    }
    assert forall|i: int, j: int| 0 <= i < j < res.len() implies res[i] != res[j] by {
        lemma_filter(all, keep, p);
        assert(positions(res)[i] == pos(res[i]) && positions(res)[j] == pos(res[j]));
    }
}

/// The windows of a grid: what is at the centre, next to it and around it.
pub proof fn law_window<T>(m: Map<(int, int), T>, corner: (int, int))
    ensures
        ({
            let (x, y) = (corner.0 + 1, corner.1 + 1);
            let w = cells(m, corner);
            &&& w.len() == 9
            &&& w[4] == m[(x, y)]
            &&& edge_cells(w) == seq![m[(x + 1, y)], m[(x, y + 1)], m[(x, y - 1)], m[(x - 1, y)]]
            &&& outer_cells(w) == seq![
                m[(x + 1, y)],
                m[(x + 1, y + 1)],
                m[(x + 1, y - 1)],
                m[(x, y + 1)],
                m[(x, y - 1)],
                m[(x - 1, y)],
                m[(x - 1, y + 1)],
                m[(x - 1, y - 1)],
            ]
        }),
{
    let (x, y) = (corner.0 + 1, corner.1 + 1);
    let w = cells(m, corner);
    assert(edge_cells(w) =~= seq![m[(x + 1, y)], m[(x, y + 1)], m[(x, y - 1)], m[(x - 1, y)]]);
    assert(outer_cells(w) =~= seq![
        m[(x + 1, y)],
        m[(x + 1, y + 1)],
        m[(x + 1, y - 1)],
        m[(x, y + 1)],
        m[(x, y - 1)],
        m[(x - 1, y)],
        m[(x - 1, y + 1)],
        m[(x - 1, y - 1)],
    ]);
}

// Messages.

/// The value of a text of digits.
pub open spec fn value(text: Seq<char>) -> int
    decreases text.len(),
{
    if text.len() == 0 {
        0
    } else {
        10 * value(text.drop_last()) + (text.last() as int - '0' as int)
    }
}

/// A number is written in digits that have its value, without a zero in front.
pub proof fn law_decimal(n: nat)
    ensures
        value(decimal(n)) == n,
        decimal(n).len() > 0,
        forall|i: int| 0 <= i < decimal(n).len() ==> '0' <= #[trigger] decimal(n)[i] <= '9',
        n > 0 ==> decimal(n)[0] != '0',
    decreases n,
{
    if n < 10 {
        let text = decimal(n);
        assert(text =~= seq![digit(n)]);
        assert(text.drop_last() =~= seq![]);
        assert(value(text.drop_last()) == 0);
    } else {
        law_decimal(n / 10);
        let head = decimal(n / 10);
        let text = decimal(n);
        assert(text =~= head.push(digit(n % 10)));
        assert(text.drop_last() =~= head);
        assert(text.last() == digit(n % 10));
        assert forall|i: int| 0 <= i < text.len() implies '0' <= #[trigger] text[i] <= '9' by {
            if i < head.len() {
                assert(text[i] == head[i]);
            }
        }
        assert(text[0] == head[0]);
    }
}

/// What the errors say.
pub proof fn law_messages(lvl: u8)
    ensures
        BuildError::WaterLevelTooHigh(lvl).text() == "Max water level was set at "@ + decimal(
            lvl as nat,
        ) + ", which is higher than the allowed maximum ("@ + decimal(254) + ")."@,
        BuildError::NoPlotFolder.text()
            == "Cannot configure watershed transform to plot without specifying an output path for the plots. Please disable the `plots` feature or specify an output path."@,
        BuildError::NoColourMap.text()
            == "No colour map to be used for plotting of watershed transform was specified. This is a library bug."@,
{
}

// What is asked of callers.

/// Seeds fit wherever they are pixels of the image and there are not too many to count.
pub proof fn law_seeds_that_fit(shape: (nat, nat), seeds: Seq<(usize, usize)>)
    ensures
        seeds_fit(shape, seeds) <==> seeds.len() + 2 <= usize::MAX && forall|i: int|
            0 <= i < seeds.len() ==> (#[trigger] seeds[i]).0 < shape.0 && seeds[i].1 < shape.1,
{
    if seeds.len() + 2 <= usize::MAX && forall|i: int|
        0 <= i < seeds.len() ==> (#[trigger] seeds[i]).0 < shape.0 && seeds[i].1 < shape.1 {
        assert forall|i: int| 0 <= i < seeds.len() implies on_grid(
            shape,
            pos(#[trigger] seeds[i]),
        ) by {}
    }
    if seeds_fit(shape, seeds) {
        assert forall|i: int| 0 <= i < seeds.len() implies (#[trigger] seeds[i]).0 < shape.0
            && seeds[i].1 < shape.1 by {
            assert(on_grid(shape, pos(seeds[i])));
        }
    }
}

/// A canvas fits wherever its bytes do, and the extent of a shape is its number of pixels
/// where it has any.
pub proof fn law_shapes_that_fit(rows: nat, columns: nat)
    ensures
        canvas_fits((rows, columns)) <==> rows * columns * (usize::BITS / 8) <= isize::MAX,
        rows > 0 && columns > 0 ==> extent((rows, columns)) == rows * columns,
        columns == 0 ==> extent((rows, columns)) <= rows + 1,
        rows == 0 ==> extent((rows, columns)) <= columns + 1,
{
}

/// The colours of a canvas go up to a number where none of its pixels has a greater one.
pub proof fn law_colours_up_to(
    canvas: Map<(int, int), usize>,
    shape: (nat, nat),
    last: usize,
)
    requires
        canvas.dom() == grid(shape),
    ensures
        colours_up_to(canvas, last) <==> forall|p: (int, int)| #[trigger]
            on(shape, p) ==> canvas[p] <= last,
{
    if colours_up_to(canvas, last) {
        assert forall|p: (int, int)| #[trigger] on(shape, p) implies canvas[p] <= last by {
            assert(canvas.dom().contains(p));
        }
    }
    if forall|p: (int, int)| #[trigger] on(shape, p) ==> canvas[p] <= last {
        assert forall|p: (int, int)| #[trigger] canvas.dom().contains(p) implies canvas[p]
            <= last by {
            assert(on(shape, p));
        }
    }
}

/// The lists of a vector of vectors are those vectors, one for one; a colour is mentioned
/// where one of them has it.
pub proof fn law_lists(v: Seq<Vec<usize>>, c: usize)
    ensures
        lists(v).len() == v.len(),
        forall|k: int| 0 <= k < v.len() ==> (#[trigger] lists(v)[k]) == v[k]@,
        mentioned(lists(v), c) <==> exists|k: int, i: int|
            0 <= k < v.len() && 0 <= i < v[k]@.len() && #[trigger] v[k]@[i] == c,
{
    if mentioned(lists(v), c) {
        let k = choose|k: int| 0 <= k < lists(v).len() && (#[trigger] lists(v)[k]).contains(c);
        let i = choose|i: int| 0 <= i < lists(v)[k].len() && lists(v)[k][i] == c;
        assert(v[k]@[i] == c);
    }
    if exists|k: int, i: int|
        0 <= k < v.len() && 0 <= i < v[k]@.len() && #[trigger] v[k]@[i] == c {
        let (k, i) = choose|k: int, i: int|
            0 <= k < v.len() && 0 <= i < v[k]@.len() && #[trigger] v[k]@[i] == c;
        assert(lists(v)[k][i] == c);
        assert(lists(v)[k].contains(c));
    }
}

} // verus!
