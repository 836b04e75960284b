//! Merging: lakes of different colours that touch become one lake.

use crate::colour_map::{
    lists, make_colour_map, maps_to_least, mentioned, shares, together,
};
use crate::flooding::{
    borders_colour, coloured, coloured_neighbours, interior, lemma_coloured, lemma_window,
};
use crate::grid::{cells, colour_outcome, gathered, on_grid, window_at, Canvas};
use crate::lakes::UNCOLOURED;
use crate::neighbours::adjacent;
use crate::relation::{
    is_least_joined, joined, lemma_joined_keeps, lemma_joined_once, lemma_joined_refines,
    lemma_joined_self, lemma_joined_step,
};
use crate::sorted::{is_increasing, sort_and_dedup};
use crate::window::{cell, edge_cells, MID};
use vstd::prelude::*;

verus! {

/// The colour is that of the water on `p` or next to it.
pub open spec fn meets_at(colours: Map<(int, int), usize>, p: (int, int), c: usize) -> bool {
    (c != UNCOLOURED && colours[p] == c) || borders_colour(colours, p, c)
}

/// `p` is under water, and water of another colour is next to it.
pub open spec fn is_border(
    colours: Map<(int, int), usize>,
    shape: (nat, nat),
    p: (int, int),
) -> bool {
    &&& interior(shape, p)
    &&& colours[p] != UNCOLOURED
    &&& exists|c: usize| c != colours[p] && #[trigger] borders_colour(colours, p, c)
}

/// Each of the mergers is the list of the colours that meet at one pixel between
/// lakes; `order` gives the pixel of each.
pub open spec fn is_merger_order(
    colours: Map<(int, int), usize>,
    shape: (nat, nat),
    mergers: Seq<Seq<usize>>,
    order: Seq<(int, int)>,
) -> bool {
    &&& order.len() == mergers.len()
    &&& order.no_duplicates()
    &&& forall|k: int|
        0 <= k < mergers.len() ==> is_border(colours, shape, #[trigger] order[k])
            && is_increasing(mergers[k]) && forall|c: usize| #[trigger]
            mergers[k].contains(c) <==> meets_at(colours, order[k], c)
    &&& forall|p: (int, int)| #[trigger] is_border(colours, shape, p) ==> order.contains(p)
}

/// The mergers are the lists of the colours that meet at each pixel between lakes, in
/// any order.
pub open spec fn lists_mergers(
    colours: Map<(int, int), usize>,
    shape: (nat, nat),
    mergers: Seq<Seq<usize>>,
) -> bool {
    exists|order: Seq<(int, int)>| is_merger_order(colours, shape, mergers, order)
}

/// Water of the two colours lies on pixels next to each other, at least one of which
/// is not in the outermost ring of the grid.
pub open spec fn touches(
    colours: Map<(int, int), usize>,
    shape: (nat, nat),
    a: usize,
    b: usize,
) -> bool {
    &&& a != UNCOLOURED
    &&& b != UNCOLOURED
    &&& exists|p: (int, int), q: (int, int)|
        {
            &&& #[trigger] adjacent(p, q)
            &&& interior(shape, p) || interior(shape, q)
            &&& colours[p] == a
            &&& colours[q] == b
        }
}

/// The relation of colours that touch.
pub open spec fn touching(
    colours: Map<(int, int), usize>,
    shape: (nat, nat),
) -> spec_fn(usize, usize) -> bool {
    |a: usize, b: usize| touches(colours, shape, a, b)
}

/// Each pixel takes the least colour that its own is linked to by lakes that touch.
pub open spec fn merges(
    before: Map<(int, int), usize>,
    after: Map<(int, int), usize>,
    shape: (nat, nat),
) -> bool {
    &&& after.dom() == before.dom()
    &&& forall|p: (int, int)|
        #![trigger after[p]]
        before.dom().contains(p) ==> is_least_joined(
            touching(before, shape),
            before[p],
            after[p],
        )
}

/// The centre of a window is under water, and water of another colour is next to it.
pub open spec fn window_merges(window: Seq<usize>) -> bool {
    &&& window[4] != UNCOLOURED
    &&& exists|i: int|
        0 <= i < 4 && #[trigger] edge_cells(window)[i] != UNCOLOURED && edge_cells(window)[i]
            != window[4]
}

/// The colours that meet at the centre of a window, if there are several.
pub fn window_merger(window: &Vec<usize>) -> (res: Option<Vec<usize>>)
    requires
        window@.len() == 9,
    ensures
        res is Some <==> window_merges(window@),
        res matches Some(merger) ==> is_increasing(merger@) && forall|c: usize| #[trigger]
            merger@.contains(c) <==> c != UNCOLOURED && (c == window@[4] || edge_cells(
                window@,
            ).contains(c)),
{
    let own: usize = cell(window, MID);
    if own == UNCOLOURED {
        return None;
    }
    let mut merger = coloured_neighbours(window);
    let ghost edge = edge_cells(window@);
    let ghost neighbours = merger@;
    let mut differs = false;
    for i in 0..merger.len()
        invariant
            differs <==> exists|j: int| 0 <= j < i && #[trigger] merger@[j] != own,
    {
        if merger[i] != own {
            differs = true;
        }
    }
    proof {
        assert(differs <==> window_merges(window@)) by {
            if differs {
                let j = choose|j: int| 0 <= j < neighbours.len() && #[trigger] neighbours[j] != own;
                lemma_coloured(edge, neighbours[j]);
                assert(neighbours.contains(neighbours[j]));
                let i = choose|i: int| 0 <= i < edge.len() && edge[i] == neighbours[j];
                assert(edge[i] != UNCOLOURED);
            }
            if window_merges(window@) {
                let i = choose|i: int|
                    0 <= i < 4 && #[trigger] edge[i] != UNCOLOURED && edge[i] != own;
                lemma_coloured(edge, edge[i]);
                assert(edge.contains(edge[i]));
                let j = choose|j: int| 0 <= j < neighbours.len() && neighbours[j] == edge[i];
                assert(neighbours[j] != own);
            }
        }
    }
    if !differs {
        return None;
    }
    merger.push(own);
    let ghost whole = merger@;
    sort_and_dedup(&mut merger);
    proof {
        assert forall|c: usize| #[trigger] merger@.contains(c) <==> c != UNCOLOURED && (c == own
            || edge.contains(c)) by {
            lemma_coloured(edge, c);
            assert(merger@.contains(c) <==> whole.contains(c));
            if whole.contains(c) {
                let i = choose|i: int| 0 <= i < whole.len() && whole[i] == c;
                if i < neighbours.len() {
                    assert(neighbours[i] == c);
                }
            }
            if neighbours.contains(c) {
                let i = choose|i: int| 0 <= i < neighbours.len() && neighbours[i] == c;
                assert(whole[i] == c);
            }
            assert(whole[neighbours.len() as int] == own);
        }
    }
    Some(merger)
}

/// Finds the colours that have to be merged: for each pixel between lakes, the list of
/// the colours that meet there.
pub fn find_merge(col: &Canvas) -> (res: Vec<Vec<usize>>)
    ensures
        lists_mergers(col@, col.shape(), lists(res@)),
{
    let ghost shape = col.shape();
    let decide = |w: Vec<usize>| -> (res: Option<Vec<usize>>)
        requires
            w@.len() == 9,
        ensures
            res is Some <==> window_merges(w@),
            res matches Some(merger) ==> is_increasing(merger@) && forall|c: usize| #[trigger]
                merger@.contains(c) <==> c != UNCOLOURED && (c == w@[4] || edge_cells(
                    w@,
                ).contains(c)),
        { window_merger(&w) };
    let res = col.filter_map_windows(decide);
    proof {
        let colours = col@;
        let mergers = lists(res@);
        let (outcome, corners) = choose|
            outcome: Map<(int, int), Option<Vec<usize>>>,
            order: Seq<(int, int)>,
        |
            {
                &&& #[trigger] gathered(res@, shape, outcome, order)
                &&& forall|p: (int, int)|
                    window_at(shape, p) ==> colour_outcome(
                        colours,
                        decide,
                        p,
                        #[trigger] outcome[p],
                    )
            };
        let order = Seq::new(corners.len(), |k: int| (corners[k].0 + 1, corners[k].1 + 1));
        assert forall|corner: (int, int)| window_at(shape, corner) implies {
            let p = (corner.0 + 1, corner.1 + 1);
            &&& (#[trigger] outcome[corner]) is Some <==> is_border(colours, shape, p)
            &&& outcome[corner] matches Some(merger) ==> is_increasing(merger@) && forall|
                c: usize,
            | #[trigger]
                merger@.contains(c) <==> meets_at(colours, p, c)
        } by {
            let p = (corner.0 + 1, corner.1 + 1);
            assert(colour_outcome(colours, decide, corner, outcome[corner]));
            let w = choose|w: Vec<usize>|
                w@ == cells(colours, corner) && #[trigger] call_ensures(
                    decide,
                    (w,),
                    outcome[corner],
                );
            lemma_window(Map::empty(), colours, shape, 0, corner);
            let edge = edge_cells(cells(colours, corner));
            assert(cells(colours, corner)[4] == colours[p]);
            if window_merges(w@) {
                let i = choose|i: int|
                    0 <= i < 4 && #[trigger] edge[i] != UNCOLOURED && edge[i] != w@[4];
                assert(edge.contains(edge[i]));
                assert(borders_colour(colours, p, edge[i]));
            }
            if is_border(colours, shape, p) {
                let c = choose|c: usize|
                    c != colours[p] && #[trigger] borders_colour(colours, p, c);
                assert(edge.contains(c));
                let i = choose|i: int| 0 <= i < edge.len() && edge[i] == c;
                assert(edge[i] != UNCOLOURED);
            }
        }
        assert forall|k: int| 0 <= k < mergers.len() implies is_border(
            colours,
            shape,
            #[trigger] order[k],
        ) && is_increasing(mergers[k]) && forall|c: usize| #[trigger]
            mergers[k].contains(c) <==> meets_at(colours, order[k], c) by {
            assert(window_at(shape, corners[k]) && outcome[corners[k]] == Some(res@[k]));
        }
        assert forall|p: (int, int)| #[trigger]
            is_border(colours, shape, p) implies order.contains(p) by {
            let corner = (p.0 - 1, p.1 - 1);
            assert(window_at(shape, corner));
            assert(outcome[corner] is Some);
            let k = choose|k: int| 0 <= k < corners.len() && corners[k] == corner;
            assert(order[k] == p);
        }
        assert(order.no_duplicates()) by {
            assert forall|i: int, j: int|
                0 <= i < order.len() && 0 <= j < order.len() && i != j implies order[i]
                != order[j] by {
                assert(corners[i] != corners[j]);
            }
        }
        assert(is_merger_order(colours, shape, mergers, order));
    }
    res
}

/// Gives each pixel the entry of the map at its colour.
pub fn recolour(canvas: &mut Canvas, colour_map: Vec<usize>)
    requires
        forall|p: (int, int)| #[trigger]
            old(canvas)@.dom().contains(p) ==> old(canvas)@[p] < colour_map@.len(),
    ensures
        final(canvas).shape() == old(canvas).shape(),
        final(canvas)@.dom() == old(canvas)@.dom(),
        forall|p: (int, int)|
            #![trigger final(canvas)@[p]]
            old(canvas)@.dom().contains(p) ==> final(canvas)@[p] == colour_map@[old(
                canvas,
            )@[p] as int],
{
    let look_up = |colour: usize| -> (res: usize)
        requires
            colour < colour_map@.len(),
        ensures
            res == colour_map@[colour as int],
        { colour_map[colour] };
    canvas.map_pixels(look_up);
}

/// The map of the colours up to `last` that takes each one to itself.
pub fn identity_map(last: usize) -> (map: Vec<usize>)
    requires
        last < usize::MAX,
    ensures
        map@ == Seq::new((last + 1) as nat, |c: int| c as usize),
{
    let mut map: Vec<usize> = Vec::new();
    for c in 0..last + 1
        invariant
            map@ == Seq::new(c as nat, |c: int| c as usize),
    {
        map.push(c);
    }
    map
}

/// The colours that are linked by what meets at the pixels between lakes are those
/// that are linked by lakes that touch.
pub proof fn lemma_mergers_link_touching(
    colours: Map<(int, int), usize>,
    shape: (nat, nat),
    mergers: Seq<Seq<usize>>,
    a: usize,
    b: usize,
)
    requires
        lists_mergers(colours, shape, mergers),
    ensures
        joined(together(mergers), a, b) <==> joined(touching(colours, shape), a, b),
{
    let order = choose|order: Seq<(int, int)>| is_merger_order(colours, shape, mergers, order);
    let r = together(mergers);
    let s = touching(colours, shape);
    if joined(r, a, b) {
        assert forall|x: usize, y: usize| #[trigger] r(x, y) implies joined(s, x, y) by {
            let k = choose|k: int|
                0 <= k < mergers.len() && (#[trigger] mergers[k]).contains(x)
                    && mergers[k].contains(y);
            let p = order[k];
            let own = colours[p];
            assert(is_border(colours, shape, p));
            assert(meets_at(colours, p, x) && meets_at(colours, p, y));
            lemma_joined_self(s, own);
            if x != own {
                let q = choose|q: (int, int)| #[trigger] adjacent(p, q) && colours[q] == x;
                assert(adjacent(q, p));
                assert(s(x, own));
                lemma_joined_once(s, x, own);
            }
            if y != own {
                let q = choose|q: (int, int)| #[trigger] adjacent(p, q) && colours[q] == y;
                assert(s(own, y));
                lemma_joined_step(s, x, own, y);
            }
        }
        lemma_joined_refines(r, s, a, b);
    }
    if joined(s, a, b) {
        assert forall|x: usize, y: usize| #[trigger] s(x, y) implies joined(r, x, y) by {
            if x == y {
                lemma_joined_self(r, x);
            } else {
                let (p, q) = choose|p: (int, int), q: (int, int)|
                    {
                        &&& #[trigger] adjacent(p, q)
                        &&& interior(shape, p) || interior(shape, q)
                        &&& colours[p] == x
                        &&& colours[q] == y
                    };
                assert(adjacent(q, p));
                let at = if interior(shape, p) {
                    p
                } else {
                    q
                };
                if interior(shape, p) {
                    assert(borders_colour(colours, p, y));
                } else {
                    assert(borders_colour(colours, q, x));
                }
                assert(is_border(colours, shape, at));
                let k = choose|k: int| 0 <= k < order.len() && order[k] == at;
                assert(is_border(colours, shape, order[k]));
                assert(mergers[k].contains(x) && mergers[k].contains(y));
                assert(r(x, y));
                lemma_joined_once(r, x, y);
            }
        }
        lemma_joined_refines(s, r, a, b);
    }
}

/// Merges the lakes that touch: each lake takes the least colour of those that it is
/// linked to. The colours of the canvas go up to `last`.
pub fn merge_touching(canvas: &mut Canvas, last: usize)
    requires
        last < usize::MAX,
        forall|p: (int, int)| #[trigger]
            old(canvas)@.dom().contains(p) ==> old(canvas)@[p] <= last,
    ensures
        final(canvas).shape() == old(canvas).shape(),
        merges(old(canvas)@, final(canvas)@, old(canvas).shape()),
{
    let _ = canvas.dim();
    let ghost colours = canvas@;
    let ghost shape = canvas.shape();
    let to_merge = find_merge(canvas);
    let num_mergers: usize = to_merge.len();
    let ghost mergers = lists(to_merge@);
    proof {
        let order = choose|order: Seq<(int, int)>| is_merger_order(colours, shape, mergers, order);
        assert forall|c: usize| #[trigger] mentioned(mergers, c) implies c <= last by {
            let k = choose|k: int| 0 <= k < mergers.len() && (#[trigger] mergers[k]).contains(c);
            let p = order[k];
            assert(is_border(colours, shape, p) && meets_at(colours, p, c));
            assert(on_grid(shape, p));
            assert(colours.dom().contains(p));
            if colours[p] != c {
                let q = choose|q: (int, int)| #[trigger] adjacent(p, q) && colours[q] == c;
                assert(on_grid(shape, q));
                assert(colours.dom().contains(q));
            }
        }
    }
    let mut colour_map = identity_map(last);
    let ghost base = colour_map@;
    make_colour_map(&mut colour_map, to_merge);
    proof {
        assert forall|c: usize| c <= last implies is_least_joined(
            touching(colours, shape),
            c,
            #[trigger] colour_map@[c as int],
        ) by {
            let r = together(mergers);
            if !mentioned(mergers, c) {
                lemma_joined_self(r, c);
                assert forall|d: usize| #[trigger] joined(r, c, d) implies c <= d by {
                    let inv = |x: usize| x == c;
                    assert forall|x: usize, y: usize| inv(x) && #[trigger] r(x, y) implies inv(
                        y,
                    ) by {
                        assert(shares(mergers, c, y));
                    }
                    lemma_joined_keeps(r, inv, c, d);
                }
            }
            let least = colour_map@[c as int];
            assert(is_least_joined(r, c, least));
            lemma_mergers_link_touching(colours, shape, mergers, c, least);
            assert forall|d: usize| #[trigger] joined(touching(colours, shape), c, d) implies least
                <= d by {
                lemma_mergers_link_touching(colours, shape, mergers, c, d);
            }
        }
        if num_mergers == 0 {
            assert forall|p: (int, int)|
                #![trigger canvas@[p]]
                colours.dom().contains(p) implies is_least_joined(
                touching(colours, shape),
                colours[p],
                canvas@[p],
            ) by {
                let c = colours[p];
                assert(colour_map@[c as int] == c);
            }
        }
    }
    if num_mergers > 0 {
        recolour(canvas, colour_map);
    }
}

} // verus!
