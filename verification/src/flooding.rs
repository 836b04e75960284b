//! Flooding: the water of a lake spreads to the pixels next to it that lie at or
//! below the water level.
//!
//! Only pixels that have all of their neighbours, those inside the outermost ring of
//! the grid, are ever filled. Where water of several colours meets a pixel at once,
//! chance decides which colour it takes.

use crate::grid::{cells, gathered, grid, on_grid, pos, window_at, Canvas, Image};
use crate::grid::paired_outcome;
use crate::lakes::{lake, lake_size, lemma_grid_size, UNCOLOURED};
use crate::neighbours::adjacent;
use crate::random::{draw, drawn};
use crate::window::{cell, edge_cells, edge_values, MID};
use vstd::prelude::*;
use vstd::set_lib::*;

verus! {

/// The pixel is not in the outermost ring of the grid.
pub open spec fn interior(shape: (nat, nat), p: (int, int)) -> bool {
    1 <= p.0 && p.0 + 1 < shape.0 && 1 <= p.1 && p.1 + 1 < shape.1
}

/// Some pixel next to `p` has this colour, and it is the colour of water.
pub open spec fn borders_colour(
    colours: Map<(int, int), usize>,
    p: (int, int),
    colour: usize,
) -> bool {
    colour != UNCOLOURED && exists|q: (int, int)| #[trigger] adjacent(p, q) && colours[q] == colour
}

/// Some pixel next to `p` is under water.
pub open spec fn borders_water(colours: Map<(int, int), usize>, p: (int, int)) -> bool {
    exists|q: (int, int)| #[trigger] adjacent(p, q) && colours[q] != UNCOLOURED
}

/// The colours of the four pixels that share an edge with `p`: below, right, left, above.
pub open spec fn colours_around(colours: Map<(int, int), usize>, p: (int, int)) -> Seq<usize> {
    seq![
        colours[(p.0 + 1, p.1)],
        colours[(p.0, p.1 + 1)],
        colours[(p.0, p.1 - 1)],
        colours[(p.0 - 1, p.1)],
    ]
}

/// The colour that a pixel between these colours takes: the one that they all are, or
/// else the one that a draw points at.
pub open spec fn is_choice(neighbours: Seq<usize>, colour: usize) -> bool {
    &&& neighbours.len() > 0
    &&& if is_uniform(neighbours) {
        colour == neighbours[0]
    } else {
        exists|d: usize|
            {
                &&& #[trigger] drawn(neighbours.len() as usize, d)
                &&& d < neighbours.len()
                &&& colour == neighbours[d as int]
            }
    }
}

/// The colour is that of the water next to `p`, or a draw between the colours of it.
pub open spec fn takes_colour(
    colours: Map<(int, int), usize>,
    p: (int, int),
    colour: usize,
) -> bool {
    borders_colour(colours, p, colour) && is_choice(coloured(colours_around(colours, p)), colour)
}

/// Water at level `lvl` flows onto `p` next: the pixel lies at or below the level, has
/// no colour yet and borders water.
pub open spec fn fillable(
    levels: Map<(int, int), u8>,
    colours: Map<(int, int), usize>,
    shape: (nat, nat),
    lvl: u8,
    p: (int, int),
) -> bool {
    &&& interior(shape, p)
    &&& levels[p] <= lvl
    &&& colours[p] == UNCOLOURED
    &&& borders_water(colours, p)
}

/// `px` lists each pixel that water flows onto next, once, with the colour that it takes.
pub open spec fn lists_fillable(
    levels: Map<(int, int), u8>,
    colours: Map<(int, int), usize>,
    shape: (nat, nat),
    lvl: u8,
    px: Seq<((usize, usize), usize)>,
) -> bool {
    &&& forall|k: int|
        #![trigger px[k]]
        0 <= k < px.len() ==> fillable(levels, colours, shape, lvl, pos(px[k].0))
            && takes_colour(colours, pos(px[k].0), px[k].1)
    &&& forall|j: int, k: int| 0 <= j < k < px.len() ==> px[j].0 != px[k].0
    &&& forall|p: (int, int)| #[trigger]
        fillable(levels, colours, shape, lvl, p) ==> exists|k: int|
            0 <= k < px.len() && pos((#[trigger] px[k]).0) == p
}

/// One round of flooding: each pixel that water flows onto takes a colour from next to it,
/// and the others keep theirs.
pub open spec fn fills_once(
    levels: Map<(int, int), u8>,
    before: Map<(int, int), usize>,
    after: Map<(int, int), usize>,
    shape: (nat, nat),
    lvl: u8,
) -> bool {
    &&& after.dom() == before.dom()
    &&& forall|p: (int, int)|
        #![trigger after[p]]
        before.dom().contains(p) ==> if fillable(levels, before, shape, lvl, p) {
            takes_colour(before, p, after[p])
        } else {
            after[p] == before[p]
        }
}

/// The canvases of `trace` are rounds of flooding, from `before` to `after`.
pub open spec fn is_flood_trace(
    levels: Map<(int, int), u8>,
    before: Map<(int, int), usize>,
    after: Map<(int, int), usize>,
    shape: (nat, nat),
    lvl: u8,
    trace: Seq<Map<(int, int), usize>>,
) -> bool {
    &&& trace.len() > 0
    &&& trace[0] == before
    &&& trace[trace.len() - 1] == after
    &&& forall|i: int|
        0 <= i < trace.len() - 1 ==> fills_once(
            levels,
            #[trigger] trace[i],
            trace[i + 1],
            shape,
            lvl,
        )
}

/// Rounds of flooding lead from `before` to `after`, and no pixel is left that water
/// flows onto.
pub open spec fn floods(
    levels: Map<(int, int), u8>,
    before: Map<(int, int), usize>,
    after: Map<(int, int), usize>,
    shape: (nat, nat),
    lvl: u8,
) -> bool {
    &&& exists|trace: Seq<Map<(int, int), usize>>|
        is_flood_trace(levels, before, after, shape, lvl, trace)
    &&& forall|p: (int, int)| !#[trigger] fillable(levels, after, shape, lvl, p)
}

/// What holds of the canvas before a flood and is kept by each round holds after it.
pub proof fn lemma_floods_keep(
    levels: Map<(int, int), u8>,
    before: Map<(int, int), usize>,
    after: Map<(int, int), usize>,
    shape: (nat, nat),
    lvl: u8,
    inv: spec_fn(Map<(int, int), usize>) -> bool,
)
    requires
        floods(levels, before, after, shape, lvl),
        inv(before),
        forall|c: Map<(int, int), usize>, d: Map<(int, int), usize>|
            inv(c) && #[trigger] fills_once(levels, c, d, shape, lvl) ==> inv(d),
    ensures
        inv(after),
{
    let trace = choose|trace: Seq<Map<(int, int), usize>>|
        is_flood_trace(levels, before, after, shape, lvl, trace);
    lemma_trace_keeps(levels, before, after, shape, lvl, trace, inv, trace.len() - 1);
}

proof fn lemma_trace_keeps(
    levels: Map<(int, int), u8>,
    before: Map<(int, int), usize>,
    after: Map<(int, int), usize>,
    shape: (nat, nat),
    lvl: u8,
    trace: Seq<Map<(int, int), usize>>,
    inv: spec_fn(Map<(int, int), usize>) -> bool,
    i: int,
)
    requires
        is_flood_trace(levels, before, after, shape, lvl, trace),
        inv(before),
        forall|c: Map<(int, int), usize>, d: Map<(int, int), usize>|
            inv(c) && #[trigger] fills_once(levels, c, d, shape, lvl) ==> inv(d),
        0 <= i < trace.len(),
    ensures
        inv(trace[i]),
    decreases i,
{
    if i > 0 {
        lemma_trace_keeps(levels, before, after, shape, lvl, trace, inv, i - 1);
        assert(fills_once(levels, trace[i - 1], trace[i - 1 + 1], shape, lvl));
    }
}

/// Water flows onto the centre of a window.
pub open spec fn window_fills(window: Seq<usize>, levels: Seq<u8>, lvl: u8) -> bool {
    &&& levels[4] <= lvl
    &&& window[4] == UNCOLOURED
    &&& exists|i: int| 0 <= i < 4 && #[trigger] edge_cells(window)[i] != UNCOLOURED
}

/// The colours of water among the values.
pub open spec fn coloured(values: Seq<usize>) -> Seq<usize> {
    values.filter(|c: usize| c != UNCOLOURED)
}

/// All values of the list are the same.
pub open spec fn is_uniform(values: Seq<usize>) -> bool {
    forall|i: int| 0 <= i < values.len() ==> #[trigger] values[i] == values[0]
}

/// The colours of water are the values other than [`UNCOLOURED`].
pub proof fn lemma_coloured(values: Seq<usize>, c: usize)
    ensures
        coloured(values).contains(c) <==> c != UNCOLOURED && values.contains(c),
    decreases values.len(),
{
    reveal(Seq::filter);
    if values.len() > 0 {
        let init = values.drop_last();
        lemma_coloured(init, c);
        assert(values =~= init.push(values.last()));
        if values.last() != UNCOLOURED {
            assert(coloured(values) == coloured(init).push(values.last()));
            if coloured(values).contains(c) {
                let i = choose|i: int| 0 <= i < coloured(values).len() && coloured(values)[i] == c;
                if i < coloured(init).len() {
                    assert(coloured(init)[i] == c);
                }
            }
            if coloured(init).contains(c) {
                let i = choose|i: int| 0 <= i < coloured(init).len() && coloured(init)[i] == c;
                assert(coloured(values)[i] == c);
            }
            assert(coloured(values)[coloured(init).len() as int] == values.last());
        }
        if values.contains(c) {
            let i = choose|i: int| 0 <= i < values.len() && values[i] == c;
            if i < init.len() {
                assert(init[i] == c);
            }
        }
        if init.contains(c) {
            let i = choose|i: int| 0 <= i < init.len() && init[i] == c;
            assert(values[i] == c);
        }
        assert(values[values.len() - 1] == values.last());
    }
}

/// The colours of water next to the centre of a window.
pub fn coloured_neighbours(window: &Vec<usize>) -> (res: Vec<usize>)
    requires
        window@.len() == 9,
    ensures
        res@ == coloured(edge_cells(window@)),
{
    let values = edge_values(window);
    let mut res: Vec<usize> = Vec::new();
    proof {
        reveal(Seq::filter);
        assert(coloured(values@.take(0)) =~= Seq::empty());
    }
    for k in 0..values.len()
        invariant
            res@ == coloured(values@.take(k as int)),
    {
        proof {
            reveal(Seq::filter);
            assert(values@.take(k + 1).drop_last() =~= values@.take(k as int));
        }
        if values[k] != UNCOLOURED {
            res.push(values[k]);
        }
    }
    assert(values@.take(values@.len() as int) =~= values@);
    res
}

/// Whether all values of the list are the same.
fn all_same(values: &Vec<usize>) -> (res: bool)
    ensures
        res == is_uniform(values@),
{
    for i in 0..values.len()
        invariant
            forall|j: int| 0 <= j < i ==> #[trigger] values@[j] == values@[0],
    {
        if values[i] != values[0] {
            return false;
        }
    }
    true
}

/// The colour that a pixel between these colours takes: the one that they all are, or
/// else the one that the draw points at.
pub fn pick_colour(neighbours: &Vec<usize>, draw: usize) -> (colour: usize)
    requires
        draw < neighbours@.len(),
    ensures
        colour == if is_uniform(neighbours@) {
            neighbours@[0]
        } else {
            neighbours@[draw as int]
        },
        colour == neighbours@[draw as int],
{
    neighbours[draw]
}

/// A colour for a pixel between these colours. Chance decides where they differ.
fn choose_colour(neighbours: &Vec<usize>) -> (colour: usize)
    requires
        neighbours@.len() > 0,
    ensures
        neighbours@.contains(colour),
        is_choice(neighbours@, colour),
{
    let at: usize = if all_same(neighbours) {
        0
    } else {
        draw(neighbours.len())
    };
    assert(neighbours@.len() as usize == neighbours.len());
    pick_colour(neighbours, at)
}

/// The colour that the centre of a window takes if water flows onto it.
pub fn window_colour(window: &Vec<usize>, levels: &Vec<u8>, lvl: u8) -> (res: Option<usize>)
    requires
        window@.len() == 9,
        levels@.len() == 9,
    ensures
        res is Some <==> window_fills(window@, levels@, lvl),
        res matches Some(colour) ==> colour != UNCOLOURED && edge_cells(window@).contains(colour),
        res matches Some(colour) ==> is_choice(coloured(edge_cells(window@)), colour),
{
    if cell(levels, MID) > lvl || cell(window, MID) != UNCOLOURED {
        return None;
    }
    let neighbours = coloured_neighbours(window);
    if neighbours.len() == 0 {
        proof {
            assert forall|i: int| 0 <= i < 4 implies #[trigger] edge_cells(window@)[i]
                == UNCOLOURED by {
                lemma_coloured(edge_cells(window@), edge_cells(window@)[i]);
            }
        }
        return None;
    }
    let colour = choose_colour(&neighbours);
    proof {
        lemma_coloured(edge_cells(window@), colour);
        let i = choose|i: int|
            0 <= i < edge_cells(window@).len() && edge_cells(window@)[i] == colour;
        assert(edge_cells(window@)[i] != UNCOLOURED);
    }
    Some(colour)
}

/// What a window says of its centre is what the canvas and the image say of it.
pub proof fn lemma_window(
    levels: Map<(int, int), u8>,
    colours: Map<(int, int), usize>,
    shape: (nat, nat),
    lvl: u8,
    corner: (int, int),
)
    requires
        window_at(shape, corner),
    ensures
        window_fills(cells(colours, corner), cells(levels, corner), lvl) == fillable(
            levels,
            colours,
            shape,
            lvl,
            (corner.0 + 1, corner.1 + 1),
        ),
        forall|c: usize|
            c != UNCOLOURED && #[trigger] edge_cells(cells(colours, corner)).contains(c)
                <==> borders_colour(colours, (corner.0 + 1, corner.1 + 1), c),
        edge_cells(cells(colours, corner)) == colours_around(
            colours,
            (corner.0 + 1, corner.1 + 1),
        ),
{
    let p = (corner.0 + 1, corner.1 + 1);
    let window = cells(colours, corner);
    let edge = edge_cells(window);
    assert(window[4] == colours[p]);
    assert(cells(levels, corner)[4] == levels[p]);
    let below = (p.0 + 1, p.1);
    let right = (p.0, p.1 + 1);
    let left = (p.0, p.1 - 1);
    let above = (p.0 - 1, p.1);
    assert(edge[0] == colours[below]);
    assert(edge[1] == colours[right]);
    assert(edge[2] == colours[left]);
    assert(edge[3] == colours[above]);
    assert(edge =~= colours_around(colours, p));
    assert(adjacent(p, below) && adjacent(p, right) && adjacent(p, left) && adjacent(p, above));
    assert forall|c: usize|
        c != UNCOLOURED && #[trigger] edge.contains(c) <==> borders_colour(colours, p, c) by {
        if borders_colour(colours, p, c) {
            let q = choose|q: (int, int)| #[trigger] adjacent(p, q) && colours[q] == c;
            assert(edge[0] == c || edge[1] == c || edge[2] == c || edge[3] == c);
        }
    }
    if borders_water(colours, p) {
        let q = choose|q: (int, int)| #[trigger] adjacent(p, q) && colours[q] != UNCOLOURED;
        assert(edge[0] == colours[q] || edge[1] == colours[q] || edge[2] == colours[q] || edge[3]
            == colours[q]);
    }
}

/// Finds the pixels that water at level `lvl` flows onto next, and a colour for each.
pub fn find_px(img: &Image, cols: &Canvas, lvl: u8) -> (res: Vec<((usize, usize), usize)>)
    requires
        img.shape() == cols.shape(),
    ensures
        lists_fillable(img@, cols@, cols.shape(), lvl, res@),
{
    let _ = cols.dim();
    let ghost shape = cols.shape();
    let decide = |at: (usize, usize), w: Vec<usize>, v: Vec<u8>| -> (res: Option<
        ((usize, usize), usize),
    >)
        requires
            at.0 < usize::MAX,
            at.1 < usize::MAX,
            w@.len() == 9,
            v@.len() == 9,
        ensures
            res is Some <==> window_fills(w@, v@, lvl),
            res matches Some(px) ==> px.0 == (((at.0 + 1) as usize), ((at.1 + 1) as usize)) && px.1
                != UNCOLOURED && edge_cells(w@).contains(px.1) && is_choice(
                coloured(edge_cells(w@)),
                px.1,
            ),
        {
            match window_colour(&w, &v, lvl) {
                Some(colour) => Some(((at.0 + 1, at.1 + 1), colour)),
                None => None,
            }
        };
    let res = cols.filter_map_windows_with(img, decide);
    proof {
        let (outcome, order) = choose|
            outcome: Map<(int, int), Option<((usize, usize), usize)>>,
            order: Seq<(int, int)>,
        |
            {
                &&& #[trigger] gathered(res@, shape, outcome, order)
                &&& forall|p: (int, int)|
                    window_at(shape, p) ==> paired_outcome(
                        cols@,
                        img@,
                        decide,
                        p,
                        #[trigger] outcome[p],
                    )
            };
        assert forall|corner: (int, int)| window_at(shape, corner) implies {
            let p = (corner.0 + 1, corner.1 + 1);
            &&& (#[trigger] outcome[corner]) is Some <==> fillable(img@, cols@, shape, lvl, p)
            &&& outcome[corner] matches Some(px) ==> pos(px.0) == p && takes_colour(
                cols@,
                p,
                px.1,
            )
        } by {
            assert(paired_outcome(cols@, img@, decide, corner, outcome[corner]));
            let (at, w, v) = choose|at: (usize, usize), w: Vec<usize>, v: Vec<u8>|
                {
                    &&& pos(at) == corner
                    &&& w@ == cells(cols@, corner)
                    &&& v@ == cells(img@, corner)
                    &&& #[trigger] call_ensures(decide, (at, w, v), outcome[corner])
                };
            lemma_window(img@, cols@, shape, lvl, corner);
        }
        assert forall|k: int|
            #![trigger res@[k]]
            0 <= k < res@.len() implies fillable(img@, cols@, shape, lvl, pos(res@[k].0))
            && takes_colour(cols@, pos(res@[k].0), res@[k].1) by {
            assert(outcome[order[k]] == Some(res@[k]));
        }
        assert forall|j: int, k: int| 0 <= j < k < res@.len() implies res@[j].0 != res@[k].0 by {
            assert(outcome[order[j]] == Some(res@[j]));
            assert(outcome[order[k]] == Some(res@[k]));
            assert(order[j] != order[k]);
        }
        assert forall|p: (int, int)| #[trigger] fillable(img@, cols@, shape, lvl, p) implies exists|
            k: int,
        |
            0 <= k < res@.len() && pos((#[trigger] res@[k]).0) == p by {
            let corner = (p.0 - 1, p.1 - 1);
            assert(window_at(shape, corner));
            assert(outcome[corner] is Some);
            let k = choose|k: int| 0 <= k < order.len() && order[k] == corner;
            assert(outcome[order[k]] == Some(res@[k]));
            assert(pos(res@[k].0) == p);
        }
    }
    res
}

/// The canvas with each pixel of the list in the colour that goes with it.
pub open spec fn paints(
    before: Map<(int, int), usize>,
    px: Seq<((usize, usize), usize)>,
    after: Map<(int, int), usize>,
) -> bool {
    &&& after.dom() == before.dom()
    &&& forall|k: int| #![trigger px[k]] 0 <= k < px.len() ==> after[pos(px[k].0)] == px[k].1
    &&& forall|p: (int, int)|
        #![trigger after[p]]
        before.dom().contains(p) && (forall|k: int|
            0 <= k < px.len() ==> pos((#[trigger] px[k]).0) != p) ==> after[p] == before[p]
}

/// Gives each pixel of the list the colour that goes with it.
pub fn colour_pixels(canvas: &mut Canvas, px: &Vec<((usize, usize), usize)>)
    requires
        forall|k: int|
            0 <= k < px@.len() ==> on_grid(old(canvas).shape(), pos((#[trigger] px@[k]).0)),
        forall|j: int, k: int| 0 <= j < k < px@.len() ==> px@[j].0 != px@[k].0,
    ensures
        final(canvas).shape() == old(canvas).shape(),
        paints(old(canvas)@, px@, final(canvas)@),
{
    let _ = canvas.dim();
    let ghost before = canvas@;
    let ghost shape = canvas.shape();
    for i in 0..px.len()
        invariant
            canvas.shape() == shape,
            before.dom() == grid(shape),
            canvas@.dom() == before.dom(),
            forall|k: int|
                0 <= k < px@.len() ==> on_grid(shape, pos((#[trigger] px@[k]).0)),
            forall|j: int, k: int| 0 <= j < k < px@.len() ==> px@[j].0 != px@[k].0,
            forall|k: int| #![trigger px@[k]] 0 <= k < i ==> canvas@[pos(px@[k].0)] == px@[k].1,
            forall|p: (int, int)|
                #![trigger canvas@[p]]
                before.dom().contains(p) && (forall|k: int|
                    0 <= k < i ==> pos((#[trigger] px@[k]).0) != p) ==> canvas@[p] == before[p],
    {
        let ghost last = canvas@;
        canvas.set(px[i].0, px[i].1);
        proof {
            assert(on_grid(shape, pos(px@[i as int].0)));
            assert(canvas@.dom() =~= before.dom());
            assert forall|p: (int, int)|
                #![trigger canvas@[p]]
                before.dom().contains(p) && (forall|k: int|
                    0 <= k < i + 1 ==> pos((#[trigger] px@[k]).0) != p) implies canvas@[p]
                == before[p] by {
                assert(pos(px@[i as int].0) != p);
                assert(last[p] == before[p]);
            }
        }
    }
}

/// A round that fills a pixel leaves fewer pixels without water.
proof fn lemma_fewer_dry(
    levels: Map<(int, int), u8>,
    before: Map<(int, int), usize>,
    after: Map<(int, int), usize>,
    shape: (nat, nat),
    lvl: u8,
    p: (int, int),
)
    requires
        before.dom() == grid(shape),
        fills_once(levels, before, after, shape, lvl),
        fillable(levels, before, shape, lvl, p),
    ensures
        lake_size(after, UNCOLOURED) < lake_size(before, UNCOLOURED),
{
    lemma_grid_size(shape);
    let dry = lake(before, UNCOLOURED);
    let still_dry = lake(after, UNCOLOURED);
    lemma_len_subset(dry, grid(shape));
    assert(dry.contains(p));
    assert(borders_colour(before, p, after[p]));
    assert(still_dry.subset_of(dry.remove(p))) by {
        assert forall|q: (int, int)| still_dry.contains(q) implies dry.remove(p).contains(q) by {
            assert(after[q] == UNCOLOURED);
        }
    }
    lemma_len_subset(still_dry, dry.remove(p));
}

/// What comes next while the water rises.
#[derive(Debug, Clone, Copy, PartialEq, Eq, Structural)]
pub enum Step {
    /// Looking for the pixels that water flows onto.
    Search,
    /// Colouring the pixels that were found.
    Colour,
    /// Merging the lakes that touch.
    Merge,
    /// Counting the lakes.
    Count,
}

/// One round of flooding at level `lvl`: fills the pixels that water flows onto, and says
/// whether there were any. `observe` is told of each step before it is taken.
pub fn flood_round_with<F: Fn(Step)>(
    img: &Image,
    canvas: &mut Canvas,
    lvl: u8,
    observe: &F,
) -> (more: bool)
    requires
        img.shape() == old(canvas).shape(),
        forall|step: Step| #[trigger] call_requires(*observe, (step,)),
    ensures
        final(canvas).shape() == old(canvas).shape(),
        fills_once(img@, old(canvas)@, final(canvas)@, old(canvas).shape(), lvl),
        more <==> exists|p: (int, int)| #[trigger]
            fillable(img@, old(canvas)@, old(canvas).shape(), lvl, p),
        !more ==> final(canvas)@ == old(canvas)@,
{
    let _ = canvas.dim();
    let ghost before = canvas@;
    let ghost shape = canvas.shape();
    (*observe)(Step::Search);
    let px = find_px(img, canvas, lvl);
    if px.len() == 0 {
        return false;
    }
    (*observe)(Step::Colour);
    colour_pixels(canvas, &px);
    proof {
        assert forall|p: (int, int)|
            #![trigger canvas@[p]]
            before.dom().contains(p) implies if fillable(img@, before, shape, lvl, p) {
            takes_colour(before, p, canvas@[p])
        } else {
            canvas@[p] == before[p]
        } by {
            if fillable(img@, before, shape, lvl, p) {
                let k = choose|k: int| 0 <= k < px@.len() && pos((#[trigger] px@[k]).0) == p;
                assert(canvas@[pos(px@[k].0)] == px@[k].1);
            } else {
                assert forall|k: int| 0 <= k < px@.len() implies pos((#[trigger] px@[k]).0)
                    != p by {}
            }
        }
        assert(fillable(img@, before, shape, lvl, pos(px@[0].0)));
    }
    true
}

/// Floods the canvas at level `lvl`: rounds of filling the pixels that water flows
/// onto, until there are none. `observe` is told of each step before it is taken.
pub fn flood_with<F: Fn(Step)>(img: &Image, canvas: &mut Canvas, lvl: u8, observe: &F)
    requires
        img.shape() == old(canvas).shape(),
        forall|step: Step| #[trigger] call_requires(*observe, (step,)),
    ensures
        final(canvas).shape() == old(canvas).shape(),
        floods(img@, old(canvas)@, final(canvas)@, final(canvas).shape(), lvl),
{
    let _ = canvas.dim();
    let ghost before = canvas@;
    let ghost shape = canvas.shape();
    let ghost mut trace = seq![canvas@];
    loop
        invariant
            img.shape() == shape,
            canvas.shape() == shape,
            canvas@.dom() == grid(shape),
            forall|step: Step| #[trigger] call_requires(*observe, (step,)),
            is_flood_trace(img@, before, canvas@, shape, lvl, trace),
        ensures
            forall|p: (int, int)| !#[trigger] fillable(img@, canvas@, shape, lvl, p),
        decreases lake_size(canvas@, UNCOLOURED),
    {
        let ghost last = canvas@;
        if !flood_round_with(img, canvas, lvl, observe) {
            break;
        }
        proof {
            let p = choose|p: (int, int)| #[trigger] fillable(img@, last, shape, lvl, p);
            lemma_fewer_dry(img@, last, canvas@, shape, lvl, p);
            let longer = trace.push(canvas@);
            assert forall|i: int| 0 <= i < longer.len() - 1 implies fills_once(
                img@,
                #[trigger] longer[i],
                longer[i + 1],
                shape,
                lvl,
            ) by {
                if i < trace.len() - 1 {
                    assert(longer[i] == trace[i] && longer[i + 1] == trace[i + 1]);
                }
            }
            trace = longer;
        }
    }
}

/// One round of flooding at level `lvl`: fills the pixels that water flows onto, and says
/// whether there were any.
pub fn flood_round(img: &Image, canvas: &mut Canvas, lvl: u8) -> (more: bool)
    requires
        img.shape() == old(canvas).shape(),
    ensures
        final(canvas).shape() == old(canvas).shape(),
        fills_once(img@, old(canvas)@, final(canvas)@, old(canvas).shape(), lvl),
        more <==> exists|p: (int, int)| #[trigger]
            fillable(img@, old(canvas)@, old(canvas).shape(), lvl, p),
        !more ==> final(canvas)@ == old(canvas)@,
{
    flood_round_with(img, canvas, lvl, &|_step: Step| {})
}

/// Floods the canvas at level `lvl`: rounds of filling the pixels that water flows
/// onto, until there are none.
pub fn flood(img: &Image, canvas: &mut Canvas, lvl: u8)
    requires
        img.shape() == old(canvas).shape(),
    ensures
        final(canvas).shape() == old(canvas).shape(),
        floods(img@, old(canvas)@, final(canvas)@, final(canvas).shape(), lvl),
{
    flood_with(img, canvas, lvl, &|_step: Step| {})
}

} // verus!
