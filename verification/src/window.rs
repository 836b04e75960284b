//! Three by three windows, as lists of nine values row by row.

use crate::grid::pos;
use crate::neighbours::{
    around_4con, around_8con, is_index, neighbours_4con, neighbours_8con, positions,
};
use vstd::prelude::*;

verus! {

/// The index of the centre of a window.
pub const MID: (usize, usize) = (1, 1);

/// The four values of a window that share an edge with its centre.
pub open spec fn edge_cells<T>(window: Seq<T>) -> Seq<T> {
    seq![window[7], window[5], window[3], window[1]]
}

/// The eight values of a window around its centre.
pub open spec fn outer_cells<T>(window: Seq<T>) -> Seq<T> {
    seq![
        window[7],
        window[8],
        window[6],
        window[5],
        window[3],
        window[1],
        window[2],
        window[0],
    ]
}

proof fn lemma_filter_keeps_all<T>(s: Seq<T>, keep: spec_fn(T) -> bool)
    requires
        forall|i: int| 0 <= i < s.len() ==> keep(#[trigger] s[i]),
    ensures
        s.filter(keep) == s,
    decreases s.len(),
{
    reveal(Seq::filter);
    if s.len() > 0 {
        let init = s.drop_last();
        assert forall|i: int| 0 <= i < init.len() implies keep(#[trigger] init[i]) by {
            assert(init[i] == s[i]);
        }
        lemma_filter_keeps_all(init, keep);
        assert(s =~= init.push(s.last()));
    } else {
        assert(s.filter(keep) =~= s);
    }
}

/// The value of a window at an index.
pub fn cell<T: Copy>(window: &Vec<T>, at: (usize, usize)) -> (res: T)
    requires
        window@.len() == 9,
        at.0 < 3,
        at.1 < 3,
    ensures
        res == window@[3 * at.0 + at.1],
{
    window[3 * at.0 + at.1]
}

/// The values of a window at a list of indices.
fn cells_at<T: Copy>(window: &Vec<T>, indices: &Vec<(usize, usize)>) -> (res: Vec<T>)
    requires
        window@.len() == 9,
        forall|k: int|
            0 <= k < indices@.len() ==> (#[trigger] indices@[k]).0 < 3 && indices@[k].1 < 3,
    ensures
        res@ == Seq::new(
            indices@.len(),
            |k: int| window@[3 * indices@[k].0 + indices@[k].1],
        ),
{
    let mut res: Vec<T> = Vec::new();
    for k in 0..indices.len()
        invariant
            window@.len() == 9,
            forall|k: int|
                0 <= k < indices@.len() ==> (#[trigger] indices@[k]).0 < 3 && indices@[k].1 < 3,
            res@ == Seq::new(
                k as nat,
                |k: int| window@[3 * indices@[k].0 + indices@[k].1],
            ),
    {
        res.push(cell(window, indices[k]));
    }
    res
}

/// The four values of a window that share an edge with its centre.
pub fn edge_values<T: Copy>(window: &Vec<T>) -> (res: Vec<T>)
    requires
        window@.len() == 9,
    ensures
        res@ == edge_cells(window@),
{
    let indices = neighbours_4con(&MID);
    proof {
        let around = around_4con((1, 1));
        lemma_filter_keeps_all(around, |p: (int, int)| is_index(p));
        assert(pos(MID) == (1int, 1int));
        assert forall|k: int| 0 <= k < indices@.len() implies pos(#[trigger] indices@[k])
            == around[k] by {
            assert(positions(indices@)[k] == around[k]);
        }
        assert(indices@.len() == positions(indices@).len());
        assert(indices@.len() == 4);
        assert(pos(indices@[0]) == (2int, 1int));
        assert(pos(indices@[1]) == (1int, 2int));
        assert(pos(indices@[2]) == (1int, 0int));
        assert(pos(indices@[3]) == (0int, 1int));
    }
    cells_at(window, &indices)
}

/// The eight values of a window around its centre.
pub fn outer_values<T: Copy>(window: &Vec<T>) -> (res: Vec<T>)
    requires
        window@.len() == 9,
    ensures
        res@ == outer_cells(window@),
{
    let indices = neighbours_8con(&MID);
    proof {
        let around = around_8con((1, 1));
        lemma_filter_keeps_all(around, |p: (int, int)| is_index(p));
        assert(pos(MID) == (1int, 1int));
        assert forall|k: int| 0 <= k < indices@.len() implies pos(#[trigger] indices@[k])
            == around[k] by {
            assert(positions(indices@)[k] == around[k]);
        }
        assert(indices@.len() == positions(indices@).len());
        assert(indices@.len() == 8);
        assert(pos(indices@[0]) == (2int, 1int));
        assert(pos(indices@[1]) == (2int, 2int));
        assert(pos(indices@[2]) == (2int, 0int));
        assert(pos(indices@[3]) == (1int, 2int));
        assert(pos(indices@[4]) == (1int, 0int));
        assert(pos(indices@[5]) == (0int, 1int));
        assert(pos(indices@[6]) == (0int, 2int));
        assert(pos(indices@[7]) == (0int, 0int));
    }
    cells_at(window, &indices)
}

} // verus!
