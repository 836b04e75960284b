//! The pixels around a pixel.

use crate::grid::pos;
use vstd::prelude::*;

verus! {

/// The two pixels share an edge.
pub open spec fn adjacent(p: (int, int), q: (int, int)) -> bool {
    ||| q == (p.0 + 1, p.1)
    ||| q == (p.0, p.1 + 1)
    ||| q == (p.0, p.1 - 1)
    ||| q == (p.0 - 1, p.1)
}

/// The two pixels share an edge or a corner.
pub open spec fn surrounds(p: (int, int), q: (int, int)) -> bool {
    ||| adjacent(p, q)
    ||| q == (p.0 + 1, p.1 + 1)
    ||| q == (p.0 + 1, p.1 - 1)
    ||| q == (p.0 - 1, p.1 + 1)
    ||| q == (p.0 - 1, p.1 - 1)
}

/// The eight places around `p`.
pub open spec fn around_8con(p: (int, int)) -> Seq<(int, int)> {
    seq![
        (p.0 + 1, p.1),
        (p.0 + 1, p.1 + 1),
        (p.0 + 1, p.1 - 1),
        (p.0, p.1 + 1),
        (p.0, p.1 - 1),
        (p.0 - 1, p.1),
        (p.0 - 1, p.1 + 1),
        (p.0 - 1, p.1 - 1),
    ]
}

/// The four places that share an edge with `p`.
pub open spec fn around_4con(p: (int, int)) -> Seq<(int, int)> {
    seq![(p.0 + 1, p.1), (p.0, p.1 + 1), (p.0, p.1 - 1), (p.0 - 1, p.1)]
}

/// The place has no negative index.
pub open spec fn is_index(p: (int, int)) -> bool {
    0 <= p.0 && 0 <= p.1
}

/// The positions that pairs of indices denote.
pub open spec fn positions(at: Seq<(usize, usize)>) -> Seq<(int, int)> {
    Seq::new(at.len(), |k: int| pos(at[k]))
}

/// The places among `around` that have no negative index, in the same order.
fn keep_indices(around: &[(isize, isize)]) -> (res: Vec<(usize, usize)>)
    ensures
        positions(res@) == Seq::new(
            around@.len(),
            |k: int| (around@[k].0 as int, around@[k].1 as int),
        ).filter(|p: (int, int)| is_index(p)),
{
    let ghost all = Seq::new(
        around@.len(),
        |k: int| (around@[k].0 as int, around@[k].1 as int),
    );
    let ghost keep = |p: (int, int)| is_index(p);
    let mut res: Vec<(usize, usize)> = Vec::new();
    proof {
        reveal(Seq::filter);
        assert(all.take(0).filter(keep) =~= Seq::empty());
        assert(positions(res@) =~= Seq::empty());
    }
    for k in 0..around.len()
        invariant
            all == Seq::new(
                around@.len(),
                |k: int| (around@[k].0 as int, around@[k].1 as int),
            ),
            keep == (|p: (int, int)| is_index(p)),
            positions(res@) == all.take(k as int).filter(keep),
    {
        let (x, y): (isize, isize) = around[k];
        let ghost before = res@;
        proof {
            reveal(Seq::filter);
            assert(all.take(k + 1).drop_last() =~= all.take(k as int));
            assert(all.take(k + 1).last() == (x as int, y as int));
        }
        if x >= 0 && y >= 0 {
            res.push((x as usize, y as usize));
            assert(positions(res@) =~= positions(before).push((x as int, y as int)));
        }
    }
    assert(all.take(all.len() as int) =~= all);
    res
}

/// The neighbours of a pixel that share an edge or a corner with it, without those
/// that would have a negative index.
pub fn neighbours_8con(index: &(usize, usize)) -> (res: Vec<(usize, usize)>)
    requires
        index.0 < isize::MAX,
        index.1 < isize::MAX,
    ensures
        positions(res@) == around_8con(pos(*index)).filter(|p: (int, int)| is_index(p)),
{
    let (x, y): (isize, isize) = (index.0 as isize, index.1 as isize);
    let around: [(isize, isize); 8] = [
        (x + 1, y),
        (x + 1, y + 1),
        (x + 1, y - 1),
        (x, y + 1),
        (x, y - 1),
        (x - 1, y),
        (x - 1, y + 1),
        (x - 1, y - 1),
    ];
    let res = keep_indices(&around);
    assert(Seq::new(8, |k: int| (around@[k].0 as int, around@[k].1 as int)) =~= around_8con(
        pos(*index),
    ));
    res
}

/// The neighbours of a pixel that share an edge with it, without those that would
/// have a negative index.
pub fn neighbours_4con(index: &(usize, usize)) -> (res: Vec<(usize, usize)>)
    requires
        index.0 < isize::MAX,
        index.1 < isize::MAX,
    ensures
        positions(res@) == around_4con(pos(*index)).filter(|p: (int, int)| is_index(p)),
{
    let (x, y): (isize, isize) = (index.0 as isize, index.1 as isize);
    let around: [(isize, isize); 4] = [(x + 1, y), (x, y + 1), (x, y - 1), (x - 1, y)];
    let res = keep_indices(&around);
    assert(Seq::new(4, |k: int| (around@[k].0 as int, around@[k].1 as int)) =~= around_4con(
        pos(*index),
    ));
    res
}

} // verus!
