//! Grey levels, and where an image has its minima.

use crate::flooding::interior;
use crate::grid::{cells, gathered, level_outcome, pos, window_at, Image};
use crate::neighbours::surrounds;
use crate::transform::Watershed;
use crate::window::{cell, outer_cells, outer_values, MID};
use vstd::prelude::*;

verus! {

/// The greatest level of a pixel that can be flooded.
pub const NORMAL_MAX: u8 = 254;

/// The level of a pixel that is flooded from the start.
pub const ALWAYS_FILL: u8 = 0;

/// The level of a pixel that is never flooded.
pub const NEVER_FILL: u8 = 255;

/// The level of a sample of an image. `scaled` is the level of a finite number, scaled to
/// the range of normal levels; there is none for other samples. Negative infinity is
/// always filled; positive infinity and what is no number are never.
pub fn sample_level(scaled: Option<u8>, is_infinite: bool, is_negative: bool) -> (level: u8)
    ensures
        level == match scaled {
            Some(scaled) => scaled,
            None => if is_infinite && is_negative {
                ALWAYS_FILL
            } else {
                NEVER_FILL
            },
        },
{
    match scaled {
        Some(scaled) => scaled,
        None => if is_infinite && is_negative {
            ALWAYS_FILL
        } else {
            NEVER_FILL
        },
    }
}

/// The pixel is lower than the eight around it.
pub open spec fn is_local_minimum(
    levels: Map<(int, int), u8>,
    shape: (nat, nat),
    p: (int, int),
) -> bool {
    &&& interior(shape, p)
    &&& forall|q: (int, int)| #[trigger] surrounds(p, q) ==> levels[p] < levels[q]
}

/// `minima` lists each local minimum once.
pub open spec fn lists_minima(
    levels: Map<(int, int), u8>,
    shape: (nat, nat),
    minima: Seq<(usize, usize)>,
) -> bool {
    &&& minima.no_duplicates()
    &&& forall|k: int|
        0 <= k < minima.len() ==> is_local_minimum(levels, shape, pos(#[trigger] minima[k]))
    &&& forall|p: (int, int)| #[trigger]
        is_local_minimum(levels, shape, p) ==> exists|k: int|
            0 <= k < minima.len() && pos(#[trigger] minima[k]) == p
}

/// The centre of a window is lower than the values around it.
pub open spec fn is_window_minimum(window: Seq<u8>) -> bool {
    forall|i: int| 0 <= i < 8 ==> window[4] < #[trigger] outer_cells(window)[i]
}

/// Whether the centre of a window is lower than the values around it.
pub fn window_minimum(window: &Vec<u8>) -> (res: bool)
    requires
        window@.len() == 9,
    ensures
        res == is_window_minimum(window@),
{
    let target: u8 = cell(window, MID);
    let values = outer_values(window);
    for i in 0..values.len()
        invariant
            values@ == outer_cells(window@),
            target == window@[4],
            forall|j: int| 0 <= j < i ==> target < #[trigger] values@[j],
    {
        if values[i] <= target {
            assert(!(window@[4] < outer_cells(window@)[i as int]));
            return false;
        }
    }
    true
}

proof fn lemma_window_minimum(levels: Map<(int, int), u8>, shape: (nat, nat), corner: (int, int))
    requires
        window_at(shape, corner),
    ensures
        is_window_minimum(cells(levels, corner)) == is_local_minimum(
            levels,
            shape,
            (corner.0 + 1, corner.1 + 1),
        ),
{
    let p = (corner.0 + 1, corner.1 + 1);
    let window = cells(levels, corner);
    let outer = outer_cells(window);
    assert(window[4] == levels[p]);
    let places = crate::neighbours::around_8con(p);
    assert forall|i: int| 0 <= i < 8 implies #[trigger] outer[i] == levels[places[i]] && surrounds(
        p,
        places[i],
    ) by {}
    if is_window_minimum(window) {
        assert forall|q: (int, int)| #[trigger] surrounds(p, q) implies levels[p] < levels[q] by {
            assert(q == places[0] || q == places[1] || q == places[2] || q == places[3] || q
                == places[4] || q == places[5] || q == places[6] || q == places[7]);
            assert(outer[0] > levels[p] && outer[1] > levels[p] && outer[2] > levels[p] && outer[3]
                > levels[p] && outer[4] > levels[p] && outer[5] > levels[p] && outer[6] > levels[p]
                && outer[7] > levels[p]);
        }
    }
}

/// Helpers around a transform.
pub trait WatershedUtils {
    /// Finds the pixels that are lower than their surroundings, which make good seeds.
    /// They come in an order that is not specified.
    fn find_local_minima(&self, img: &Image) -> (res: Vec<(usize, usize)>)
        ensures
            lists_minima(img@, img.shape(), res@),
    {
        let _ = img.dim();
        let ghost shape = img.shape();
        let decide = |at: (usize, usize), v: Vec<u8>| -> (res: Option<(usize, usize)>)
            requires
                at.0 < usize::MAX,
                at.1 < usize::MAX,
                v@.len() == 9,
            ensures
                res is Some <==> is_window_minimum(v@),
                res matches Some(px) ==> px == (((at.0 + 1) as usize), ((at.1 + 1) as usize)),
            {
                if window_minimum(&v) {
                    Some((at.0 + 1, at.1 + 1))
                } else {
                    None
                }
            };
        let res = img.filter_map_windows(decide);
        proof {
            let (outcome, order) = choose|
                outcome: Map<(int, int), Option<(usize, usize)>>,
                order: Seq<(int, int)>,
            |
                {
                    &&& #[trigger] gathered(res@, shape, outcome, order)
                    &&& forall|p: (int, int)|
                        window_at(shape, p) ==> level_outcome(
                            img@,
                            decide,
                            p,
                            #[trigger] outcome[p],
                        )
                };
            assert forall|corner: (int, int)| window_at(shape, corner) implies {
                let p = (corner.0 + 1, corner.1 + 1);
                &&& (#[trigger] outcome[corner]) is Some <==> is_local_minimum(img@, shape, p)
                &&& outcome[corner] matches Some(px) ==> pos(px) == p
            } by {
                assert(level_outcome(img@, decide, corner, outcome[corner]));
                lemma_window_minimum(img@, shape, corner);
            }
            assert forall|k: int| 0 <= k < res@.len() implies is_local_minimum(
                img@,
                shape,
                pos(#[trigger] res@[k]),
            ) by {
                assert(outcome[order[k]] == Some(res@[k]));
            }
            assert forall|i: int, j: int|
                0 <= i < res@.len() && 0 <= j < res@.len() && i != j implies res@[i] != res@[j] by {
                assert(outcome[order[i]] == Some(res@[i]));
                assert(outcome[order[j]] == Some(res@[j]));
                assert(order[i] != order[j]);
            }
            assert forall|p: (int, int)| #[trigger] is_local_minimum(img@, shape, p) implies exists|
                k: int,
            |
                0 <= k < res@.len() && pos(#[trigger] res@[k]) == p by {
                let corner = (p.0 - 1, p.1 - 1);
                assert(window_at(shape, corner));
                assert(outcome[corner] is Some);
                let k = choose|k: int| 0 <= k < order.len() && order[k] == corner;
                assert(outcome[order[k]] == Some(res@[k]));
                assert(pos(res@[k]) == p);
            }
        }
        res
    }
}

impl WatershedUtils for dyn Watershed {

}

} // verus!
