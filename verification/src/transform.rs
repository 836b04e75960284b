//! The watershed transforms: water rises from the seeds level by level, and the sizes
//! of the lakes are counted at each level.

use crate::flooding::{
    borders_colour, fillable, fills_once, flood_with, floods, interior, lemma_floods_keep, Step,
};
use crate::grid::{canvas_fits, extent, grid, on_grid, pos, shape_of, Canvas, Image};
use crate::lakes::{count_lakes, counts_lakes, UNCOLOURED};
use crate::merging::{merge_touching, merges, touching};
use crate::neighbours::adjacent;
use crate::random::{shuffle_items, shuffled};
use crate::relation::{is_least_joined, joined, lemma_joined_self};
use vstd::prelude::*;

verus! {

/// The colours are the numbers from one to `n`, each one once, in some order.
pub open spec fn is_colouring(n: nat, colours: Seq<usize>) -> bool {
    &&& colours.len() == n
    &&& colours.no_duplicates()
    &&& forall|i: int| 0 <= i < n ==> 1 <= #[trigger] colours[i] <= n
}

/// The colours from one to `n`, in their order.
pub open spec fn colours_in_order(n: nat) -> Seq<usize> {
    Seq::new(n, |i: int| (i + 1) as usize)
}

/// Each seed has its colour and no other pixel has any. A pixel that is a seed more
/// than once has the colour of the last.
pub open spec fn is_seeded(
    shape: (nat, nat),
    seeds: Seq<(usize, usize)>,
    colours: Seq<usize>,
    canvas: Map<(int, int), usize>,
) -> bool {
    &&& canvas.dom() == grid(shape)
    &&& forall|i: int|
        #![trigger seeds[i]]
        0 <= i < seeds.len() && (forall|j: int|
            i < j < seeds.len() ==> #[trigger] seeds[j] != seeds[i]) ==> canvas[pos(seeds[i])]
            == colours[i]
    &&& forall|p: (int, int)|
        #![trigger canvas[p]]
        canvas.dom().contains(p) && (forall|i: int|
            0 <= i < seeds.len() ==> pos(#[trigger] seeds[i]) != p) ==> canvas[p] == UNCOLOURED
}

/// The water rises to `lvl`: the canvas is flooded, and then lakes that touch are
/// merged if `merging`.
pub open spec fn raises(
    levels: Map<(int, int), u8>,
    before: Map<(int, int), usize>,
    after: Map<(int, int), usize>,
    shape: (nat, nat),
    lvl: u8,
    merging: bool,
) -> bool {
    if merging {
        exists|flooded: Map<(int, int), usize>| #[trigger]
            floods(levels, before, flooded, shape, lvl) && merges(flooded, after, shape)
    } else {
        floods(levels, before, after, shape, lvl)
    }
}

/// The canvases are those of water that rises from the seeds, one for the seeds and
/// one after each level below `max`.
pub open spec fn is_rise(
    levels: Map<(int, int), u8>,
    shape: (nat, nat),
    seeds: Seq<(usize, usize)>,
    merging: bool,
    max: u8,
    colours: Seq<usize>,
    canvases: Seq<Map<(int, int), usize>>,
) -> bool {
    &&& is_colouring(seeds.len(), colours)
    &&& shuffled(colours_in_order(seeds.len()), colours)
    &&& canvases.len() == max + 1
    &&& is_seeded(shape, seeds, colours, canvases[0])
    &&& forall|l: int|
        0 <= l < max ==> raises(
            levels,
            #[trigger] canvases[l],
            canvases[l + 1],
            shape,
            l as u8,
            merging,
        )
}

/// `res` lists for each level below `max` the sizes of the lakes when the water has
/// risen to it. Entry zero is the number of pixels without water, entry `c` the size of
/// the lake of colour `c`; the entry after that of the last colour is zero.
pub open spec fn counts_rise(
    seeds: Seq<(usize, usize)>,
    max: u8,
    canvases: Seq<Map<(int, int), usize>>,
    res: Seq<(u8, Vec<usize>)>,
) -> bool {
    &&& res.len() == max
    &&& forall|l: int|
        #![trigger res[l]]
        0 <= l < max ==> res[l].0 == l && res[l].1@.len() == seeds.len() + 2 && counts_lakes(
            canvases[l + 1],
            res[l].1@,
        )
}

/// `res` is an outcome of a watershed transform. Chance decides which seed gets which
/// colour, and which colour a pixel between lakes takes.
pub open spec fn is_watershed(
    levels: Map<(int, int), u8>,
    shape: (nat, nat),
    seeds: Seq<(usize, usize)>,
    merging: bool,
    max: u8,
    res: Seq<(u8, Vec<usize>)>,
) -> bool {
    exists|colours: Seq<usize>, canvases: Seq<Map<(int, int), usize>>|
        {
            &&& #[trigger] is_rise(levels, shape, seeds, merging, max, colours, canvases)
            &&& counts_rise(seeds, max, canvases, res)
        }
}

/// The seeds are pixels of the grid, and there are few enough of them to count lakes.
pub open spec fn seeds_fit(shape: (nat, nat), seeds: Seq<(usize, usize)>) -> bool {
    &&& seeds.len() + 2 <= usize::MAX
    &&& forall|i: int| 0 <= i < seeds.len() ==> on_grid(shape, pos(#[trigger] seeds[i]))
}

/// No colour of the canvas is above `last`.
pub open spec fn colours_up_to(canvas: Map<(int, int), usize>, last: usize) -> bool {
    forall|p: (int, int)| #[trigger] canvas.dom().contains(p) ==> canvas[p] <= last
}

/// The colours from one to `n` in an order that is left to chance.
pub fn draw_colours(n: usize) -> (colours: Vec<usize>)
    requires
        n < usize::MAX,
    ensures
        is_colouring(n as nat, colours@),
        shuffled(colours_in_order(n as nat), colours@),
{
    let mut colours: Vec<usize> = Vec::new();
    for i in 0..n
        invariant
            n < usize::MAX,
            colours@ == colours_in_order(i as nat),
    {
        colours.push(i + 1);
    }
    let ghost ordered = colours@;
    let colours = shuffle_items(colours);
    proof {
        ordered.to_multiset_ensures();
        colours@.to_multiset_ensures();
        assert(ordered.no_duplicates());
        ordered.lemma_multiset_has_no_duplicates();
        colours@.lemma_multiset_has_no_duplicates_conv();
        assert forall|i: int| 0 <= i < n implies 1 <= #[trigger] colours@[i] <= n by {
            assert(colours@.contains(colours@[i]));
            assert(ordered.to_multiset().count(colours@[i]) > 0);
            assert(ordered.contains(colours@[i]));
        }
    }
    colours
}

/// A canvas without water but for the seeds, each of which has its colour.
pub fn paint_seeds(
    dim: (usize, usize),
    seeds: &[(usize, usize)],
    colours: &Vec<usize>,
) -> (canvas: Canvas)
    requires
        extent(shape_of(dim)) <= isize::MAX,
        canvas_fits(shape_of(dim)),
        colours@.len() == seeds@.len(),
        forall|i: int|
            0 <= i < seeds@.len() ==> on_grid(shape_of(dim), pos(#[trigger] seeds@[i])),
    ensures
        canvas.shape() == shape_of(dim),
        is_seeded(shape_of(dim), seeds@, colours@, canvas@),
{
    let ghost shape = shape_of(dim);
    let mut canvas = Canvas::zeros(dim);
    assert(canvas@.dom() =~= grid(shape));
    for i in 0..seeds.len()
        invariant
            canvas.shape() == shape,
            canvas@.dom() == grid(shape),
            colours@.len() == seeds@.len(),
            forall|i: int|
                0 <= i < seeds@.len() ==> on_grid(shape, pos(#[trigger] seeds@[i])),
            forall|k: int|
                #![trigger seeds@[k]]
                0 <= k < i && (forall|j: int| k < j < i ==> #[trigger] seeds@[j] != seeds@[k])
                    ==> canvas@[pos(seeds@[k])] == colours@[k],
            forall|p: (int, int)|
                #![trigger canvas@[p]]
                canvas@.dom().contains(p) && (forall|k: int|
                    0 <= k < i ==> pos(#[trigger] seeds@[k]) != p) ==> canvas@[p] == UNCOLOURED,
    {
        let ghost before = canvas@;
        assert(on_grid(shape, pos(seeds@[i as int])));
        canvas.set(seeds[i], colours[i]);
        proof {
            assert(canvas@.dom() =~= grid(shape));
            assert forall|k: int|
                #![trigger seeds@[k]]
                0 <= k < i + 1 && (forall|j: int|
                    k < j < i + 1 ==> #[trigger] seeds@[j] != seeds@[k]) implies canvas@[pos(
                seeds@[k],
            )] == colours@[k] by {
                if k < i {
                    assert(seeds@[i as int] != seeds@[k]);
                    assert(before[pos(seeds@[k])] == colours@[k]);
                }
            }
            assert forall|p: (int, int)|
                #![trigger canvas@[p]]
                canvas@.dom().contains(p) && (forall|k: int|
                    0 <= k < i + 1 ==> pos(#[trigger] seeds@[k]) != p) implies canvas@[p]
                == UNCOLOURED by {
                assert(pos(seeds@[i as int]) != p);
                assert(before[p] == UNCOLOURED);
            }
        }
    }
    canvas
}

/// The colours of a seeded canvas are those of the seeds.
pub proof fn lemma_seeded_colours(
    shape: (nat, nat),
    seeds: Seq<(usize, usize)>,
    colours: Seq<usize>,
    canvas: Map<(int, int), usize>,
    p: (int, int),
)
    requires
        is_seeded(shape, seeds, colours, canvas),
        canvas.dom().contains(p),
    ensures
        (exists|i: int|
            0 <= i < seeds.len() && pos(#[trigger] seeds[i]) == p && canvas[p] == colours[i]) || ((
        forall|i: int| 0 <= i < seeds.len() ==> pos(#[trigger] seeds[i]) != p) && canvas[p]
            == UNCOLOURED),
{
    if exists|i: int| 0 <= i < seeds.len() && pos(#[trigger] seeds[i]) == p {
        let i = choose|i: int| 0 <= i < seeds.len() && pos(#[trigger] seeds[i]) == p;
        lemma_last_seed(seeds, p, i, seeds.len() as int);
        let last = choose|i: int|
            {
                &&& 0 <= i < seeds.len()
                &&& pos(#[trigger] seeds[i]) == p
                &&& forall|j: int| i < j < seeds.len() ==> pos(#[trigger] seeds[j]) != p
            };
        assert(canvas[pos(seeds[last])] == colours[last]);
    }
}

proof fn lemma_last_seed(seeds: Seq<(usize, usize)>, p: (int, int), i: int, end: int)
    requires
        0 <= i < end <= seeds.len(),
        pos(seeds[i]) == p,
        forall|j: int| end <= j < seeds.len() ==> pos(#[trigger] seeds[j]) != p,
    ensures
        exists|i: int|
            {
                &&& 0 <= i < seeds.len()
                &&& pos(#[trigger] seeds[i]) == p
                &&& forall|j: int| i < j < seeds.len() ==> pos(#[trigger] seeds[j]) != p
            },
    decreases end,
{
    if pos(seeds[end - 1]) != p {
        lemma_last_seed(seeds, p, i, end - 1);
    }
}

/// The colours of a seeded canvas go up to the number of seeds.
pub proof fn lemma_seeded_bounded(
    shape: (nat, nat),
    seeds: Seq<(usize, usize)>,
    colours: Seq<usize>,
    canvas: Map<(int, int), usize>,
    last: usize,
)
    requires
        is_seeded(shape, seeds, colours, canvas),
        is_colouring(seeds.len(), colours),
        last == seeds.len(),
    ensures
        colours_up_to(canvas, last),
{
    assert forall|p: (int, int)| #[trigger] canvas.dom().contains(p) implies canvas[p] <= last by {
        lemma_seeded_colours(shape, seeds, colours, canvas, p);
    }
}

/// Flooding brings no colour that was not there, so no greater one.
pub proof fn lemma_floods_bounded(
    levels: Map<(int, int), u8>,
    before: Map<(int, int), usize>,
    after: Map<(int, int), usize>,
    shape: (nat, nat),
    lvl: u8,
    last: usize,
)
    requires
        floods(levels, before, after, shape, lvl),
        before.dom() == grid(shape),
        colours_up_to(before, last),
    ensures
        after.dom() == grid(shape),
        colours_up_to(after, last),
{
    let inv = |c: Map<(int, int), usize>| c.dom() == grid(shape) && colours_up_to(c, last);
    assert forall|c: Map<(int, int), usize>, d: Map<(int, int), usize>|
        inv(c) && #[trigger] fills_once(levels, c, d, shape, lvl) implies inv(d) by {
        assert forall|p: (int, int)| #[trigger] d.dom().contains(p) implies d[p] <= last by {
            if fillable(levels, c, shape, lvl, p) {
                assert(borders_colour(c, p, d[p]));
                let q = choose|q: (int, int)| #[trigger] adjacent(p, q) && c[q] == d[p];
                assert(interior(shape, p));
                assert(c.dom().contains(q));
            } else {
                assert(c.dom().contains(p));
            }
        }
    }
    lemma_floods_keep(levels, before, after, shape, lvl, inv);
}

/// A merged colour is not above the one it comes from.
pub proof fn lemma_merges_bounded(
    before: Map<(int, int), usize>,
    after: Map<(int, int), usize>,
    shape: (nat, nat),
    last: usize,
)
    requires
        merges(before, after, shape),
        colours_up_to(before, last),
    ensures
        colours_up_to(after, last),
{
    assert forall|p: (int, int)| #[trigger] after.dom().contains(p) implies after[p] <= last by {
        assert(before.dom().contains(p));
        assert(is_least_joined(touching(before, shape), before[p], after[p]));
        lemma_joined_self(touching(before, shape), before[p]);
        assert(joined(touching(before, shape), before[p], before[p]));
    }
}

/// Raises the water on the canvas to `lvl` and counts the lakes. The colours of the
/// canvas go up to `last`. `observe` is told of each step before it is taken.
pub fn raise_with<F: Fn(Step)>(
    input: &Image,
    canvas: &mut Canvas,
    lvl: u8,
    merging: bool,
    last: usize,
    observe: &F,
) -> (sizes: Vec<usize>)
    requires
        input.shape() == old(canvas).shape(),
        last + 2 <= usize::MAX,
        colours_up_to(old(canvas)@, last),
        forall|step: Step| #[trigger] call_requires(*observe, (step,)),
    ensures
        final(canvas).shape() == old(canvas).shape(),
        colours_up_to(final(canvas)@, last),
        raises(input@, old(canvas)@, final(canvas)@, old(canvas).shape(), lvl, merging),
        sizes@.len() == last + 2,
        counts_lakes(final(canvas)@, sizes@),
{
    let _ = canvas.dim();
    let ghost before = canvas@;
    let ghost shape = canvas.shape();
    flood_with(input, canvas, lvl, observe);
    let ghost flooded = canvas@;
    proof {
        lemma_floods_bounded(input@, before, flooded, shape, lvl, last);
    }
    if merging {
        (*observe)(Step::Merge);
        merge_touching(canvas, last);
        proof {
            lemma_merges_bounded(flooded, canvas@, shape, last);
        }
    }
    (*observe)(Step::Count);
    count_lakes(canvas, last + 2)
}

/// Raises the water on the canvas to `lvl` and counts the lakes. The colours of the
/// canvas go up to `last`.
pub fn raise(
    input: &Image,
    canvas: &mut Canvas,
    lvl: u8,
    merging: bool,
    last: usize,
) -> (sizes: Vec<usize>)
    requires
        input.shape() == old(canvas).shape(),
        last + 2 <= usize::MAX,
        colours_up_to(old(canvas)@, last),
    ensures
        final(canvas).shape() == old(canvas).shape(),
        colours_up_to(final(canvas)@, last),
        raises(input@, old(canvas)@, final(canvas)@, old(canvas).shape(), lvl, merging),
        sizes@.len() == last + 2,
        counts_lakes(final(canvas)@, sizes@),
{
    raise_with(input, canvas, lvl, merging, last, &|_step: Step| {})
}

/// Lets the water rise from the seeds to each level below `max`.
fn rise(
    input: &Image,
    seeds: &[(usize, usize)],
    merging: bool,
    max: u8,
) -> (res: Vec<(u8, Vec<usize>)>)
    requires
        canvas_fits(input.shape()),
        seeds_fit(input.shape(), seeds@),
    ensures
        is_watershed(input@, input.shape(), seeds@, merging, max, res@),
{
    let dim: (usize, usize) = input.dim();
    let ghost shape = input.shape();
    let last: usize = seeds.len();
    let colours = draw_colours(last);
    let mut canvas = paint_seeds(dim, seeds, &colours);
    proof {
        lemma_seeded_bounded(shape, seeds@, colours@, canvas@, last);
    }
    let ghost mut canvases = seq![canvas@];
    let mut res: Vec<(u8, Vec<usize>)> = Vec::new();
    for lvl in 0..max
        invariant
            shape == input.shape(),
            canvas.shape() == shape,
            last == seeds@.len(),
            last + 2 <= usize::MAX,
            colours_up_to(canvas@, last),
            canvases.len() == lvl + 1,
            canvases[lvl as int] == canvas@,
            is_seeded(shape, seeds@, colours@, canvases[0]),
            forall|l: int|
                0 <= l < lvl ==> raises(
                    input@,
                    #[trigger] canvases[l],
                    canvases[l + 1],
                    shape,
                    l as u8,
                    merging,
                ),
            counts_rise(seeds@, lvl, canvases, res@),
    {
        let ghost before = canvases;
        let ghost counted = res@;
        let sizes = raise(input, &mut canvas, lvl, merging, last);
        res.push((lvl, sizes));
        proof {
            canvases = canvases.push(canvas@);
            assert forall|l: int| 0 <= l < lvl + 1 implies raises(
                input@,
                #[trigger] canvases[l],
                canvases[l + 1],
                shape,
                l as u8,
                merging,
            ) by {
                assert(canvases[l] == before[l]);
                if l < lvl {
                    assert(canvases[l + 1] == before[l + 1]);
                }
            }
            assert forall|l: int|
                #![trigger res@[l]]
                0 <= l < lvl + 1 implies res@[l].0 == l && res@[l].1@.len() == seeds@.len() + 2
                && counts_lakes(canvases[l + 1], res@[l].1@) by {
                if l < lvl {
                    assert(res@[l] == counted[l]);
                    assert(canvases[l + 1] == before[l + 1]);
                }
            }
        }
    }
    assert(is_rise(input@, shape, seeds@, merging, max, colours@, canvases));
    res
}

/// A watershed transform.
pub trait Watershed: Send + Sync {
    /// Whether lakes that touch are merged.
    spec fn is_merging(&self) -> bool;

    /// The water rises to the levels below this one.
    spec fn water_limit(&self) -> u8;

    /// Lets the water rise from the seeds, and gives for each level the sizes of the
    /// lakes when it has risen to it: first the number of pixels without water, then
    /// the size of each lake.
    fn transform(&self, input: &Image, seeds: &[(usize, usize)]) -> (res: Vec<(u8, Vec<usize>)>)
        requires
            canvas_fits(input.shape()),
            seeds_fit(input.shape(), seeds@),
        ensures
            is_watershed(
                input@,
                input.shape(),
                seeds@,
                self.is_merging(),
                self.water_limit(),
                res@,
            ),
    ;
}

/// The transform that merges lakes when they touch.
pub struct MergingWatershed {
    max_water_level: u8,
}

/// The transform that keeps lakes apart when they touch.
pub struct SegmentingWatershed {
    max_water_level: u8,
}

impl MergingWatershed {
    /// The transform up to a water level.
    pub(crate) fn new(max_water_level: u8) -> (res: Self)
        ensures
            res.water_limit() == max_water_level,
    {
        MergingWatershed { max_water_level }
    }
}

impl SegmentingWatershed {
    /// The transform up to a water level.
    pub(crate) fn new(max_water_level: u8) -> (res: Self)
        ensures
            res.water_limit() == max_water_level,
    {
        SegmentingWatershed { max_water_level }
    }
}

impl Watershed for MergingWatershed {
    open spec fn is_merging(&self) -> bool {
        true
    }

    closed spec fn water_limit(&self) -> u8 {
        self.max_water_level
    }

    fn transform(&self, input: &Image, seeds: &[(usize, usize)]) -> (res: Vec<(u8, Vec<usize>)>) {
        rise(input, seeds, true, self.max_water_level)
    }
}

impl Watershed for SegmentingWatershed {
    open spec fn is_merging(&self) -> bool {
        false
    }

    closed spec fn water_limit(&self) -> u8 {
        self.max_water_level
    }

    fn transform(&self, input: &Image, seeds: &[(usize, usize)]) -> (res: Vec<(u8, Vec<usize>)>) {
        rise(input, seeds, false, self.max_water_level)
    }
}

} // verus!
