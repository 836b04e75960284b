//! The two grids a watershed transform works on: the greyscale [`Image`] that is
//! flooded and the [`Canvas`] that holds the colour of the water on each pixel.
//!
//! Both are two-dimensional arrays of the `ndarray` crate. A grid is modelled by
//! its shape, rows by columns, and by a map from positions to values.

use ndarray as nd;
use rayon::iter::{IntoParallelIterator, ParallelIterator};
use vstd::prelude::*;

verus! {

/// `p` is the position of a pixel in a grid of this shape.
pub open spec fn on_grid(shape: (nat, nat), p: (int, int)) -> bool {
    0 <= p.0 < shape.0 && 0 <= p.1 < shape.1
}

/// All positions of a grid of this shape.
pub open spec fn grid(shape: (nat, nat)) -> Set<(int, int)> {
    Set::new(|p: (int, int)| on_grid(shape, p))
}

/// The position that a pair of indices denotes.
pub open spec fn pos(at: (usize, usize)) -> (int, int) {
    (at.0 as int, at.1 as int)
}

/// A pair of dimensions as a shape.
pub open spec fn shape_of(dim: (usize, usize)) -> (nat, nat) {
    (dim.0 as nat, dim.1 as nat)
}

/// The product of the axis lengths that are not zero.
pub open spec fn extent(shape: (nat, nat)) -> nat {
    if shape.0 == 0 && shape.1 == 0 {
        1
    } else if shape.0 == 0 {
        shape.1
    } else if shape.1 == 0 {
        shape.0
    } else {
        shape.0 * shape.1
    }
}

/// The bytes that a canvas of this shape takes fit in one allocation.
pub open spec fn canvas_fits(shape: (nat, nat)) -> bool {
    shape.0 * shape.1 * (usize::BITS / 8) <= isize::MAX
}

/// `p` is the upper left corner of a three by three window of a grid.
pub open spec fn window_at(shape: (nat, nat), p: (int, int)) -> bool {
    0 <= p.0 && p.0 + 2 < shape.0 && 0 <= p.1 && p.1 + 2 < shape.1
}

/// The nine values of the window with upper left corner `p`, row by row.
pub open spec fn cells<T>(m: Map<(int, int), T>, p: (int, int)) -> Seq<T> {
    Seq::new(9, |k: int| m[(p.0 + k / 3, p.1 + k % 3)])
}

/// `res` holds the outcomes that are `Some`, one for each window; `order` gives the
/// window that each entry of `res` comes from.
pub open spec fn gathered<T>(
    res: Seq<T>,
    shape: (nat, nat),
    outcome: Map<(int, int), Option<T>>,
    order: Seq<(int, int)>,
) -> bool {
    &&& order.len() == res.len()
    &&& order.no_duplicates()
    &&& forall|k: int|
        0 <= k < res.len() ==> window_at(shape, #[trigger] order[k]) && outcome[order[k]] == Some(
            res[k],
        )
    &&& forall|p: (int, int)|
        window_at(shape, p) && (#[trigger] outcome[p]) is Some ==> order.contains(p)
}

/// `o` is an outcome of `f` on the window of colours at `p`.
pub open spec fn colour_outcome<T, F: Fn(Vec<usize>) -> Option<T>>(
    colours: Map<(int, int), usize>,
    f: F,
    p: (int, int),
    o: Option<T>,
) -> bool {
    exists|w: Vec<usize>| w@ == cells(colours, p) && #[trigger] call_ensures(f, (w,), o)
}

/// `res` gathers what `f` gives on each window of colours.
pub open spec fn colour_windows<T, F: Fn(Vec<usize>) -> Option<T>>(
    colours: Map<(int, int), usize>,
    shape: (nat, nat),
    f: F,
    res: Seq<T>,
) -> bool {
    exists|outcome: Map<(int, int), Option<T>>, order: Seq<(int, int)>|
        {
            &&& #[trigger] gathered(res, shape, outcome, order)
            &&& forall|p: (int, int)|
                window_at(shape, p) ==> colour_outcome(colours, f, p, #[trigger] outcome[p])
        }
}

/// `o` is an outcome of `f` on the window of grey levels at `p`.
pub open spec fn level_outcome<T, F: Fn((usize, usize), Vec<u8>) -> Option<T>>(
    levels: Map<(int, int), u8>,
    f: F,
    p: (int, int),
    o: Option<T>,
) -> bool {
    exists|at: (usize, usize), v: Vec<u8>|
        pos(at) == p && v@ == cells(levels, p) && #[trigger] call_ensures(f, (at, v), o)
}

/// `res` gathers what `f` gives on each window of grey levels and its corner.
pub open spec fn level_windows<T, F: Fn((usize, usize), Vec<u8>) -> Option<T>>(
    levels: Map<(int, int), u8>,
    shape: (nat, nat),
    f: F,
    res: Seq<T>,
) -> bool {
    exists|outcome: Map<(int, int), Option<T>>, order: Seq<(int, int)>|
        {
            &&& #[trigger] gathered(res, shape, outcome, order)
            &&& forall|p: (int, int)|
                window_at(shape, p) ==> level_outcome(levels, f, p, #[trigger] outcome[p])
        }
}

/// `o` is an outcome of `f` on the two windows at `p`.
pub open spec fn paired_outcome<T, F: Fn((usize, usize), Vec<usize>, Vec<u8>) -> Option<T>>(
    colours: Map<(int, int), usize>,
    levels: Map<(int, int), u8>,
    f: F,
    p: (int, int),
    o: Option<T>,
) -> bool {
    exists|at: (usize, usize), w: Vec<usize>, v: Vec<u8>|
        {
            &&& pos(at) == p
            &&& w@ == cells(colours, p)
            &&& v@ == cells(levels, p)
            &&& #[trigger] call_ensures(f, (at, w, v), o)
        }
}

/// `res` gathers what `f` gives on each pair of windows and their corner.
pub open spec fn paired_windows<T, F: Fn((usize, usize), Vec<usize>, Vec<u8>) -> Option<T>>(
    colours: Map<(int, int), usize>,
    levels: Map<(int, int), u8>,
    shape: (nat, nat),
    f: F,
    res: Seq<T>,
) -> bool {
    exists|outcome: Map<(int, int), Option<T>>, order: Seq<(int, int)>|
        {
            &&& #[trigger] gathered(res, shape, outcome, order)
            &&& forall|p: (int, int)|
                window_at(shape, p) ==> paired_outcome(
                    colours,
                    levels,
                    f,
                    p,
                    #[trigger] outcome[p],
                )
        }
}

/// A greyscale image: one `u8` level for each pixel. The type of the array is bounded by
/// the trait `ndarray::RawData`, which has no declaration here, so the field is opaque.
#[verifier::external_body]
pub struct Image {
    inner: nd::Array2<u8>,
}

/// The level of each pixel of an image.
pub uninterp spec fn image_levels(image: Image) -> Map<(int, int), u8>;

/// The rows and columns of an image.
pub uninterp spec fn image_shape(image: Image) -> (nat, nat);

impl View for Image {
    type V = Map<(int, int), u8>;

    open spec fn view(&self) -> Map<(int, int), u8> {
        image_levels(*self)
    }
}

impl Image {
    /// The rows and columns of the image.
    pub open spec fn shape(self) -> (nat, nat) {
        image_shape(self)
    }

    /// `ndarray::Array::from_shape_vec` on a row-major shape: it succeeds exactly
    /// where the shape asks for as many elements as there are and its axis lengths
    /// other than zero multiply to at most `isize::MAX`. Element `(i, j)` of the
    /// array is then number `i * columns + j` of the vector.
    #[verifier::external_body]
    fn array_from_shape_vec(dim: (usize, usize), levels: Vec<u8>) -> (res: Option<Image>)
        ensures
            (res is Some) == (dim.0 * dim.1 == levels@.len() && extent(shape_of(dim))
                <= isize::MAX),
            res matches Some(image) ==> image_shape(image) == shape_of(dim),
            res matches Some(image) ==> image_levels(image) == Map::new(
                |p: (int, int)| on_grid(shape_of(dim), p),
                |p: (int, int)| levels@[p.0 * dim.1 + p.1],
            ),
    {
        nd::Array2::from_shape_vec(dim, levels).ok().map(|inner| Image { inner })
    }

    /// `ndarray::ArrayBase::dim`: the lengths of the two axes. An array has an
    /// element at each position within them and nowhere else, and the axis lengths
    /// other than zero multiply to at most `isize::MAX`.
    #[verifier::external_body]
    fn array_dim(&self) -> (dim: (usize, usize))
        ensures
            shape_of(dim) == image_shape(*self),
            image_levels(*self).dom() == grid(shape_of(dim)),
            extent(shape_of(dim)) <= isize::MAX,
    {
        self.inner.dim()
    }

    /// `ndarray::Zip::indexed` over `ndarray::ArrayBase::windows`, turned into a
    /// parallel iterator, then `filter_map` and `collect` of `rayon`: `f` is called
    /// once on the corner and the nine values of each window, and the values that it
    /// gives come out in an order that is not specified.
    #[verifier::external_body]
    pub(crate) fn filter_map_windows<
        T: Send,
        F: Fn((usize, usize), Vec<u8>) -> Option<T> + Sync + Send,
    >(&self, f: F) -> (res: Vec<T>)
        requires
            forall|at: (usize, usize), v: Vec<u8>|
                window_at(image_shape(*self), pos(at)) && v@.len() == 9
                    ==> #[trigger] call_requires(f, (at, v)),
        ensures
            level_windows(image_levels(*self), image_shape(*self), f, res@),
    {
        nd::Zip::indexed(self.inner.windows((3, 3))).into_par_iter().filter_map(
            |(at, window)| f(at, window.iter().copied().collect()),
        ).collect()
    }

    /// An image of the given rows and columns, from its levels row by row. There is
    /// none if the number of levels is not rows times columns, or if the shape is
    /// too large for an array.
    pub fn from_shape_vec(dim: (usize, usize), levels: Vec<u8>) -> (res: Option<Image>)
        ensures
            (res is Some) == (dim.0 * dim.1 == levels@.len() && extent(shape_of(dim))
                <= isize::MAX),
            res matches Some(image) ==> image.shape() == shape_of(dim),
            res matches Some(image) ==> image@ == Map::new(
                |p: (int, int)| on_grid(shape_of(dim), p),
                |p: (int, int)| levels@[p.0 * dim.1 + p.1],
            ),
    {
        Self::array_from_shape_vec(dim, levels)
    }

    /// The rows and columns of the image.
    pub fn dim(&self) -> (dim: (usize, usize))
        ensures
            shape_of(dim) == self.shape(),
            self@.dom() == grid(self.shape()),
            extent(self.shape()) <= isize::MAX,
    {
        self.array_dim()
    }
}

/// A canvas: one colour for each pixel, zero where there is no water. The field is opaque,
/// as that of [`Image`] is.
#[verifier::external_body]
pub struct Canvas {
    inner: nd::Array2<usize>,
}

/// The colour of each pixel of a canvas.
pub uninterp spec fn canvas_colours(canvas: Canvas) -> Map<(int, int), usize>;

/// The rows and columns of a canvas.
pub uninterp spec fn canvas_shape(canvas: Canvas) -> (nat, nat);

impl View for Canvas {
    type V = Map<(int, int), usize>;

    open spec fn view(&self) -> Map<(int, int), usize> {
        canvas_colours(*self)
    }
}

impl Canvas {
    /// The rows and columns of the canvas.
    pub open spec fn shape(self) -> (nat, nat) {
        canvas_shape(self)
    }

    /// `ndarray::ArrayBase::zeros`: an array of this shape, zero everywhere. It
    /// panics on a shape whose axis lengths other than zero multiply to more than
    /// `isize::MAX`, or whose elements do not fit in one allocation.
    #[verifier::external_body]
    pub(crate) fn zeros(dim: (usize, usize)) -> (canvas: Canvas)
        requires
            extent(shape_of(dim)) <= isize::MAX,
            canvas_fits(shape_of(dim)),
        ensures
            canvas_shape(canvas) == shape_of(dim),
            canvas_colours(canvas) == Map::new(
                |p: (int, int)| on_grid(shape_of(dim), p),
                |p: (int, int)| 0usize,
            ),
    {
        Canvas { inner: nd::Array2::zeros(dim) }
    }

    /// `ndarray::ArrayBase::dim`: the lengths of the two axes. An array has an
    /// element at each position within them and nowhere else.
    #[verifier::external_body]
    fn array_dim(&self) -> (dim: (usize, usize))
        ensures
            shape_of(dim) == canvas_shape(*self),
            canvas_colours(*self).dom() == grid(shape_of(dim)),
    {
        self.inner.dim()
    }

    /// `IndexMut` of `ndarray::ArrayBase`, assigned to: only the element at the index
    /// changes. It panics outside of the array.
    #[verifier::external_body]
    pub(crate) fn set(&mut self, at: (usize, usize), colour: usize)
        requires
            on_grid(canvas_shape(*old(self)), pos(at)),
        ensures
            canvas_shape(*final(self)) == canvas_shape(*old(self)),
            canvas_colours(*final(self)) == canvas_colours(*old(self)).insert(pos(at), colour),
    {
        self.inner[at] = colour;
    }

    /// `ndarray::ArrayBase::iter`: the elements in logical order, which is row by
    /// row, so that number `k` is the one at `(k / columns, k % columns)`.
    #[verifier::external_body]
    fn array_iter(&self) -> (res: Vec<usize>)
        ensures
            res@.len() == canvas_shape(*self).0 * canvas_shape(*self).1,
            forall|k: int|
                #![trigger res@[k]]
                0 <= k < res@.len() ==> res@[k] == canvas_colours(*self)[(
                    k / canvas_shape(*self).1 as int,
                    k % canvas_shape(*self).1 as int,
                )],
    {
        self.inner.iter().copied().collect()
    }

    /// `ndarray::Zip::from` over `ndarray::ArrayBase::windows`, turned into a parallel
    /// iterator, then `filter_map` and `collect` of `rayon`: `f` is called once on the
    /// nine values of each window, and the values that it gives come out in an order
    /// that is not specified.
    #[verifier::external_body]
    pub(crate) fn filter_map_windows<T: Send, F: Fn(Vec<usize>) -> Option<T> + Sync + Send>(
        &self,
        f: F,
    ) -> (res: Vec<T>)
        requires
            forall|w: Vec<usize>| w@.len() == 9 ==> #[trigger] call_requires(f, (w,)),
        ensures
            colour_windows(canvas_colours(*self), canvas_shape(*self), f, res@),
    {
        nd::Zip::from(self.inner.windows((3, 3))).into_par_iter().filter_map(
            |window| f(window.0.iter().copied().collect()),
        ).collect()
    }

    /// `ndarray::Zip::indexed` over `ndarray::ArrayBase::windows` of the canvas, `and`
    /// over those of the image, turned into a parallel iterator, then `filter_map` and
    /// `collect` of `rayon`: `f` is called once on the corner and the nine values of
    /// both windows at each place, and the values that it gives come out in an order
    /// that is not specified. `and` panics where the two shapes differ.
    #[verifier::external_body]
    pub(crate) fn filter_map_windows_with<
        T: Send,
        F: Fn((usize, usize), Vec<usize>, Vec<u8>) -> Option<T> + Sync + Send,
    >(&self, image: &Image, f: F) -> (res: Vec<T>)
        requires
            canvas_shape(*self) == image_shape(*image),
            forall|at: (usize, usize), w: Vec<usize>, v: Vec<u8>|
                window_at(canvas_shape(*self), pos(at)) && w@.len() == 9 && v@.len() == 9
                    ==> #[trigger] call_requires(f, (at, w, v)),
        ensures
            paired_windows(
                canvas_colours(*self),
                image_levels(*image),
                canvas_shape(*self),
                f,
                res@,
            ),
    {
        nd::Zip::indexed(self.inner.windows((3, 3))).and(
            image.inner.windows((3, 3)),
        ).into_par_iter().filter_map(
            |(at, w, v)| f(at, w.iter().copied().collect(), v.iter().copied().collect()),
        ).collect()
    }

    /// `ndarray::ArrayBase::view_mut` turned into a parallel iterator, then `for_each`
    /// of `rayon`: each element is replaced by what `f` gives for it.
    #[verifier::external_body]
    pub(crate) fn map_pixels<F: Fn(usize) -> usize + Sync + Send>(&mut self, f: F)
        requires
            forall|p: (int, int)| #[trigger]
                old(self)@.dom().contains(p) ==> call_requires(f, (old(self)@[p],)),
        ensures
            canvas_shape(*final(self)) == canvas_shape(*old(self)),
            canvas_colours(*final(self)).dom() == canvas_colours(*old(self)).dom(),
            forall|p: (int, int)| #[trigger]
                canvas_colours(*old(self)).dom().contains(p) ==> call_ensures(
                    f,
                    (canvas_colours(*old(self))[p],),
                    canvas_colours(*final(self))[p],
                ),
    {
        self.inner.view_mut().into_par_iter().for_each(|px| *px = f(*px))
    }

    /// The rows and columns of the canvas.
    pub fn dim(&self) -> (dim: (usize, usize))
        ensures
            shape_of(dim) == self.shape(),
            self@.dom() == grid(self.shape()),
    {
        self.array_dim()
    }

    /// The colours of the canvas, row by row.
    pub fn to_vec(&self) -> (res: Vec<usize>)
        ensures
            res@.len() == self.shape().0 * self.shape().1,
            forall|k: int|
                #![trigger res@[k]]
                0 <= k < res@.len() ==> res@[k] == self@[(
                    k / self.shape().1 as int,
                    k % self.shape().1 as int,
                )],
    {
        self.array_iter()
    }
}

} // verus!
