//! The lakes of a canvas: the pixels of each colour, and how many there are.

use crate::grid::{grid, on_grid, Canvas};
use vstd::arithmetic::div_mod::{
    lemma_fundamental_div_mod, lemma_fundamental_div_mod_converse, lemma_mod_bound,
};
use vstd::prelude::*;
use vstd::set_lib::*;

verus! {

/// The colour of a pixel without water.
pub const UNCOLOURED: usize = 0;

/// The pixels of one colour.
pub open spec fn lake(colours: Map<(int, int), usize>, colour: usize) -> Set<(int, int)> {
    Set::new(|p: (int, int)| colours.dom().contains(p) && colours[p] == colour)
}

/// The number of pixels of one colour.
pub open spec fn lake_size(colours: Map<(int, int), usize>, colour: usize) -> nat {
    lake(colours, colour).len()
}

/// `sizes` lists the number of pixels of each colour below its length.
pub open spec fn counts_lakes(colours: Map<(int, int), usize>, sizes: Seq<usize>) -> bool {
    forall|c: int|
        #![trigger sizes[c]]
        0 <= c < sizes.len() ==> sizes[c] == lake_size(colours, c as usize)
}

/// The first `k` positions of a grid, row by row.
spec fn first(shape: (nat, nat), k: int) -> Set<(int, int)> {
    Set::new(|p: (int, int)| on_grid(shape, p) && p.0 * shape.1 + p.1 < k)
}

/// The position that comes after the first `k`.
spec fn nth(shape: (nat, nat), k: int) -> (int, int) {
    (k / shape.1 as int, k % shape.1 as int)
}

proof fn lemma_nth(shape: (nat, nat), k: int)
    requires
        0 <= k < shape.0 * shape.1,
    ensures
        on_grid(shape, nth(shape, k)),
        forall|p: (int, int)| #[trigger]
            on_grid(shape, p) ==> (p.0 * shape.1 + p.1 == k <==> p == nth(shape, k)),
{
    let rows = shape.0 as int;
    let columns = shape.1 as int;
    assert(columns > 0) by (nonlinear_arith)
        requires
            0 <= k < rows * columns,
            columns >= 0,
    ;
    lemma_fundamental_div_mod(k, columns);
    lemma_mod_bound(k, columns);
    let (i, j) = nth(shape, k);
    assert(k == columns * i + j);
    assert(0 <= i < rows) by (nonlinear_arith)
        requires
            k == columns * i + j,
            0 <= j < columns,
            0 <= k < rows * columns,
    ;
    assert(i * columns == columns * i) by (nonlinear_arith);
    assert forall|p: (int, int)| #[trigger] on_grid(shape, p) implies (p.0 * shape.1 + p.1 == k
        <==> p == nth(shape, k)) by {
        if p.0 * shape.1 + p.1 == k {
            lemma_fundamental_div_mod_converse(k, columns, p.0, p.1);
        }
    }
}

proof fn lemma_first(shape: (nat, nat), k: int)
    requires
        0 <= k <= shape.0 * shape.1,
    ensures
        first(shape, k).finite(),
        first(shape, k).len() == k,
    decreases k,
{
    if k == 0 {
        assert forall|p: (int, int)| !first(shape, 0).contains(p) by {
            if on_grid(shape, p) {
                assert(p.0 * shape.1 >= 0) by (nonlinear_arith)
                    requires
                        p.0 >= 0,
                ;
            }
        }
        assert(first(shape, 0) =~= Set::empty());
    } else {
        lemma_first(shape, k - 1);
        lemma_nth(shape, k - 1);
        let p = nth(shape, k - 1);
        assert(first(shape, k) =~= first(shape, k - 1).insert(p));
        assert(!first(shape, k - 1).contains(p));
    }
}

proof fn lemma_first_is_all(shape: (nat, nat))
    ensures
        first(shape, (shape.0 * shape.1) as int) == grid(shape),
{
    assert forall|p: (int, int)| on_grid(shape, p) implies p.0 * shape.1 + p.1 < shape.0
        * shape.1 by {
        let rows = shape.0 as int;
        let columns = shape.1 as int;
        assert(p.0 * columns + p.1 < rows * columns) by (nonlinear_arith)
            requires
                0 <= p.0 < rows,
                0 <= p.1 < columns,
        ;
    }
    assert(first(shape, (shape.0 * shape.1) as int) =~= grid(shape));
}

/// A grid has rows times columns positions.
pub proof fn lemma_grid_size(shape: (nat, nat))
    ensures
        grid(shape).finite(),
        grid(shape).len() == shape.0 * shape.1,
{
    assert(0 <= shape.0 * shape.1) by (nonlinear_arith);
    lemma_first(shape, (shape.0 * shape.1) as int);
    lemma_first_is_all(shape);
}

/// Each lake of a canvas is a finite set.
pub proof fn lemma_lake_finite(colours: Map<(int, int), usize>, shape: (nat, nat), colour: usize)
    requires
        colours.dom() == grid(shape),
    ensures
        lake(colours, colour).finite(),
        lake_size(colours, colour) <= shape.0 * shape.1,
{
    lemma_grid_size(shape);
    lemma_len_subset(lake(colours, colour), grid(shape));
}

/// Counts the pixels of each colour. There is an entry for each colour below
/// `entries`, zero where no pixel has it.
pub fn count_lakes(canvas: &Canvas, entries: usize) -> (sizes: Vec<usize>)
    requires
        forall|p: (int, int)| #[trigger]
            canvas@.dom().contains(p) ==> canvas@[p] < entries,
    ensures
        sizes@.len() == entries,
        counts_lakes(canvas@, sizes@),
{
    let _ = canvas.dim();
    let pixels = canvas.to_vec();
    let ghost shape = canvas.shape();
    let ghost colours = canvas@;
    let mut sizes: Vec<usize> = vec![0usize; entries];
    proof {
        lemma_first(shape, 0);
        first(shape, 0).lemma_len0_is_empty();
        assert forall|c: int| 0 <= c < sizes@.len() implies #[trigger] sizes@[c] == lake(
            colours,
            c as usize,
        ).intersect(first(shape, 0)).len() by {
            assert(lake(colours, c as usize).intersect(first(shape, 0)) =~= Set::empty());
        }
    }
    for k in 0..pixels.len()
        invariant
            shape == canvas.shape(),
            colours == canvas@,
            colours.dom() == grid(shape),
            pixels@.len() == shape.0 * shape.1,
            forall|k: int|
                #![trigger pixels@[k]]
                0 <= k < pixels@.len() ==> pixels@[k] == colours[nth(shape, k)],
            forall|p: (int, int)| #[trigger] colours.dom().contains(p) ==> colours[p] < entries,
            sizes@.len() == entries,
            forall|c: int|
                0 <= c < sizes@.len() ==> #[trigger] sizes@[c] == lake(
                    colours,
                    c as usize,
                ).intersect(first(shape, k as int)).len(),
    {
        let x: usize = pixels[k];
        let ghost p = nth(shape, k as int);
        let ghost before = sizes@;
        proof {
            lemma_nth(shape, k as int);
            lemma_first(shape, k as int);
            assert(colours.dom().contains(p));
            assert(first(shape, k + 1) =~= first(shape, k as int).insert(p));
            assert(!first(shape, k as int).contains(p));
            let counted = lake(colours, x).intersect(first(shape, k as int));
            lemma_len_subset(counted, first(shape, k as int));
            assert(sizes@[x as int] <= k);
        }
        sizes.set(x, sizes[x] + 1);
        proof {
            assert forall|c: int| 0 <= c < sizes@.len() implies #[trigger] sizes@[c] == lake(
                colours,
                c as usize,
            ).intersect(first(shape, k + 1)).len() by {
                let counted = lake(colours, c as usize).intersect(first(shape, k as int));
                let next = lake(colours, c as usize).intersect(first(shape, k + 1));
                lemma_len_subset(counted, first(shape, k as int));
                assert(before[c] == counted.len());
                if c == x {
                    assert(next =~= counted.insert(p));
                } else {
                    assert(next =~= counted);
                }
            }
        }
    }
    proof {
        lemma_first_is_all(shape);
        assert forall|c: int|
            #![trigger sizes@[c]]
            0 <= c < sizes@.len() implies sizes@[c] == lake_size(colours, c as usize) by {
            assert(lake(colours, c as usize).intersect(grid(shape)) =~= lake(
                colours,
                c as usize,
            ));
        }
    }
    sizes
}

/// The least and the greatest of the colours and [`UNCOLOURED`].
pub fn colour_range(colours: &Vec<usize>) -> (range: (usize, usize))
    ensures
        colours@.push(UNCOLOURED).contains(range.0),
        colours@.push(UNCOLOURED).contains(range.1),
        forall|c: usize| #[trigger]
            colours@.push(UNCOLOURED).contains(c) ==> range.0 <= c <= range.1,
{
    let ghost all = colours@.push(UNCOLOURED);
    let mut min: usize = UNCOLOURED;
    let mut max: usize = UNCOLOURED;
    assert(all[colours@.len() as int] == UNCOLOURED);
    for i in 0..colours.len()
        invariant
            all == colours@.push(UNCOLOURED),
            all.contains(min),
            all.contains(max),
            min <= UNCOLOURED <= max,
            forall|j: int| 0 <= j < i ==> min <= #[trigger] colours@[j] <= max,
    {
        assert(all[i as int] == colours@[i as int]);
        if colours[i] < min {
            min = colours[i];
        }
        if colours[i] > max {
            max = colours[i];
        }
    }
    proof {
        assert forall|c: usize| #[trigger] all.contains(c) implies min <= c <= max by {
            let i = choose|i: int| 0 <= i < all.len() && all[i] == c;
            if i < colours@.len() {
                assert(colours@[i] == c);
            }
        }
    }
    (min, max)
}

} // verus!
