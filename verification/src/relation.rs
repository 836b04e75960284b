//! Chains of related things: what can be reached by a relation in any number of
//! steps.

use vstd::prelude::*;

verus! {

/// `path` goes from `a` to `b`, and each step is one of `r`.
pub open spec fn is_path<T>(r: spec_fn(T, T) -> bool, path: Seq<T>, a: T, b: T) -> bool {
    &&& path.len() > 0
    &&& path[0] == a
    &&& path[path.len() - 1] == b
    &&& forall|i: int| 0 <= i < path.len() - 1 ==> r(#[trigger] path[i], path[i + 1])
}

/// `b` can be reached from `a` by steps of `r`.
pub open spec fn joined<T>(r: spec_fn(T, T) -> bool, a: T, b: T) -> bool {
    exists|path: Seq<T>| is_path(r, path, a, b)
}

/// Nothing that can be reached from `a` is less than `least`, which can be reached.
pub open spec fn is_least_joined(
    r: spec_fn(usize, usize) -> bool,
    a: usize,
    least: usize,
) -> bool {
    &&& joined(r, a, least)
    &&& forall|d: usize| #[trigger] joined(r, a, d) ==> least <= d
}

/// A step can be taken back.
pub open spec fn is_symmetric<T>(r: spec_fn(T, T) -> bool) -> bool {
    forall|a: T, b: T| #[trigger] r(a, b) ==> r(b, a)
}

/// Everything can be reached from itself.
pub proof fn lemma_joined_self<T>(r: spec_fn(T, T) -> bool, a: T)
    ensures
        joined(r, a, a),
{
    assert(is_path(r, seq![a], a, a));
}

/// One more step of `r` keeps what was reached within reach.
pub proof fn lemma_joined_step<T>(r: spec_fn(T, T) -> bool, a: T, b: T, c: T)
    requires
        joined(r, a, b),
        r(b, c),
    ensures
        joined(r, a, c),
{
    let path = choose|path: Seq<T>| is_path(r, path, a, b);
    let longer = path.push(c);
    assert forall|i: int| 0 <= i < longer.len() - 1 implies r(
        #[trigger] longer[i],
        longer[i + 1],
    ) by {
        if i < path.len() - 1 {
            assert(longer[i] == path[i] && longer[i + 1] == path[i + 1]);
        }
    }
    assert(is_path(r, longer, a, c));
}

/// A single step of `r`.
pub proof fn lemma_joined_once<T>(r: spec_fn(T, T) -> bool, a: T, b: T)
    requires
        r(a, b),
    ensures
        joined(r, a, b),
{
    lemma_joined_self(r, a);
    lemma_joined_step(r, a, a, b);
}

/// What holds of `a` and is kept by each step of `r` holds of all that can be reached.
pub proof fn lemma_joined_keeps<T>(
    r: spec_fn(T, T) -> bool,
    inv: spec_fn(T) -> bool,
    a: T,
    b: T,
)
    requires
        joined(r, a, b),
        inv(a),
        forall|x: T, y: T| inv(x) && #[trigger] r(x, y) ==> inv(y),
    ensures
        inv(b),
{
    let path = choose|path: Seq<T>| is_path(r, path, a, b);
    lemma_path_keeps(r, inv, path, a, b, path.len() - 1);
}

proof fn lemma_path_keeps<T>(
    r: spec_fn(T, T) -> bool,
    inv: spec_fn(T) -> bool,
    path: Seq<T>,
    a: T,
    b: T,
    i: int,
)
    requires
        is_path(r, path, a, b),
        inv(a),
        forall|x: T, y: T| inv(x) && #[trigger] r(x, y) ==> inv(y),
        0 <= i < path.len(),
    ensures
        inv(path[i]),
    decreases i,
{
    if i > 0 {
        lemma_path_keeps(r, inv, path, a, b, i - 1);
        assert(r(path[i - 1], path[i - 1 + 1]));
    }
}

/// Steps after steps.
pub proof fn lemma_joined_transitive<T>(r: spec_fn(T, T) -> bool, a: T, b: T, c: T)
    requires
        joined(r, a, b),
        joined(r, b, c),
    ensures
        joined(r, a, c),
{
    let inv = |x: T| joined(r, a, x);
    assert forall|x: T, y: T| inv(x) && #[trigger] r(x, y) implies inv(y) by {
        lemma_joined_step(r, a, x, y);
    }
    lemma_joined_keeps(r, inv, b, c);
}

/// Where each step can be taken back, so can all of them.
pub proof fn lemma_joined_symmetric<T>(r: spec_fn(T, T) -> bool, a: T, b: T)
    requires
        is_symmetric(r),
        joined(r, a, b),
    ensures
        joined(r, b, a),
{
    let inv = |x: T| joined(r, x, a);
    lemma_joined_self(r, a);
    assert forall|x: T, y: T| inv(x) && #[trigger] r(x, y) implies inv(y) by {
        lemma_joined_once(r, y, x);
        lemma_joined_transitive(r, y, x, a);
    }
    lemma_joined_keeps(r, inv, a, b);
}

/// Where steps of `s` can do what each step of `r` does, they can do what all do.
pub proof fn lemma_joined_refines<T>(
    r: spec_fn(T, T) -> bool,
    s: spec_fn(T, T) -> bool,
    a: T,
    b: T,
)
    requires
        joined(r, a, b),
        forall|x: T, y: T| #[trigger] r(x, y) ==> joined(s, x, y),
    ensures
        joined(s, a, b),
{
    let inv = |x: T| joined(s, a, x);
    lemma_joined_self(s, a);
    assert forall|x: T, y: T| inv(x) && #[trigger] r(x, y) implies inv(y) by {
        lemma_joined_transitive(s, a, x, y);
    }
    lemma_joined_keeps(r, inv, a, b);
}

} // verus!
