//! Sorted lists of colours.

use vstd::prelude::*;
use vstd::seq_lib::*;

verus! {

/// No item is less than one before it.
pub open spec fn is_ascending(s: Seq<usize>) -> bool {
    forall|i: int, j: int| 0 <= i <= j < s.len() ==> s[i] <= s[j]
}

/// Each item is less than those after it.
pub open spec fn is_increasing(s: Seq<usize>) -> bool {
    forall|i: int, j: int| 0 <= i < j < s.len() ==> s[i] < s[j]
}

/// `s` without the items that are equal to the one right before them.
pub open spec fn without_repeats(s: Seq<usize>) -> Seq<usize>
    decreases s.len(),
{
    if s.len() < 2 {
        s
    } else if s[s.len() - 1] == s[s.len() - 2] {
        without_repeats(s.drop_last())
    } else {
        without_repeats(s.drop_last()).push(s[s.len() - 1])
    }
}

/// `slice::sort` of the standard library: the same items, in ascending order.
#[verifier::external_body]
fn slice_sort(items: &mut Vec<usize>)
    ensures
        is_ascending(final(items)@),
        final(items)@.to_multiset() == old(items)@.to_multiset(),
{
    items.sort();
}

/// The items without those that are equal to the one right before them.
fn dedup(items: &Vec<usize>) -> (res: Vec<usize>)
    ensures
        res@ == without_repeats(items@),
{
    let mut res: Vec<usize> = Vec::new();
    for i in 0..items.len()
        invariant
            res@ == without_repeats(items@.take(i as int)),
    {
        let ghost s = items@.take(i + 1);
        assert(s.drop_last() =~= items@.take(i as int));
        if i == 0 || items[i] != items[i - 1] {
            res.push(items[i]);
        }
        proof {
            if i == 0 {
                assert(res@ =~= s);
            } else {
                assert(s[s.len() - 1] == items@[i as int] && s[s.len() - 2] == items@[i - 1]);
            }
        }
    }
    assert(items@.take(items@.len() as int) =~= items@);
    res
}

proof fn lemma_without_repeats(s: Seq<usize>)
    requires
        is_ascending(s),
    ensures
        is_increasing(without_repeats(s)),
        forall|x: usize| #[trigger] without_repeats(s).contains(x) <==> s.contains(x),
        s.len() > 0 ==> without_repeats(s).len() > 0 && without_repeats(s).last() == s.last(),
    decreases s.len(),
{
    if s.len() >= 2 {
        let init = s.drop_last();
        lemma_without_repeats(init);
        let d = without_repeats(init);
        assert(d.last() == s[s.len() - 2]);
        assert forall|x: usize| #[trigger] without_repeats(s).contains(x) <==> s.contains(x) by {
            assert(s =~= init.push(s.last()));
            assert(d.contains(x) <==> init.contains(x));
            if s.contains(x) {
                if init.contains(x) {
                    let i = choose|i: int| 0 <= i < d.len() && d[i] == x;
                    if s[s.len() - 1] != s[s.len() - 2] {
                        assert(d.push(s.last())[i] == x);
                    }
                } else {
                    assert(x == s.last());
                    if s[s.len() - 1] == s[s.len() - 2] {
                        assert(init[init.len() - 1] == x);
                    } else {
                        assert(d.push(s.last())[d.len() as int] == x);
                    }
                }
            }
            if without_repeats(s).contains(x) {
                if d.contains(x) {
                    let i = choose|i: int| 0 <= i < init.len() && init[i] == x;
                    assert(s[i] == x);
                } else {
                    assert(x == s.last());
                    assert(s[s.len() - 1] == x);
                }
            }
        }
        if s[s.len() - 1] != s[s.len() - 2] {
            assert forall|i: int, j: int| 0 <= i < j < without_repeats(s).len() implies
                without_repeats(s)[i] < without_repeats(s)[j] by {
                if j == d.len() {
                    assert(d[i] <= d[d.len() - 1]);
                }
            }
        }
    } else if s.len() == 1 {
        assert(without_repeats(s).last() == s.last());
    }
}

/// Puts the items in increasing order, each one once.
pub fn sort_and_dedup(items: &mut Vec<usize>)
    ensures
        is_increasing(final(items)@),
        forall|x: usize| #[trigger] final(items)@.contains(x) <==> old(items)@.contains(x),
{
    let ghost before = items@;
    slice_sort(items);
    let ghost sorted = items@;
    *items = dedup(items);
    proof {
        lemma_without_repeats(sorted);
        before.to_multiset_ensures();
        sorted.to_multiset_ensures();
        assert forall|x: usize| #[trigger] items@.contains(x) <==> before.contains(x) by {
            assert(sorted.contains(x) <==> sorted.to_multiset().count(x) > 0);
            assert(before.contains(x) <==> before.to_multiset().count(x) > 0);
        }
    }
}

} // verus!
