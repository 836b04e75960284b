//! From colours that meet somewhere to the colour that each one turns into.
//!
//! Mergers are lists of colours that meet in one place. Colours that are linked by
//! any number of mergers belong to one region, and a region takes its least colour.

use crate::relation::{
    is_least_joined, is_symmetric, joined, lemma_joined_keeps, lemma_joined_once,
    lemma_joined_refines, lemma_joined_self, lemma_joined_step, lemma_joined_symmetric,
    lemma_joined_transitive,
};
use crate::sorted::{is_increasing, sort_and_dedup};
use vstd::prelude::*;

verus! {

/// The lists of colours that a vector of vectors holds.
pub open spec fn lists(v: Seq<Vec<usize>>) -> Seq<Seq<usize>> {
    Seq::new(v.len(), |k: int| v[k]@)
}

/// One of the mergers holds both colours.
pub open spec fn shares(mergers: Seq<Seq<usize>>, a: usize, b: usize) -> bool {
    exists|k: int|
        0 <= k < mergers.len() && (#[trigger] mergers[k]).contains(a) && mergers[k].contains(b)
}

/// One of the mergers holds the colour.
pub open spec fn mentioned(mergers: Seq<Seq<usize>>, a: usize) -> bool {
    exists|k: int| 0 <= k < mergers.len() && (#[trigger] mergers[k]).contains(a)
}

/// The relation of colours that occur in one merger.
pub open spec fn together(mergers: Seq<Seq<usize>>) -> spec_fn(usize, usize) -> bool {
    |a: usize, b: usize| shares(mergers, a, b)
}

/// `map` takes each colour that a merger mentions to the least colour that mergers
/// link it to, and any other colour to where `base` takes it.
pub open spec fn maps_to_least(
    base: Seq<usize>,
    mergers: Seq<Seq<usize>>,
    map: Seq<usize>,
) -> bool {
    &&& map.len() == base.len()
    &&& forall|c: usize|
        #![trigger map[c as int]]
        c < map.len() ==> if mentioned(mergers, c) {
            is_least_joined(together(mergers), c, map[c as int])
        } else {
            map[c as int] == base[c as int]
        }
}

/// No colour is in two groups, and each group is a list of increasing colours.
spec fn separate(groups: Seq<Seq<usize>>) -> bool {
    &&& forall|k: int|
        0 <= k < groups.len() ==> (#[trigger] groups[k]).len() > 0 && is_increasing(groups[k])
    &&& forall|j: int, k: int, x: usize|
        0 <= j < groups.len() && 0 <= k < groups.len() && #[trigger] groups[j].contains(x)
            && #[trigger] groups[k].contains(x) ==> j == k
}

/// Two colours are in one group exactly where mergers link them.
spec fn grouped(groups: Seq<Seq<usize>>, mergers: Seq<Seq<usize>>) -> bool {
    &&& separate(groups)
    &&& forall|a: usize, b: usize| #[trigger]
        shares(groups, a, b) <==> mentioned(mergers, a) && joined(together(mergers), a, b)
}

/// The two lists have a colour in common.
spec fn meets(group: Seq<usize>, local: Seq<usize>) -> bool {
    exists|x: usize| #[trigger] group.contains(x) && local.contains(x)
}

/// The colour is in `local` or in a group that meets it.
spec fn absorbs(groups: Seq<Seq<usize>>, local: Seq<usize>, x: usize) -> bool {
    ||| local.contains(x)
    ||| exists|k: int|
        0 <= k < groups.len() && (#[trigger] groups[k]).contains(x) && meets(groups[k], local)
}

/// A group that does not meet `local` holds both colours.
spec fn stays_apart(groups: Seq<Seq<usize>>, local: Seq<usize>, a: usize, b: usize) -> bool {
    exists|k: int|
        {
            &&& 0 <= k < groups.len()
            &&& (#[trigger] groups[k]).contains(a)
            &&& groups[k].contains(b)
            &&& !meets(groups[k], local)
        }
}

/// Whether the colour is in the list.
fn contains_colour(list: &Vec<usize>, colour: usize) -> (res: bool)
    ensures
        res == list@.contains(colour),
{
    for i in 0..list.len()
        invariant
            forall|j: int| 0 <= j < i ==> list@[j] != colour,
    {
        if list[i] == colour {
            return true;
        }
    }
    false
}

/// Whether the two lists have a colour in common.
fn any_common(group: &Vec<usize>, local: &Vec<usize>) -> (res: bool)
    ensures
        res == meets(group@, local@),
{
    for i in 0..local.len()
        invariant
            forall|j: int| 0 <= j < i ==> !group@.contains(#[trigger] local@[j]),
    {
        if contains_colour(group, local[i]) {
            assert(local@.contains(local@[i as int]));
            return true;
        }
    }
    false
}

/// Colours that occur in one merger do so either way round.
pub proof fn lemma_together_symmetric(mergers: Seq<Seq<usize>>)
    ensures
        is_symmetric(together(mergers)),
{
    assert forall|a: usize, b: usize| #[trigger]
        together(mergers)(a, b) implies together(mergers)(b, a) by {
        let k = choose|k: int|
            0 <= k < mergers.len() && (#[trigger] mergers[k]).contains(a) && mergers[k].contains(
                b,
            );
        assert(mergers[k].contains(b));
    }
}

/// Where the old groups are right for the mergers so far, the new ones are right for
/// one merger more.
proof fn lemma_absorbed(
    groups: Seq<Seq<usize>>,
    mergers: Seq<Seq<usize>>,
    local: Seq<usize>,
    next: Seq<Seq<usize>>,
)
    requires
        grouped(groups, mergers),
        separate(next),
        forall|a: usize, b: usize| #[trigger]
            shares(next, a, b) <==> (absorbs(groups, local, a) && absorbs(groups, local, b))
                || stays_apart(groups, local, a, b),
    ensures
        grouped(next, mergers.push(local)),
{
    let more = mergers.push(local);
    let r = together(mergers);
    let s = together(more);
    lemma_together_symmetric(mergers);
    lemma_together_symmetric(more);
    assert(more[mergers.len() as int] == local);
    assert forall|a: usize, b: usize| #[trigger] r(a, b) implies s(a, b) by {
        let k = choose|k: int|
            0 <= k < mergers.len() && (#[trigger] mergers[k]).contains(a) && mergers[k].contains(
                b,
            );
        assert(more[k] == mergers[k]);
    }
    assert forall|a: usize, b: usize| joined(r, a, b) implies #[trigger] joined(s, a, b) by {
        assert forall|x: usize, y: usize| #[trigger] r(x, y) implies joined(s, x, y) by {
            lemma_joined_once(s, x, y);
        }
        lemma_joined_refines(r, s, a, b);
    }
    // An absorbed colour is linked to every colour of the merger.
    assert forall|x: usize, y: usize|
        absorbs(groups, local, x) && #[trigger] local.contains(y) implies #[trigger] joined(
        s,
        x,
        y,
    ) by {
        if local.contains(x) {
            assert(more[mergers.len() as int].contains(x));
            assert(s(x, y));
            lemma_joined_once(s, x, y);
        } else {
            let k = choose|k: int|
                0 <= k < groups.len() && (#[trigger] groups[k]).contains(x) && meets(
                    groups[k],
                    local,
                );
            let z = choose|z: usize| #[trigger] groups[k].contains(z) && local.contains(z);
            assert(shares(groups, x, z));
            assert(joined(s, x, z));
            assert(more[mergers.len() as int].contains(z));
            assert(s(z, y));
            lemma_joined_step(s, x, z, y);
        }
    }
    assert forall|x: usize| absorbs(groups, local, x) implies #[trigger] mentioned(more, x) by {
        if local.contains(x) {
            assert(more[mergers.len() as int].contains(x));
        } else {
            let k = choose|k: int|
                0 <= k < groups.len() && (#[trigger] groups[k]).contains(x) && meets(
                    groups[k],
                    local,
                );
            assert(shares(groups, x, x));
            let j = choose|j: int| 0 <= j < mergers.len() && (#[trigger] mergers[j]).contains(x);
            assert(more[j].contains(x));
        }
    }
    assert forall|a: usize, b: usize| #[trigger] shares(next, a, b) implies mentioned(more, a)
        && joined(s, a, b) by {
        if absorbs(groups, local, a) && absorbs(groups, local, b) {
            // Some colour of the merger lies between the two.
            let y = if local.contains(a) {
                a
            } else {
                let k = choose|k: int|
                    0 <= k < groups.len() && (#[trigger] groups[k]).contains(a) && meets(
                        groups[k],
                        local,
                    );
                choose|z: usize| #[trigger] groups[k].contains(z) && local.contains(z)
            };
            assert(local.contains(y));
            assert(joined(s, a, y));
            assert(joined(s, b, y));
            lemma_joined_symmetric(s, b, y);
            lemma_joined_transitive(s, a, y, b);
        } else {
            let k = choose|k: int|
                {
                    &&& 0 <= k < groups.len()
                    &&& (#[trigger] groups[k]).contains(a)
                    &&& groups[k].contains(b)
                    &&& !meets(groups[k], local)
                };
            assert(shares(groups, a, b));
            let j = choose|j: int| 0 <= j < mergers.len() && (#[trigger] mergers[j]).contains(a);
            assert(more[j].contains(a));
            assert(joined(s, a, b));
        }
    }
    assert forall|a: usize, b: usize|
        mentioned(more, a) && joined(s, a, b) implies #[trigger] shares(next, a, b) by {
        let inv = |x: usize| shares(next, a, x);
        // `a` itself is in some group.
        assert(inv(a)) by {
            let j = choose|j: int| 0 <= j < more.len() && (#[trigger] more[j]).contains(a);
            if j == mergers.len() {
                assert(absorbs(groups, local, a));
            } else {
                assert(mergers[j].contains(a));
                lemma_joined_self(r, a);
                assert(shares(groups, a, a));
                let k = choose|k: int|
                    0 <= k < groups.len() && (#[trigger] groups[k]).contains(a)
                        && groups[k].contains(a);
                if meets(groups[k], local) {
                    assert(absorbs(groups, local, a));
                } else {
                    assert(stays_apart(groups, local, a, a));
                }
            }
        }
        assert forall|x: usize, y: usize| inv(x) && #[trigger] s(x, y) implies inv(y) by {
            assert(shares(next, x, y)) by {
                let j = choose|j: int|
                    0 <= j < more.len() && (#[trigger] more[j]).contains(x) && more[j].contains(y);
                if j == mergers.len() {
                    assert(absorbs(groups, local, x));
                    assert(absorbs(groups, local, y));
                } else {
                    assert(mergers[j].contains(x) && mergers[j].contains(y));
                    assert(r(x, y));
                    lemma_joined_once(r, x, y);
                    assert(shares(groups, x, y));
                    let k = choose|k: int|
                        0 <= k < groups.len() && (#[trigger] groups[k]).contains(x)
                            && groups[k].contains(y);
                    if meets(groups[k], local) {
                        assert(absorbs(groups, local, x));
                        assert(absorbs(groups, local, y));
                    } else {
                        assert(stays_apart(groups, local, x, y));
                    }
                }
            }
            let i = choose|i: int|
                0 <= i < next.len() && (#[trigger] next[i]).contains(a) && next[i].contains(x);
            let j = choose|j: int|
                0 <= j < next.len() && (#[trigger] next[j]).contains(x) && next[j].contains(y);
            assert(i == j);
        }
        lemma_joined_keeps(s, inv, a, b);
    }
}

/// Merges the groups that have a colour in common with `local`, and `local` itself,
/// into one; the other groups stay.
fn absorb(groups: Vec<Vec<usize>>, local: Vec<usize>) -> (next: Vec<Vec<usize>>)
    requires
        separate(lists(groups@)),
    ensures
        separate(lists(next@)),
        forall|a: usize, b: usize| #[trigger]
            shares(lists(next@), a, b) <==> (absorbs(lists(groups@), local@, a) && absorbs(
                lists(groups@),
                local@,
                b,
            )) || stays_apart(lists(groups@), local@, a, b),
{
    let ghost all = lists(groups@);
    let ghost mut from: Seq<int> = Seq::empty();
    let mut groups = groups;
    let mut region: Vec<usize> = Vec::new();
    let mut next: Vec<Vec<usize>> = Vec::new();
    while groups.len() > 0
        invariant
            separate(all),
            groups@.len() <= all.len(),
            forall|k: int| 0 <= k < groups@.len() ==> (#[trigger] groups@[k])@ == all[k],
            forall|x: usize| #[trigger]
                region@.contains(x) <==> exists|k: int|
                    {
                        &&& groups@.len() <= k < all.len()
                        &&& (#[trigger] all[k]).contains(x)
                        &&& meets(all[k], local@)
                    },
            from.len() == next@.len(),
            forall|j: int|
                0 <= j < from.len() ==> groups@.len() <= #[trigger] from[j] < all.len(),
            forall|j: int|
                0 <= j < from.len() ==> next@[j]@ == all[#[trigger] from[j]] && !meets(
                    all[from[j]],
                    local@,
                ),
            forall|i: int, j: int| 0 <= i < j < from.len() ==> from[i] != from[j],
            forall|k: int|
                groups@.len() <= k < all.len() && !meets(#[trigger] all[k], local@)
                    ==> from.contains(k),
        decreases groups@.len(),
    {
        let ghost rest = groups@.len() - 1;
        let ghost region0 = region@;
        let ghost from0 = from;
        let mut group: Vec<usize> = match groups.pop() {
            Some(group) => group,
            None => Vec::new(),
        };
        assert(group@ == all[rest]);
        if any_common(&group, &local) {
            region.append(&mut group);
            proof {
                assert(region@ =~= region0 + all[rest]);
                assert forall|x: usize| #[trigger]
                    region@.contains(x) <==> exists|k: int|
                        {
                            &&& rest <= k < all.len()
                            &&& (#[trigger] all[k]).contains(x)
                            &&& meets(all[k], local@)
                        } by {
                    if region@.contains(x) {
                        let i = choose|i: int| 0 <= i < region@.len() && region@[i] == x;
                        if i < region0.len() {
                            assert(region0[i] == x);
                            assert(region0.contains(x));
                        } else {
                            assert(all[rest][i - region0.len()] == x);
                            assert(all[rest].contains(x));
                        }
                    }
                    if exists|k: int|
                        {
                            &&& rest <= k < all.len()
                            &&& (#[trigger] all[k]).contains(x)
                            &&& meets(all[k], local@)
                        } {
                        let k = choose|k: int|
                            {
                                &&& rest <= k < all.len()
                                &&& (#[trigger] all[k]).contains(x)
                                &&& meets(all[k], local@)
                            };
                        if k == rest {
                            let i = choose|i: int| 0 <= i < all[k].len() && all[k][i] == x;
                            assert(region@[region0.len() + i] == x);
                        } else {
                            assert(region0.contains(x));
                            let i = choose|i: int| 0 <= i < region0.len() && region0[i] == x;
                            assert(region@[i] == x);
                        }
                    }
                }
            }
        } else {
            next.push(group);
            proof {
                from = from.push(rest);
                assert forall|j: int| 0 <= j < from.len() implies next@[j]@
                    == all[#[trigger] from[j]] && !meets(all[from[j]], local@) by {
                    if j < from0.len() {
                        assert(from[j] == from0[j]);
                    }
                }
                assert forall|k: int|
                    rest <= k < all.len() && !meets(#[trigger] all[k], local@)
                    implies from.contains(k) by {
                    if k == rest {
                        assert(from[from0.len() as int] == k);
                    } else {
                        let i = choose|i: int| 0 <= i < from0.len() && from0[i] == k;
                        assert(from[i] == k);
                    }
                }
            }
        }
    }
    let ghost apart = next@;
    let ghost region0 = region@;
    let mut local = local;
    let ghost merger = local@;
    region.append(&mut local);
    sort_and_dedup(&mut region);
    proof {
        assert forall|x: usize| #[trigger] region@.contains(x) <==> absorbs(all, merger, x) by {
            let whole = region0 + merger;
            if region0.contains(x) {
                let i = choose|i: int| 0 <= i < region0.len() && region0[i] == x;
                assert(whole[i] == x);
            }
            if merger.contains(x) {
                let i = choose|i: int| 0 <= i < merger.len() && merger[i] == x;
                assert(whole[region0.len() + i] == x);
            }
            if whole.contains(x) {
                let i = choose|i: int| 0 <= i < whole.len() && whole[i] == x;
                if i < region0.len() {
                    assert(region0[i] == x);
                } else {
                    assert(merger[i - region0.len()] == x);
                }
            }
            assert(region0.contains(x) <==> exists|k: int|
                {
                    &&& 0 <= k < all.len()
                    &&& (#[trigger] all[k]).contains(x)
                    &&& meets(all[k], merger)
                });
        }
    }
    let ghost merged = region@;
    if region.len() > 0 {
        next.push(region);
    }
    proof {
        let out = lists(next@);
        assert forall|k: int| 0 <= k < out.len() implies (#[trigger] out[k]).len() > 0
            && is_increasing(out[k]) by {
            if k < apart.len() {
                assert(next@[k] == apart[k]);
                assert(out[k] == all[from[k]]);
            }
        }
        // A group that was not absorbed has no absorbed colour.
        assert forall|j: int, x: usize|
            0 <= j < apart.len() && #[trigger] out[j].contains(x) implies !absorbs(
            all,
            merger,
            x,
        ) by {
            assert(next@[j] == apart[j]);
            assert(all[from[j]].contains(x));
            if absorbs(all, merger, x) && !merger.contains(x) {
                let k = choose|k: int|
                    0 <= k < all.len() && (#[trigger] all[k]).contains(x) && meets(
                        all[k],
                        merger,
                    );
                assert(k == from[j]);
            }
        }
        assert forall|j: int, k: int, x: usize|
            0 <= j < out.len() && 0 <= k < out.len() && #[trigger] out[j].contains(x)
                && #[trigger] out[k].contains(x) implies j == k by {
            if j < apart.len() && k < apart.len() {
                assert(next@[j] == apart[j] && next@[k] == apart[k]);
                assert(all[from[j]].contains(x) && all[from[k]].contains(x));
                assert(from[j] == from[k]);
            } else {
                assert(merged.contains(x));
            }
        }
        assert(separate(out));
        assert forall|a: usize, b: usize| #[trigger]
            shares(out, a, b) <==> (absorbs(all, merger, a) && absorbs(all, merger, b))
                || stays_apart(all, merger, a, b) by {
            if shares(out, a, b) {
                let k = choose|k: int|
                    0 <= k < out.len() && (#[trigger] out[k]).contains(a) && out[k].contains(b);
                if k < apart.len() {
                    assert(next@[k] == apart[k]);
                    assert(all[from[k]].contains(a));
                } else {
                    assert(merged.contains(a) && merged.contains(b));
                }
            }
            if absorbs(all, merger, a) && absorbs(all, merger, b) {
                assert(merged.contains(a) && merged.contains(b));
                assert(merged.len() > 0);
                let last = out.len() - 1;
                assert(out[last] == merged);
                assert(out[last].contains(a));
            }
            if stays_apart(all, merger, a, b) {
                let k = choose|k: int|
                    {
                        &&& 0 <= k < all.len()
                        &&& (#[trigger] all[k]).contains(a)
                        &&& all[k].contains(b)
                        &&& !meets(all[k], merger)
                    };
                assert(from.contains(k));
                let j = choose|j: int| 0 <= j < from.len() && from[j] == k;
                assert(apart[j]@ == all[k]);
                assert(next@[j] == apart[j]);
                assert(out[j].contains(a));
            }
        }
    }
    next
}

/// The groups of colours that the mergers link.
fn connect(local_mergers: Vec<Vec<usize>>) -> (groups: Vec<Vec<usize>>)
    ensures
        grouped(lists(groups@), lists(local_mergers@)),
{
    let ghost all = lists(local_mergers@);
    let mut groups: Vec<Vec<usize>> = Vec::new();
    proof {
        assert(all.take(0) =~= Seq::empty());
        assert forall|a: usize, b: usize| #[trigger]
            shares(lists(groups@), a, b) <==> mentioned(all.take(0), a) && joined(
                together(all.take(0)),
                a,
                b,
            ) by {}
    }
    for local in it: local_mergers
        invariant
            all == lists(it.seq()),
            grouped(lists(groups@), all.take(it.index() as int)),
    {
        let ghost before = lists(groups@);
        assert(local@ == all[it.index() as int]);
        assert(all.take(it.index() as int).push(local@) =~= all.take(it.index() + 1));
        let ghost merger = local@;
        groups = absorb(groups, local);
        proof {
            lemma_absorbed(before, all.take(it.index() as int), merger, lists(groups@));
        }
    }
    assert(all.take(all.len() as int) =~= all);
    groups
}

/// Gives the colours of each region one colour. The mergers are lists of colours
/// that meet in one place; colours are of one region if any number of mergers link
/// them, in whatever order the mergers come. The entry of each colour of a region
/// becomes the least colour of the region, and the other entries stay.
pub fn make_colour_map(base_map: &mut [usize], local_mergers: Vec<Vec<usize>>)
    requires
        forall|c: usize| #[trigger]
            mentioned(lists(local_mergers@), c) ==> c < old(base_map)@.len(),
    ensures
        maps_to_least(old(base_map)@, lists(local_mergers@), final(base_map)@),
{
    let ghost base = base_map@;
    let ghost mergers = lists(local_mergers@);
    let groups = connect(local_mergers);
    let ghost all = lists(groups@);
    proof {
        assert forall|k: int, x: usize|
            0 <= k < all.len() && #[trigger] all[k].contains(x) implies x < base.len() by {
            assert(shares(all, x, x));
        }
    }
    for k in 0..groups.len()
        invariant
            all == lists(groups@),
            separate(all),
            base_map@.len() == base.len(),
            forall|k: int, x: usize|
                0 <= k < all.len() && #[trigger] all[k].contains(x) ==> x < base.len(),
            forall|j: int, x: usize|
                0 <= j < k && #[trigger] all[j].contains(x) ==> base_map@[x as int] == all[j][0],
            forall|x: usize|
                x < base.len() && (forall|j: int| 0 <= j < k ==> !(#[trigger] all[j]).contains(x))
                    ==> #[trigger] base_map@[x as int] == base[x as int],
    {
        let group = &groups[k];
        assert(group@ == all[k as int]);
        let merged: usize = group[0];
        let ghost before = base_map@;
        for i in 0..group.len()
            invariant
                group@ == all[k as int],
                0 <= k < all.len(),
                base_map@.len() == base.len(),
                before.len() == base.len(),
                is_increasing(group@),
                forall|k: int, x: usize|
                    0 <= k < all.len() && #[trigger] all[k].contains(x) ==> x < base.len(),
                forall|j: int| 0 <= j < i ==> base_map@[#[trigger] group@[j] as int] == merged,
                forall|x: usize|
                    x < base.len() && (forall|j: int| 0 <= j < i ==> #[trigger] group@[j] != x)
                        ==> #[trigger] base_map@[x as int] == before[x as int],
        {
            let original: usize = group[i];
            assert(all[k as int].contains(group@[i as int]));
            base_map[original] = merged;
        }
        proof {
            assert forall|j: int, x: usize|
                0 <= j < k + 1 && #[trigger] all[j].contains(x) implies base_map@[x as int]
                == all[j][0] by {
                if j == k {
                    let i = choose|i: int| 0 <= i < group@.len() && group@[i] == x;
                    assert(base_map@[group@[i] as int] == merged);
                } else {
                    assert(!all[k as int].contains(x));
                    assert(forall|i: int| 0 <= i < group@.len() ==> #[trigger] group@[i] != x);
                    assert(base_map@[x as int] == before[x as int]);
                }
            }
            assert forall|x: usize|
                x < base.len() && (forall|j: int|
                    0 <= j < k + 1 ==> !(#[trigger] all[j]).contains(x)) implies #[trigger]
            base_map@[x as int] == base[x as int] by {
                assert(!all[k as int].contains(x));
                assert(forall|i: int| 0 <= i < group@.len() ==> #[trigger] group@[i] != x);
                assert(base_map@[x as int] == before[x as int]);
            }
        }
    }
    proof {
        let map = base_map@;
        assert forall|c: usize|
            #![trigger map[c as int]]
            c < map.len() implies if mentioned(mergers, c) {
            is_least_joined(together(mergers), c, map[c as int])
        } else {
            map[c as int] == base[c as int]
        } by {
            if mentioned(mergers, c) {
                lemma_joined_self(together(mergers), c);
                assert(shares(all, c, c));
                let k = choose|k: int|
                    0 <= k < all.len() && (#[trigger] all[k]).contains(c) && all[k].contains(c);
                assert(map[c as int] == all[k][0]);
                assert(all[k].contains(all[k][0]));
                assert(shares(all, c, all[k][0]));
                assert forall|d: usize| #[trigger]
                    joined(together(mergers), c, d) implies map[c as int] <= d by {
                    assert(shares(all, c, d));
                    let j = choose|j: int|
                        0 <= j < all.len() && (#[trigger] all[j]).contains(c) && all[j].contains(
                            d,
                        );
                    assert(j == k);
                    let i = choose|i: int| 0 <= i < all[k].len() && all[k][i] == d;
                }
            } else {
                assert forall|j: int| 0 <= j < all.len() implies !(#[trigger] all[j]).contains(
                    c,
                ) by {
                    if all[j].contains(c) {
                        assert(shares(all, c, c));
                    }
                }
            }
        }
    }
}

} // verus!
