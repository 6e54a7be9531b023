//! Stable insertion sort, specified generically over a comparison
//! relation. The relation only has to be total on the elements at hand;
//! sortedness is stated over adjacent pairs, which is all a total (not
//! necessarily transitive) relation can promise.

use vstd::prelude::*;

verus! {

/// Adjacent pairs of `s` are ordered by `le`.
pub open spec fn sorted_le<T>(le: spec_fn(T, T) -> bool, s: Seq<T>) -> bool {
    forall|i: int| 0 <= i < s.len() - 1 ==> le(#[trigger] s[i], s[i + 1])
}

/// Stable insertion of `x` into `s`: `x` goes after every leading element
/// that compares less-or-equal to it, so an equal element already in `s`
/// stays in front of `x`.
pub open spec fn insert_by<T>(le: spec_fn(T, T) -> bool, x: T, s: Seq<T>) -> Seq<T>
    decreases s.len(),
{
    if s.len() == 0 {
        seq![x]
    } else if le(s[0], x) {
        seq![s[0]] + insert_by(le, x, s.drop_first())
    } else {
        seq![x] + s
    }
}

/// Stable insertion sort: elements are inserted left to right, so equal
/// elements keep their original relative order.
pub open spec fn sort_stable<T>(le: spec_fn(T, T) -> bool, s: Seq<T>) -> Seq<T>
    decreases s.len(),
{
    if s.len() == 0 {
        Seq::empty()
    } else {
        insert_by(le, s.last(), sort_stable(le, s.drop_last()))
    }
}

pub proof fn lemma_insert_by_len<T>(le: spec_fn(T, T) -> bool, x: T, s: Seq<T>)
    ensures
        insert_by(le, x, s).len() == s.len() + 1,
    decreases s.len(),
{
    if s.len() != 0 && le(s[0], x) {
        lemma_insert_by_len(le, x, s.drop_first());
    }
}
/// Every element of the insertion result is `x` or comes from `s`.
pub proof fn lemma_insert_by_contains<T>(le: spec_fn(T, T) -> bool, x: T, s: Seq<T>)
    ensures
        forall|k: int|
            0 <= k < insert_by(le, x, s).len() ==> (#[trigger] insert_by(le, x, s)[k] == x
                || s.contains(insert_by(le, x, s)[k])),
    decreases s.len(),
{
    let out = insert_by(le, x, s);
    if s.len() == 0 {
    } else if le(s[0], x) {
        lemma_insert_by_contains(le, x, s.drop_first());
        let rest = insert_by(le, x, s.drop_first());
        assert forall|k: int| 0 <= k < out.len() implies (#[trigger] out[k] == x || s.contains(
            out[k],
        )) by {
            if k == 0 {
                assert(s.contains(s[0]));
            } else {
                assert(out[k] == rest[k - 1]);
                if rest[k - 1] != x {
                    let j = choose|j: int| 0 <= j < s.drop_first().len() && s.drop_first()[j]
                        == rest[k - 1];
                    assert(s[j + 1] == rest[k - 1]);
                }
            }
        }
    } else {
        assert forall|k: int| 0 <= k < out.len() implies (#[trigger] out[k] == x || s.contains(
            out[k],
        )) by {
            if k > 0 {
                assert(out[k] == s[k - 1]);
            }
        }
    }
}

/// Every element of the sorted result comes from `s`.
pub proof fn lemma_sort_stable_contains<T>(le: spec_fn(T, T) -> bool, s: Seq<T>)
    ensures
        forall|k: int|
            0 <= k < sort_stable(le, s).len() ==> s.contains(#[trigger] sort_stable(le, s)[k]),
    decreases s.len(),
{
    let out = sort_stable(le, s);
    if s.len() != 0 {
        let prefix = sort_stable(le, s.drop_last());
        lemma_sort_stable_contains(le, s.drop_last());
        lemma_insert_by_contains(le, s.last(), prefix);
        assert forall|k: int| 0 <= k < out.len() implies s.contains(#[trigger] out[k]) by {
            if out[k] == s.last() {
                assert(s[s.len() - 1] == s.last());
            } else {
                assert(prefix.contains(out[k]));
                let j = choose|j: int| 0 <= j < prefix.len() && prefix[j] == out[k];
                assert(s.drop_last().contains(prefix[j]));
                let m = choose|m: int| 0 <= m < s.drop_last().len() && s.drop_last()[m]
                    == prefix[j];
                assert(s[m] == out[k]);
            }
        }
    }
}

/// Inserting into a sorted sequence keeps it sorted, provided `le` is
/// total between `x` and the elements of `s`.
pub proof fn lemma_insert_by_sorted<T>(le: spec_fn(T, T) -> bool, x: T, s: Seq<T>)
    requires
        sorted_le(le, s),
        forall|k: int| 0 <= k < s.len() ==> le(#[trigger] s[k], x) || le(x, s[k]),
    ensures
        sorted_le(le, insert_by(le, x, s)),
    decreases s.len(),
{
    let out = insert_by(le, x, s);
    if s.len() == 0 {
    } else if le(s[0], x) {
        let rest = insert_by(le, x, s.drop_first());
        assert(sorted_le(le, s.drop_first())) by {
            assert forall|i: int| 0 <= i < s.drop_first().len() - 1 implies le(
                #[trigger] s.drop_first()[i],
                s.drop_first()[i + 1],
            ) by {
                assert(s.drop_first()[i] == s[i + 1]);
                assert(s.drop_first()[i + 1] == s[i + 2]);
            }
        }
        lemma_insert_by_sorted(le, x, s.drop_first());
        lemma_insert_by_len(le, x, s.drop_first());
        assert forall|i: int| 0 <= i < out.len() - 1 implies le(#[trigger] out[i], out[i + 1]) by {
            if i == 0 {
                if s.drop_first().len() == 0 {
                    assert(out[1] == rest[0]);
                    assert(rest[0] == x);
                } else if le(s.drop_first()[0], x) {
                    assert(out[1] == rest[0]);
                    assert(rest[0] == s.drop_first()[0]);
                    assert(le(s[0], s[1]));
                } else {
                    assert(out[1] == rest[0]);
                    assert(rest[0] == x);
                }
            } else {
                assert(out[i] == rest[i - 1]);
                assert(out[i + 1] == rest[i]);
            }
        }
    } else {
        assert(le(x, s[0]));
        assert forall|i: int| 0 <= i < out.len() - 1 implies le(#[trigger] out[i], out[i + 1]) by {
            if i > 0 {
                assert(out[i] == s[i - 1]);
                assert(out[i + 1] == s[i]);
            }
        }
    }
}

/// The sorted result is ordered, provided `le` is total on the elements
/// of `s`.
pub proof fn lemma_sort_stable_sorted<T>(le: spec_fn(T, T) -> bool, s: Seq<T>)
    requires
        forall|i: int, j: int|
            0 <= i < s.len() && 0 <= j < s.len() ==> le(#[trigger] s[i], #[trigger] s[j]) || le(
                s[j],
                s[i],
            ),
    ensures
        sorted_le(le, sort_stable(le, s)),
    decreases s.len(),
{
    if s.len() != 0 {
        let prefix = sort_stable(le, s.drop_last());
        assert forall|i: int, j: int|
            0 <= i < s.drop_last().len() && 0 <= j < s.drop_last().len() implies le(
            #[trigger] s.drop_last()[i],
            #[trigger] s.drop_last()[j],
        ) || le(s.drop_last()[j], s.drop_last()[i]) by {
            assert(s.drop_last()[i] == s[i]);
            assert(s.drop_last()[j] == s[j]);
        }
        lemma_sort_stable_sorted(le, s.drop_last());
        lemma_sort_stable_contains(le, s.drop_last());
        assert forall|k: int| 0 <= k < prefix.len() implies le(#[trigger] prefix[k], s.last()) || le(
            s.last(),
            prefix[k],
        ) by {
            assert(s.drop_last().contains(prefix[k]));
            let j = choose|j: int| 0 <= j < s.drop_last().len() && s.drop_last()[j] == prefix[k];
            assert(s[j] == prefix[k]);
            assert(s[s.len() - 1] == s.last());
        }
        lemma_insert_by_sorted(le, s.last(), prefix);
    }
}

/// Characterizes `insert_by` by the insertion position: if the first `j`
/// elements compare below-or-equal to `x` and the next one (if any) does
/// not, `x` lands exactly at index `j`.
pub proof fn lemma_insert_by_at<T>(le: spec_fn(T, T) -> bool, x: T, s: Seq<T>, j: int)
    requires
        0 <= j <= s.len(),
        forall|k: int| 0 <= k < j ==> le(#[trigger] s[k], x),
        j < s.len() ==> !le(s[j], x),
    ensures
        insert_by(le, x, s) == s.subrange(0, j) + seq![x] + s.subrange(j, s.len() as int),
    decreases s.len(),
{
    if s.len() == 0 {
        assert(insert_by(le, x, s) =~= s.subrange(0, j) + seq![x] + s.subrange(
            j,
            s.len() as int,
        ));
    } else if j == 0 {
        assert(!le(s[0], x));
        assert(insert_by(le, x, s) =~= s.subrange(0, 0) + seq![x] + s.subrange(0, s.len() as int));
    } else {
        assert(le(s[0], x));
        let rest = s.drop_first();
        assert forall|k: int| 0 <= k < j - 1 implies le(#[trigger] rest[k], x) by {
            assert(rest[k] == s[k + 1]);
        }
        if j - 1 < rest.len() {
            assert(rest[j - 1] == s[j]);
        }
        lemma_insert_by_at(le, x, rest, j - 1);
        assert(insert_by(le, x, s) =~= s.subrange(0, j) + seq![x] + s.subrange(
            j,
            s.len() as int,
        )) by {
            assert(rest.subrange(0, j - 1) =~= s.subrange(1, j));
            assert(rest.subrange(j - 1, rest.len() as int) =~= s.subrange(j, s.len() as int));
        }
    }
}

/// Sorting permutes: the result carries exactly the elements of `s`.
pub proof fn lemma_insert_by_multiset<T>(le: spec_fn(T, T) -> bool, x: T, s: Seq<T>)
    ensures
        insert_by(le, x, s).to_multiset() == s.to_multiset().insert(x),
    decreases s.len(),
{
    broadcast use vstd::seq_lib::group_to_multiset_ensures;

    if s.len() == 0 {
        assert(insert_by(le, x, s) =~= Seq::empty().push(x));
        assert(Seq::<T>::empty().push(x).to_multiset() =~= s.to_multiset().insert(x));
    } else if le(s[0], x) {
        lemma_insert_by_multiset(le, x, s.drop_first());
        let rest = insert_by(le, x, s.drop_first());
        assert(insert_by(le, x, s) =~= seq![s[0]] + rest);
        assert((seq![s[0]] + rest).to_multiset() =~= rest.to_multiset().insert(s[0])) by {
            lemma_multiset_prepend(s[0], rest);
        }
        assert(s =~= seq![s[0]] + s.drop_first());
        assert(s.to_multiset() =~= s.drop_first().to_multiset().insert(s[0])) by {
            lemma_multiset_prepend(s[0], s.drop_first());
        }
        assert(insert_by(le, x, s).to_multiset() =~= s.to_multiset().insert(x));
    } else {
        assert(insert_by(le, x, s) =~= seq![x] + s);
        lemma_multiset_prepend(x, s);
        assert(insert_by(le, x, s).to_multiset() =~= s.to_multiset().insert(x));
    }
}

proof fn lemma_multiset_prepend<T>(x: T, s: Seq<T>)
    ensures
        (seq![x] + s).to_multiset() == s.to_multiset().insert(x),
    decreases s.len(),
{
    broadcast use vstd::seq_lib::group_to_multiset_ensures;

    if s.len() == 0 {
        assert(seq![x] + s =~= Seq::empty().push(x));
        assert((Seq::<T>::empty().push(x)).to_multiset() =~= s.to_multiset().insert(x));
    } else {
        let shorter = seq![x] + s.drop_last();
        lemma_multiset_prepend(x, s.drop_last());
        assert(seq![x] + s =~= shorter.push(s.last()));
        assert(s =~= s.drop_last().push(s.last()));
        assert((seq![x] + s).to_multiset() =~= shorter.to_multiset().insert(s.last()));
        assert(s.to_multiset() =~= s.drop_last().to_multiset().insert(s.last()));
        assert((seq![x] + s).to_multiset() =~= s.to_multiset().insert(x));
    }
}

pub proof fn lemma_sort_stable_multiset<T>(le: spec_fn(T, T) -> bool, s: Seq<T>)
    ensures
        sort_stable(le, s).to_multiset() == s.to_multiset(),
    decreases s.len(),
{
    broadcast use vstd::seq_lib::group_to_multiset_ensures;

    if s.len() != 0 {
        lemma_sort_stable_multiset(le, s.drop_last());
        lemma_insert_by_multiset(le, s.last(), sort_stable(le, s.drop_last()));
        assert(s =~= s.drop_last().push(s.last()));
        assert(s.to_multiset() =~= s.drop_last().to_multiset().insert(s.last()));
    }
}

} // verus!
