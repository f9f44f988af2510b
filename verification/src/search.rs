//! Where the first item of a sequence that meets a condition stands.
use vstd::prelude::*;

verus! {

/// Whether `i` is the place of the first item of `s` that meets `wanted`.
pub open spec fn is_first_match<T>(s: Seq<T>, wanted: spec_fn(T) -> bool, i: int) -> bool {
    &&& 0 <= i < s.len()
    &&& wanted(s[i])
    &&& forall|j: int| 0 <= j < i ==> !wanted(#[trigger] s[j])
}

/// The place of the first item of `s` that meets `wanted`, if there is one.
pub open spec fn first_match<T>(s: Seq<T>, wanted: spec_fn(T) -> bool) -> Option<int> {
    if exists|i: int| is_first_match(s, wanted, i) {
        Some(choose|i: int| is_first_match(s, wanted, i))
    } else {
        None
    }
}

/// A place that meets the condition, with none before it that does, is the first match.
pub proof fn lemma_first_match_is<T>(s: Seq<T>, wanted: spec_fn(T) -> bool, i: int)
    requires
        is_first_match(s, wanted, i),
    ensures
        first_match(s, wanted) == Some(i),
{
    let k = choose|k: int| is_first_match(s, wanted, k);
    if k < i {
        assert(!wanted(s[k]));
    } else if i < k {
        assert(!wanted(s[i]));
    }
}

/// Where no item meets the condition there is no first match.
pub proof fn lemma_first_match_none<T>(s: Seq<T>, wanted: spec_fn(T) -> bool)
    requires
        forall|j: int| 0 <= j < s.len() ==> !wanted(#[trigger] s[j]),
    ensures
        first_match(s, wanted) is None,
{
    if exists|i: int| is_first_match(s, wanted, i) {
        let k = choose|k: int| is_first_match(s, wanted, k);
        assert(!wanted(s[k]));
    }
}

/// What a first match is: a place inside the sequence that meets the condition, after
/// places that do not; and where there is none, no place meets it.
pub proof fn lemma_first_match_facts<T>(s: Seq<T>, wanted: spec_fn(T) -> bool)
    ensures
        match first_match(s, wanted) {
            Some(i) => is_first_match(s, wanted, i),
            None => forall|j: int| 0 <= j < s.len() ==> !wanted(#[trigger] s[j]),
        },
{
    if first_match(s, wanted) is None {
        assert forall|j: int| 0 <= j < s.len() implies !wanted(#[trigger] s[j]) by {
            if wanted(s[j]) {
                lemma_some_match_has_first(s, wanted, j);
            }
        }
    }
}

/// Where some item meets the condition, one of them is the first.
pub proof fn lemma_some_match_has_first<T>(s: Seq<T>, wanted: spec_fn(T) -> bool, j: int)
    requires
        0 <= j < s.len(),
        wanted(s[j]),
    ensures
        exists|i: int| is_first_match(s, wanted, i),
    decreases j,
{
    if exists|k: int| 0 <= k < j && wanted(s[k]) {
        let k = choose|k: int| 0 <= k < j && wanted(s[k]);
        lemma_some_match_has_first(s, wanted, k);
    } else {
        assert(is_first_match(s, wanted, j));
    }
}

/// How many items of `s` meet `wanted`.
pub open spec fn count_matching<T>(s: Seq<T>, wanted: spec_fn(T) -> bool) -> nat
    decreases s.len(),
{
    if s.len() == 0 {
        0
    } else {
        count_matching(s.drop_last(), wanted) + if wanted(s.last()) {
            1nat
        } else {
            0nat
        }
    }
}

/// No more items meet a condition than there are items; none do exactly where no item
/// meets it.
pub proof fn lemma_count_matching_bounds<T>(s: Seq<T>, wanted: spec_fn(T) -> bool)
    ensures
        count_matching(s, wanted) <= s.len(),
        count_matching(s, wanted) == 0 <==> forall|i: int|
            0 <= i < s.len() ==> !wanted(#[trigger] s[i]),
        count_matching(s, wanted) == s.len() <==> forall|i: int|
            0 <= i < s.len() ==> wanted(#[trigger] s[i]),
    decreases s.len(),
{
    if s.len() > 0 {
        let front = s.drop_last();
        lemma_count_matching_bounds(front, wanted);
        if forall|i: int| 0 <= i < s.len() ==> !wanted(#[trigger] s[i]) {
            assert forall|i: int| 0 <= i < front.len() implies !wanted(#[trigger] front[i]) by {
                assert(front[i] == s[i]);
            }
            assert(!wanted(s[s.len() - 1]));
        }
        if forall|i: int| 0 <= i < s.len() ==> wanted(#[trigger] s[i]) {
            assert forall|i: int| 0 <= i < front.len() implies wanted(#[trigger] front[i]) by {
                assert(front[i] == s[i]);
            }
            assert(wanted(s[s.len() - 1]));
        }
        if count_matching(s, wanted) == 0 {
            assert forall|i: int| 0 <= i < s.len() implies !wanted(#[trigger] s[i]) by {
                if i < front.len() {
                    assert(front[i] == s[i]);
                }
            }
        }
        if count_matching(s, wanted) == s.len() {
            assert forall|i: int| 0 <= i < s.len() implies wanted(#[trigger] s[i]) by {
                if i < front.len() {
                    assert(front[i] == s[i]);
                }
            }
        }
    }
}

/// The condition of being equal to `x`.
pub open spec fn is_value<T>(x: T) -> spec_fn(T) -> bool {
    |y: T| y == x
}

/// Counting the places where a value stands agrees with counting it in the multiset of
/// the sequence.
pub proof fn lemma_count_is_multiset_count<T>(s: Seq<T>, x: T)
    ensures
        count_matching(s, is_value(x)) == s.to_multiset().count(x),
    decreases s.len(),
{
    broadcast use vstd::multiset::group_multiset_axioms;

    if s.len() == 0 {
        vstd::seq_lib::to_multiset_len(s);
        assert(s.to_multiset().len() == 0);
        if s.to_multiset().count(x) > 0 {
            vstd::seq_lib::to_multiset_contains(s, x);
        }
    } else {
        let front = s.drop_last();
        lemma_count_is_multiset_count(front, x);
        vstd::seq_lib::to_multiset_build(front, s.last());
        assert(front.push(s.last()) =~= s);
    }
}

/// Where exactly one item meets a condition, two places that meet it are one place.
pub proof fn lemma_single_match<T>(s: Seq<T>, wanted: spec_fn(T) -> bool, i: int, j: int)
    requires
        count_matching(s, wanted) == 1,
        0 <= i < s.len(),
        0 <= j < s.len(),
        wanted(s[i]),
        wanted(s[j]),
    ensures
        i == j,
    decreases s.len(),
{
    let front = s.drop_last();
    if wanted(s.last()) {
        lemma_count_matching_bounds(front, wanted);
        if i < front.len() {
            assert(wanted(front[i]));
        }
        if j < front.len() {
            assert(wanted(front[j]));
        }
    } else {
        assert(front[i] == s[i]);
        assert(front[j] == s[j]);
        lemma_single_match(front, wanted, i, j);
    }
}

/// The places of `s` whose items meet `wanted`, in rising order.
pub open spec fn places_matching<T>(s: Seq<T>, wanted: spec_fn(T) -> bool) -> Seq<int>
    decreases s.len(),
{
    if s.len() == 0 {
        Seq::empty()
    } else {
        let before = places_matching(s.drop_last(), wanted);
        if wanted(s.last()) {
            before.push(s.len() - 1)
        } else {
            before
        }
    }
}

/// A list of indices as contracts see it.
pub open spec fn as_places(indices: Seq<usize>) -> Seq<int> {
    indices.map_values(|i: usize| i as int)
}

/// One more item at the end counts one more where it meets the condition.
pub proof fn lemma_count_matching_push<T>(s: Seq<T>, item: T, wanted: spec_fn(T) -> bool)
    ensures
        count_matching(s.push(item), wanted) == count_matching(s, wanted) + if wanted(item) {
            1nat
        } else {
            0nat
        },
{
    assert(s.push(item).drop_last() =~= s);
}

/// What meets a condition in two sequences put together is what meets it in the one and
/// what meets it in the other.
pub proof fn lemma_count_matching_concat<T>(a: Seq<T>, b: Seq<T>, wanted: spec_fn(T) -> bool)
    ensures
        count_matching(a + b, wanted) == count_matching(a, wanted) + count_matching(b, wanted),
    decreases b.len(),
{
    if b.len() == 0 {
        assert(a + b =~= a);
    } else {
        lemma_count_matching_concat(a, b.drop_last(), wanted);
        assert((a + b).drop_last() =~= a + b.drop_last());
        assert((a + b).last() == b.last());
    }
}

} // verus!
