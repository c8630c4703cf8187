//! What the searches achieve when the comparisons behave as an ordering.
//!
//! The searches themselves promise nothing about order: they follow the answers they
//! are given. The laws here say what follows once those answers come from a strict
//! weak order under which the list is sorted.

use crate::error::SortedListError;
use crate::search::{bisects_to, finds, inserts, midpoint};
use vstd::prelude::*;

verus! {

/// `lt` is a strict weak order: nothing is less than itself, "less" is transitive,
/// and so is "not less".
pub open spec fn strict_weak_order<E>(lt: spec_fn(E, E) -> bool) -> bool {
    &&& forall|a: E| !#[trigger] lt(a, a)
    &&& forall|a: E, b: E, c: E| #[trigger] lt(a, b) && #[trigger] lt(b, c) ==> lt(a, c)
    &&& forall|a: E, b: E, c: E|
        #![trigger lt(a, b), lt(b, c)]
        !lt(a, b) && !lt(b, c) ==> !lt(a, c)
}

/// No element of `s` is less than one that stands before it.
pub open spec fn sorted_by<E>(s: Seq<E>, lt: spec_fn(E, E) -> bool) -> bool {
    forall|i: int, j: int| 0 <= i < j < s.len() ==> !lt(#[trigger] s[j], #[trigger] s[i])
}

/// `i` parts `s` into the elements that `x` is not less than, before `i`, and the
/// elements that `x` is less than, from `i` on.
pub open spec fn is_insertion_point<E>(s: Seq<E>, x: E, lt: spec_fn(E, E) -> bool, i: int) -> bool {
    &&& 0 <= i <= s.len()
    &&& forall|k: int| 0 <= k < i ==> !lt(x, #[trigger] s[k])
    &&& forall|k: int| i <= k < s.len() ==> lt(x, #[trigger] s[k])
}

/// Every comparison of `x` against an element of `s` succeeds and answers by `lt`.
pub open spec fn answers_follow<E>(
    answers: spec_fn(usize, Option<bool>) -> bool,
    s: Seq<E>,
    x: E,
    lt: spec_fn(E, E) -> bool,
) -> bool {
    forall|at: usize, answer: Option<bool>|
        at < s.len() && #[trigger] answers(at, answer) ==> answer == Some(lt(x, s[at as int]))
}

/// An element of `s` is taken for `x` exactly when it is `x`.
pub open spec fn verdicts_follow<E>(verdicts: spec_fn(usize, bool) -> bool, s: Seq<E>, x: E) -> bool {
    forall|at: usize, hit: bool|
        at < s.len() && #[trigger] verdicts(at, hit) ==> hit == (s[at as int] == x)
}

/// The induction behind [`lemma_bisect_finds_insertion_point`]: a bisection of
/// `[beg, end)` that has `x` not less than anything before `beg`, and less than
/// everything from `end` on, ends at the insertion point.
proof fn lemma_bisect_narrows<E>(
    s: Seq<E>,
    x: E,
    lt: spec_fn(E, E) -> bool,
    answers: spec_fn(usize, Option<bool>) -> bool,
    beg: int,
    end: int,
    r: Result<usize, SortedListError>,
)
    requires
        strict_weak_order(lt),
        sorted_by(s, lt),
        answers_follow(answers, s, x, lt),
        0 <= beg <= end <= s.len() <= usize::MAX,
        forall|k: int| 0 <= k < beg ==> !lt(x, #[trigger] s[k]),
        forall|k: int| end <= k < s.len() ==> lt(x, #[trigger] s[k]),
        bisects_to(answers, beg, end, r),
    ensures
        r matches Ok(i) && is_insertion_point(s, x, lt, i as int),
    decreases end - beg,
{
    if beg < end {
        let mid = midpoint(beg, end);
        let answer = choose|answer: Option<bool>| #[trigger]
            answers(mid as usize, answer) && match answer {
                Some(true) => bisects_to(answers, beg, mid, r),
                Some(false) => bisects_to(answers, mid + 1, end, r),
                None => r == Err::<usize, SortedListError>(SortedListError::Incomparable),
            };
        assert(answer == Some(lt(x, s[mid])));
        if lt(x, s[mid]) {
            assert forall|k: int| mid <= k < s.len() implies lt(x, #[trigger] s[k]) by {
                if mid < k && !lt(x, s[k]) {
                    assert(!lt(s[k], s[mid]));
                }
            }
            lemma_bisect_narrows(s, x, lt, answers, beg, mid, r);
        } else {
            assert forall|k: int| 0 <= k < mid + 1 implies !lt(x, #[trigger] s[k]) by {
                if k < mid {
                    assert(!lt(s[mid], s[k]));
                }
            }
            lemma_bisect_narrows(s, x, lt, answers, mid + 1, end, r);
        }
    }
}

/// Bisecting all of a sorted sequence, with comparisons that answer by a strict weak
/// order, succeeds and returns the insertion point of the new element: the place
/// after every element that the new one is not less than.
pub proof fn lemma_bisect_finds_insertion_point<E>(
    s: Seq<E>,
    x: E,
    lt: spec_fn(E, E) -> bool,
    answers: spec_fn(usize, Option<bool>) -> bool,
    r: Result<usize, SortedListError>,
)
    requires
        strict_weak_order(lt),
        sorted_by(s, lt),
        s.len() <= usize::MAX,
        answers_follow(answers, s, x, lt),
        bisects_to(answers, 0, s.len() as int, r),
    ensures
        r matches Ok(at) && is_insertion_point(s, x, lt, at as int),
{
    lemma_bisect_narrows(s, x, lt, answers, 0, s.len() as int, r);
}

/// A sorted sequence stays sorted under an addition: with comparisons that answer
/// by a strict weak order under which `before` is sorted, adding `x` succeeds, puts
/// `x` at its insertion point, makes the sequence longer by one, and leaves it
/// sorted.
pub proof fn lemma_insert_keeps_sorted<E>(
    before: Seq<E>,
    x: E,
    lt: spec_fn(E, E) -> bool,
    answers: spec_fn(usize, Option<bool>) -> bool,
    r: Result<(), SortedListError>,
    after: Seq<E>,
)
    requires
        strict_weak_order(lt),
        sorted_by(before, lt),
        before.len() <= usize::MAX,
        answers_follow(answers, before, x, lt),
        inserts(answers, before, x, r, after),
    ensures
        r is Ok,
        exists|at: int| #[trigger]
            is_insertion_point(before, x, lt, at) && after == before.insert(at, x),
        after.len() == before.len() + 1,
        sorted_by(after, lt),
{
    match r {
        Ok(()) => {
            let at = choose|at: usize| #[trigger]
                bisects_to(answers, 0, before.len() as int, Ok(at)) && after == before.insert(
                    at as int,
                    x,
                );
            lemma_bisect_narrows(before, x, lt, answers, 0, before.len() as int, Ok(at));
            lemma_insertion_point_keeps_sorted(before, x, lt, at as int);
            assert(is_insertion_point(before, x, lt, at as int));
        },
        Err(e) => {
            lemma_bisect_narrows(before, x, lt, answers, 0, before.len() as int, Err(e));
        },
    }
}

/// Adding an element at its insertion point leaves a sorted list sorted.
pub proof fn lemma_insertion_point_keeps_sorted<E>(
    s: Seq<E>,
    x: E,
    lt: spec_fn(E, E) -> bool,
    i: int,
)
    requires
        strict_weak_order(lt),
        sorted_by(s, lt),
        is_insertion_point(s, x, lt, i),
    ensures
        sorted_by(s.insert(i, x), lt),
{
    let grown = s.insert(i, x);
    assert forall|a: int, b: int| 0 <= a < b < grown.len() implies !lt(
        #[trigger] grown[b],
        #[trigger] grown[a],
    ) by {
        if b == i {
            assert(grown[a] == s[a]);
        } else if a == i {
            assert(grown[b] == s[b - 1]);
            assert(lt(x, s[b - 1]));
            if lt(s[b - 1], x) {
                assert(lt(x, x));
            }
        } else {
            let a0 = if a < i { a } else { a - 1 };
            let b0 = if b < i { b } else { b - 1 };
            assert(grown[a] == s[a0]);
            assert(grown[b] == s[b0]);
        }
    }
}

/// Whether `after` is `before` with one element added, by comparisons that all
/// succeeded and answered by `lt`.
pub open spec fn grows_in_order<E>(before: Seq<E>, after: Seq<E>, lt: spec_fn(E, E) -> bool) -> bool {
    exists|x: E, answers: spec_fn(usize, Option<bool>) -> bool|
        answers_follow(answers, before, x, lt) && #[trigger] inserts(
            answers,
            before,
            x,
            Ok(()),
            after,
        )
}

/// However many elements are added to an empty sequence, one after another, by
/// comparisons that answer by a strict weak order: the sequence is sorted after
/// each addition, and holds as many elements as were added.
pub proof fn lemma_additions_keep_sorted<E>(states: Seq<Seq<E>>, lt: spec_fn(E, E) -> bool)
    requires
        strict_weak_order(lt),
        0 < states.len() <= usize::MAX,
        states[0] == Seq::<E>::empty(),
        forall|k: int|
            0 <= k < states.len() - 1 ==> #[trigger] grows_in_order(states[k], states[k + 1], lt),
    ensures
        forall|k: int| 0 <= k < states.len() ==> sorted_by(#[trigger] states[k], lt),
        forall|k: int| 0 <= k < states.len() ==> (#[trigger] states[k]).len() == k,
    decreases states.len(),
{
    if states.len() > 1 {
        let n = states.len() - 1;
        let earlier = states.drop_last();
        assert forall|k: int| 0 <= k < earlier.len() - 1 implies #[trigger] grows_in_order(
            earlier[k],
            earlier[k + 1],
            lt,
        ) by {
            assert(grows_in_order(states[k], states[k + 1], lt));
        }
        lemma_additions_keep_sorted(earlier, lt);
        assert(earlier[n - 1] == states[n - 1]);
        assert(grows_in_order(states[n - 1], states[n - 1 + 1], lt));
        let (x, answers) = choose|x: E, answers: spec_fn(usize, Option<bool>) -> bool|
            answers_follow(answers, states[n - 1], x, lt) && #[trigger] inserts(
                answers,
                states[n - 1],
                x,
                Ok(()),
                states[n],
            );
        lemma_insert_keeps_sorted(states[n - 1], x, lt, answers, Ok(()), states[n]);
        assert forall|k: int| 0 <= k < states.len() implies sorted_by(#[trigger] states[k], lt)
            && states[k].len() == k by {
            if k < n {
                assert(earlier[k] == states[k]);
            }
        }
    }
}

/// The induction behind [`lemma_inserted_is_found`]: a lookup in a range that holds
/// `x` at `at`, with `x` not less than anything before `at` and less than everything
/// after it, ends on a position that holds `x`.
proof fn lemma_find_closes_in<E>(
    s: Seq<E>,
    x: E,
    lt: spec_fn(E, E) -> bool,
    at: int,
    verdicts: spec_fn(usize, bool) -> bool,
    answers: spec_fn(usize, Option<bool>) -> bool,
    beg: int,
    end: int,
    r: Option<usize>,
)
    requires
        s.len() <= usize::MAX,
        0 <= beg <= at < end <= s.len(),
        s[at] == x,
        forall|k: int| 0 <= k < at ==> !lt(x, #[trigger] s[k]),
        forall|k: int| at < k < s.len() ==> lt(x, #[trigger] s[k]),
        verdicts_follow(verdicts, s, x),
        answers_follow(answers, s, x, lt),
        finds(verdicts, answers, s.len() as int, beg, end, r),
    ensures
        r matches Some(j) && beg <= j < end && s[j as int] == x,
    decreases end - beg,
{
    let mid = midpoint(beg, end);
    let len = s.len() as int;
    let hit = choose|hit: bool| #[trigger]
        verdicts(mid as usize, hit) && if hit {
            r == Some(mid as usize)
        } else {
            exists|answer: Option<bool>| #[trigger]
                answers(mid as usize, answer) && match answer {
                    Some(true) => finds(verdicts, answers, len, beg, mid, r),
                    Some(false) => finds(verdicts, answers, len, mid + 1, end, r),
                    None => r is None,
                }
        };
    assert(hit == (s[mid] == x));
    if !hit {
        let answer = choose|answer: Option<bool>| #[trigger]
            answers(mid as usize, answer) && match answer {
                Some(true) => finds(verdicts, answers, len, beg, mid, r),
                Some(false) => finds(verdicts, answers, len, mid + 1, end, r),
                None => r is None,
            };
        assert(answer == Some(lt(x, s[mid])));
        if mid < at {
            lemma_find_closes_in(s, x, lt, at, verdicts, answers, mid + 1, end, r);
        } else {
            lemma_find_closes_in(s, x, lt, at, verdicts, answers, beg, mid, r);
        }
    }
}

/// An element is found right after it has been added: with comparisons that answer
/// by a strict weak order under which `before` is sorted, and verdicts that
/// recognise the element, looking for `x` in all of `after` returns a position that
/// holds this very element. Where `before` did not hold `x` already, that position
/// is the one at which it was added.
pub proof fn lemma_inserted_is_found<E>(
    before: Seq<E>,
    x: E,
    lt: spec_fn(E, E) -> bool,
    answers: spec_fn(usize, Option<bool>) -> bool,
    r: Result<(), SortedListError>,
    after: Seq<E>,
    verdicts: spec_fn(usize, bool) -> bool,
    answers_after: spec_fn(usize, Option<bool>) -> bool,
    found: Option<usize>,
)
    requires
        strict_weak_order(lt),
        sorted_by(before, lt),
        before.len() < usize::MAX,
        answers_follow(answers, before, x, lt),
        inserts(answers, before, x, r, after),
        verdicts_follow(verdicts, after, x),
        answers_follow(answers_after, after, x, lt),
        finds(verdicts, answers_after, after.len() as int, 0, after.len() as int, found),
    ensures
        found matches Some(at) && at < after.len() && after[at as int] == x,
        !before.contains(x) ==> after == before.insert(found->Some_0 as int, x),
{
    lemma_insert_keeps_sorted(before, x, lt, answers, r, after);
    let i = choose|at: int| #[trigger]
        is_insertion_point(before, x, lt, at) && after == before.insert(at, x);
    assert forall|k: int| 0 <= k < i implies !lt(x, #[trigger] after[k]) by {
        assert(after[k] == before[k]);
    }
    assert forall|k: int| i < k < after.len() implies lt(x, #[trigger] after[k]) by {
        assert(after[k] == before[k - 1]);
    }
    lemma_find_closes_in(after, x, lt, i, verdicts, answers_after, 0, after.len() as int, found);
    let at = found->Some_0 as int;
    if !before.contains(x) && at != i {
        let at0 = if at < i { at } else { at - 1 };
        assert(before[at0] == x);
    }
}

} // verus!
