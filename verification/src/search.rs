//! The binary searches that place an element in a sorted sequence and find it again.
//!
//! The searches never look into an element. They hand two elements to a comparison
//! that the caller supplies and follow its answer, so they work for elements whose
//! comparison can fail, or can answer differently each time it is asked. What a
//! search returns is therefore stated as a relation over the answers that the
//! comparison's own contract allows.

use crate::error::SortedListError;
use vstd::prelude::*;

verus! {

/// The position that a search of `[beg, end)` probes.
pub open spec fn midpoint(beg: int, end: int) -> int {
    (beg + end) / 2
}

/// The answers that `less` may give when `x` is compared against the elements of
/// `s`: `comparisons(less, x, s)(at, answer)` holds when `answer` is a possible
/// result of `less(&x, &s[at])`, the question being whether `x` is less than `s[at]`.
pub open spec fn comparisons<E, L: Fn(&E, &E) -> Option<bool>>(less: L, x: E, s: Seq<E>) -> spec_fn(
    usize,
    Option<bool>,
) -> bool {
    |at: usize, answer: Option<bool>| at < s.len() && less.ensures((&x, &s[at as int]), answer)
}

/// The verdicts that `same` may give when `x` is held against the elements of `s`:
/// `recognitions(same, x, s)(at, hit)` holds when `hit` is a possible result of
/// `same(&x, &s[at])`, the question being whether `s[at]` is the element `x`.
pub open spec fn recognitions<E, S: Fn(&E, &E) -> bool>(same: S, x: E, s: Seq<E>) -> spec_fn(
    usize,
    bool,
) -> bool {
    |at: usize, hit: bool| at < s.len() && same.ensures((&x, &s[at as int]), hit)
}

/// Whether `r` is a result of bisecting `[beg, end)` when the comparison of the new
/// element against the element at each probed position may answer as `answers` says.
///
/// `Some(true)` at `mid`, "the new element is less", continues in `[beg, mid)`;
/// `Some(false)` continues in `[mid + 1, end)`; `None`, "the two cannot be ordered",
/// ends the search with [`SortedListError::Incomparable`]. An empty range is the
/// insertion point, and a range that begins after its end is refused.
pub open spec fn bisects_to(
    answers: spec_fn(usize, Option<bool>) -> bool,
    beg: int,
    end: int,
    r: Result<usize, SortedListError>,
) -> bool
    decreases end - beg,
{
    if beg > end {
        r == Err::<usize, SortedListError>(SortedListError::InvalidRange)
    } else if beg == end {
        r == Ok::<usize, SortedListError>(beg as usize)
    } else {
        let mid = midpoint(beg, end);
        exists|answer: Option<bool>| #[trigger]
            answers(mid as usize, answer) && match answer {
                Some(true) => bisects_to(answers, beg, mid, r),
                Some(false) => bisects_to(answers, mid + 1, end, r),
                None => r == Err::<usize, SortedListError>(SortedListError::Incomparable),
            }
    }
}

/// Whether `r` is a result of looking in `[beg, end)`, within a sequence of `len`
/// elements, for one element in particular.
///
/// At each midpoint a verdict says whether the element stored there is the one
/// looked for, which ends the search with that position. Where it is not, the
/// comparison answers as in [`bisects_to`] and decides the half to go on in; a
/// comparison that fails ends the search with nothing found, as does a range that
/// is empty or lies outside the sequence.
pub open spec fn finds(
    verdicts: spec_fn(usize, bool) -> bool,
    answers: spec_fn(usize, Option<bool>) -> bool,
    len: int,
    beg: int,
    end: int,
    r: Option<usize>,
) -> bool
    decreases end - beg,
{
    if end == 0 || beg >= len || beg >= end {
        r is None
    } else {
        let mid = midpoint(beg, end);
        if mid >= len {
            r is None
        } else {
            exists|hit: bool| #[trigger]
                verdicts(mid as usize, hit) && if hit {
                    r == Some(mid as usize)
                } else {
                    exists|answer: Option<bool>| #[trigger]
                        answers(mid as usize, answer) && match answer {
                            Some(true) => finds(verdicts, answers, len, beg, mid, r),
                            Some(false) => finds(verdicts, answers, len, mid + 1, end, r),
                            None => r is None,
                        }
                }
        }
    }
}

/// Whether adding `x` to `before` can end with `r` and leave `after`: on success
/// `x` stands at a place that bisecting all of `before` can give and nothing else
/// has changed; on failure the bisection can fail in that way and nothing has
/// changed at all.
pub open spec fn inserts<E>(
    answers: spec_fn(usize, Option<bool>) -> bool,
    before: Seq<E>,
    x: E,
    r: Result<(), SortedListError>,
    after: Seq<E>,
) -> bool {
    match r {
        Ok(()) => exists|at: usize| #[trigger]
            bisects_to(answers, 0, before.len() as int, Ok(at)) && after == before.insert(
                at as int,
                x,
            ),
        Err(e) => bisects_to(answers, 0, before.len() as int, Err(e)) && after == before,
    }
}

/// Finds where `value` goes in `values[beg..end]` by bisection, asking
/// `less(value, stored)` at each midpoint.
pub fn bisect_by<E, L: Fn(&E, &E) -> Option<bool>>(
    values: &Vec<E>,
    value: &E,
    less: L,
    beg: usize,
    end: usize,
) -> (r: Result<usize, SortedListError>)
    requires
        beg < end ==> end <= values@.len(),
        forall|at: int| beg <= at < end ==> less.requires((value, &values@[at])),
    ensures
        bisects_to(comparisons(less, *value, values@), beg as int, end as int, r),
{
    if beg > end {
        return Err(SortedListError::InvalidRange);
    }
    let ghost answers = comparisons(less, *value, values@);
    let mut lo: usize = beg;
    let mut hi: usize = end;
    while lo < hi
        invariant
            beg <= lo <= hi <= end,
            beg < end ==> end <= values@.len(),
            answers == comparisons(less, *value, values@),
            forall|at: int| beg <= at < end ==> less.requires((value, &values@[at])),
            forall|r: Result<usize, SortedListError>|
                bisects_to(answers, lo as int, hi as int, r) ==> bisects_to(
                    answers,
                    beg as int,
                    end as int,
                    r,
                ),
        decreases hi - lo,
    {
        let mid: usize = lo + (hi - lo) / 2;
        assert(mid == midpoint(lo as int, hi as int));
        let answer = less(value, &values[mid]);
        assert(answers(mid, answer));
        match answer {
            Some(true) => {
                hi = mid;
            },
            Some(false) => {
                lo = mid + 1;
            },
            None => {
                return Err(SortedListError::Incomparable);
            },
        }
    }
    Ok(lo)
}

/// Adds `value` to `values` at the place that bisecting all of `values` finds for
/// it, and leaves `values` untouched where the bisection fails.
pub fn insert_by<E, L: Fn(&E, &E) -> Option<bool>>(values: &mut Vec<E>, value: E, less: L) -> (r:
    Result<(), SortedListError>)
    requires
        forall|at: int| 0 <= at < old(values)@.len() ==> less.requires((&value, &old(values)@[at])),
    ensures
        inserts(comparisons(less, value, old(values)@), old(values)@, value, r, final(values)@),
        r is Ok ==> final(values)@.len() == old(values)@.len() + 1,
        r is Err ==> final(values)@ == old(values)@,
        old(values)@.len() == 0 ==> r is Ok,
{
    let end = values.len();
    match bisect_by(values, &value, less, 0, end) {
        Ok(at) => {
            proof {
                lemma_bisect_stays_in_range(
                    comparisons(less, value, values@),
                    0,
                    end as int,
                    Ok(at),
                );
            }
            values.insert(at, value);
            Ok(())
        },
        Err(e) => Err(e),
    }
}

/// Looks in `values[beg..end]` for the element `value` in particular, asking
/// `same(value, stored)` at each midpoint and, where that is not the element,
/// `less(value, stored)` for the half to go on in.
pub fn find_by<E, S: Fn(&E, &E) -> bool, L: Fn(&E, &E) -> Option<bool>>(
    values: &Vec<E>,
    value: &E,
    same: S,
    less: L,
    beg: usize,
    end: usize,
) -> (r: Option<usize>)
    requires
        forall|at: int| 0 <= at < values@.len() ==> same.requires((value, &values@[at])),
        forall|at: int| 0 <= at < values@.len() ==> less.requires((value, &values@[at])),
    ensures
        finds(
            recognitions(same, *value, values@),
            comparisons(less, *value, values@),
            values@.len() as int,
            beg as int,
            end as int,
            r,
        ),
{
    let ghost verdicts = recognitions(same, *value, values@);
    let ghost answers = comparisons(less, *value, values@);
    let len = values.len();
    let mut lo: usize = beg;
    let mut hi: usize = end;
    loop
        invariant
            len == values@.len(),
            verdicts == recognitions(same, *value, values@),
            answers == comparisons(less, *value, values@),
            forall|at: int| 0 <= at < values@.len() ==> same.requires((value, &values@[at])),
            forall|at: int| 0 <= at < values@.len() ==> less.requires((value, &values@[at])),
            forall|r: Option<usize>|
                finds(verdicts, answers, len as int, lo as int, hi as int, r) ==> finds(
                    verdicts,
                    answers,
                    len as int,
                    beg as int,
                    end as int,
                    r,
                ),
        decreases hi - lo,
    {
        if hi == 0 || lo >= len || lo >= hi {
            return None;
        }
        let mid: usize = lo + (hi - lo) / 2;
        assert(mid == midpoint(lo as int, hi as int));
        if mid >= len {
            return None;
        }
        let hit = same(value, &values[mid]);
        assert(verdicts(mid, hit));
        if hit {
            return Some(mid);
        }
        let answer = less(value, &values[mid]);
        assert(answers(mid, answer));
        match answer {
            Some(true) => {
                hi = mid;
            },
            Some(false) => {
                lo = mid + 1;
            },
            None => {
                return None;
            },
        }
    }
}

/// Whatever the comparisons answer, a bisection of a proper range ends inside it or
/// on a failed comparison, an empty range is its own result, and only a range that
/// begins after its end is refused.
pub proof fn lemma_bisect_stays_in_range(
    answers: spec_fn(usize, Option<bool>) -> bool,
    beg: int,
    end: int,
    r: Result<usize, SortedListError>,
)
    requires
        0 <= beg,
        end <= usize::MAX,
        bisects_to(answers, beg, end, r),
    ensures
        beg > end <==> r == Err::<usize, SortedListError>(SortedListError::InvalidRange),
        beg == end ==> r == Ok::<usize, SortedListError>(beg as usize),
        r matches Ok(at) ==> beg <= at <= end,
        r matches Err(e) ==> e != SortedListError::NotFound,
        r == Err::<usize, SortedListError>(SortedListError::Incomparable) ==> beg < end,
    decreases end - beg,
{
    if beg < end {
        let mid = midpoint(beg, end);
        let answer = choose|answer: Option<bool>| #[trigger]
            answers(mid as usize, answer) && match answer {
                Some(true) => bisects_to(answers, beg, mid, r),
                Some(false) => bisects_to(answers, mid + 1, end, r),
                None => r == Err::<usize, SortedListError>(SortedListError::Incomparable),
            };
        match answer {
            Some(true) => lemma_bisect_stays_in_range(answers, beg, mid, r),
            Some(false) => lemma_bisect_stays_in_range(answers, mid + 1, end, r),
            None => {},
        }
    }
}

/// Whatever the comparisons answer, a lookup returns only a position inside both the
/// range and the sequence at which the verdict was a hit, and nothing at all where
/// the range is empty or lies outside the sequence.
pub proof fn lemma_found_is_a_hit(
    verdicts: spec_fn(usize, bool) -> bool,
    answers: spec_fn(usize, Option<bool>) -> bool,
    len: int,
    beg: int,
    end: int,
    r: Option<usize>,
)
    requires
        0 <= beg,
        len <= usize::MAX,
        finds(verdicts, answers, len, beg, end, r),
    ensures
        r matches Some(at) ==> beg <= at < end && at < len && verdicts(at, true),
        end == 0 || beg >= len || beg >= end ==> r is None,
    decreases end - beg,
{
    if !(end == 0 || beg >= len || beg >= end) {
        let mid = midpoint(beg, end);
        if mid < len {
            let hit = choose|hit: bool| #[trigger]
                verdicts(mid as usize, hit) && if hit {
                    r == Some(mid as usize)
                } else {
                    exists|answer: Option<bool>| #[trigger]
                        answers(mid as usize, answer) && match answer {
                            Some(true) => finds(verdicts, answers, len, beg, mid, r),
                            Some(false) => finds(verdicts, answers, len, mid + 1, end, r),
                            None => r is None,
                        }
                };
            if !hit {
                let answer = choose|answer: Option<bool>| #[trigger]
                    answers(mid as usize, answer) && match answer {
                        Some(true) => finds(verdicts, answers, len, beg, mid, r),
                        Some(false) => finds(verdicts, answers, len, mid + 1, end, r),
                        None => r is None,
                    };
                match answer {
                    Some(true) => lemma_found_is_a_hit(verdicts, answers, len, beg, mid, r),
                    Some(false) => lemma_found_is_a_hit(verdicts, answers, len, mid + 1, end, r),
                    None => {},
                }
            }
        }
    }
}

/// A bisection that is possible under some answers is possible under any answers
/// that allow at least those.
pub proof fn lemma_bisects_under_wider(
    answers: spec_fn(usize, Option<bool>) -> bool,
    wider_answers: spec_fn(usize, Option<bool>) -> bool,
    beg: int,
    end: int,
    r: Result<usize, SortedListError>,
)
    requires
        forall|at: usize, answer: Option<bool>| #[trigger]
            answers(at, answer) ==> wider_answers(at, answer),
        bisects_to(answers, beg, end, r),
    ensures
        bisects_to(wider_answers, beg, end, r),
    decreases end - beg,
{
    if beg < end {
        let mid = midpoint(beg, end);
        let answer = choose|answer: Option<bool>| #[trigger]
            answers(mid as usize, answer) && match answer {
                Some(true) => bisects_to(answers, beg, mid, r),
                Some(false) => bisects_to(answers, mid + 1, end, r),
                None => r == Err::<usize, SortedListError>(SortedListError::Incomparable),
            };
        assert(wider_answers(mid as usize, answer));
        match answer {
            Some(true) => lemma_bisects_under_wider(answers, wider_answers, beg, mid, r),
            Some(false) => lemma_bisects_under_wider(answers, wider_answers, mid + 1, end, r),
            None => {},
        }
    }
}

/// An addition that is possible under some answers is possible under any answers
/// that allow at least those.
pub proof fn lemma_inserts_under_wider<E>(
    answers: spec_fn(usize, Option<bool>) -> bool,
    wider_answers: spec_fn(usize, Option<bool>) -> bool,
    before: Seq<E>,
    x: E,
    r: Result<(), SortedListError>,
    after: Seq<E>,
)
    requires
        forall|at: usize, answer: Option<bool>| #[trigger]
            answers(at, answer) ==> wider_answers(at, answer),
        inserts(answers, before, x, r, after),
    ensures
        inserts(wider_answers, before, x, r, after),
{
    let len = before.len() as int;
    match r {
        Ok(()) => {
            let at = choose|at: usize| #[trigger]
                bisects_to(answers, 0, len, Ok(at)) && after == before.insert(at as int, x);
            lemma_bisects_under_wider(answers, wider_answers, 0, len, Ok(at));
        },
        Err(e) => {
            lemma_bisects_under_wider(answers, wider_answers, 0, len, Err(e));
        },
    }
}

/// A lookup that is possible under some verdicts and answers is possible under any
/// verdicts and answers that allow at least those.
pub proof fn lemma_finds_under_wider(
    verdicts: spec_fn(usize, bool) -> bool,
    answers: spec_fn(usize, Option<bool>) -> bool,
    wider_verdicts: spec_fn(usize, bool) -> bool,
    wider_answers: spec_fn(usize, Option<bool>) -> bool,
    len: int,
    beg: int,
    end: int,
    r: Option<usize>,
)
    requires
        forall|at: usize, hit: bool| #[trigger] verdicts(at, hit) ==> wider_verdicts(at, hit),
        forall|at: usize, answer: Option<bool>| #[trigger]
            answers(at, answer) ==> wider_answers(at, answer),
        finds(verdicts, answers, len, beg, end, r),
    ensures
        finds(wider_verdicts, wider_answers, len, beg, end, r),
    decreases end - beg,
{
    if !(end == 0 || beg >= len || beg >= end) {
        let mid = midpoint(beg, end);
        if mid < len {
            let hit = choose|hit: bool| #[trigger]
                verdicts(mid as usize, hit) && if hit {
                    r == Some(mid as usize)
                } else {
                    exists|answer: Option<bool>| #[trigger]
                        answers(mid as usize, answer) && match answer {
                            Some(true) => finds(verdicts, answers, len, beg, mid, r),
                            Some(false) => finds(verdicts, answers, len, mid + 1, end, r),
                            None => r is None,
                        }
                };
            assert(wider_verdicts(mid as usize, hit));
            if !hit {
                let answer = choose|answer: Option<bool>| #[trigger]
                    answers(mid as usize, answer) && match answer {
                        Some(true) => finds(verdicts, answers, len, beg, mid, r),
                        Some(false) => finds(verdicts, answers, len, mid + 1, end, r),
                        None => r is None,
                    };
                assert(wider_answers(mid as usize, answer));
                match answer {
                    Some(true) => lemma_finds_under_wider(
                        verdicts,
                        answers,
                        wider_verdicts,
                        wider_answers,
                        len,
                        beg,
                        mid,
                        r,
                    ),
                    Some(false) => lemma_finds_under_wider(
                        verdicts,
                        answers,
                        wider_verdicts,
                        wider_answers,
                        len,
                        mid + 1,
                        end,
                        r,
                    ),
                    None => {},
                }
            }
        }
    }
}

} // verus!
