//! The sorted list of Python objects.

use crate::error::SortedListError;
use crate::object::{equal_to, is_same, less_than, share, text_of};
use crate::render::{bracketed, labelled, render, render_labelled};
use crate::order::{
    answers_follow, lemma_insert_keeps_sorted, lemma_inserted_is_found, sorted_by,
    strict_weak_order, verdicts_follow,
};
use crate::search::{
    bisects_to, comparisons, find_by, finds, insert_by, inserts, lemma_bisect_stays_in_range,
    lemma_finds_under_wider, lemma_found_is_a_hit, lemma_inserts_under_wider, recognitions,
};
use pyo3::{Py, PyAny, PyErr, Python};
use vstd::prelude::*;

verus! {

/// A growing list of Python objects, each added at the place that a bisection by the
/// objects' own `<` finds for it.
///
/// The list holds references: an object in it may be held elsewhere too, and the
/// same object may be added more than once.
///
/// Whether the list is in order is up to the objects. Where their `<` answers as a
/// strict weak order does, the laws of [`crate::order`] apply to what
/// [`SortedList::add`] ensures: every addition leaves the list sorted, and
/// [`lemma_added_object_is_indexed`] shows that an object is found right after it
/// was added.
pub struct SortedList {
    values: Vec<Py<PyAny>>,
}

impl View for SortedList {
    type V = Seq<Py<PyAny>>;

    /// The stored references, in their order.
    closed spec fn view(&self) -> Seq<Py<PyAny>> {
        self.values@
    }
}

/// The objects that a list held at one moment, handed out one by one in the list's
/// order.
///
/// It holds references of its own: what is added to the list afterwards does not
/// reach it.
pub struct SortedListIterator {
    /// What is still to come, the next one last.
    rest: Vec<Py<PyAny>>,
}

impl View for SortedListIterator {
    type V = Seq<Py<PyAny>>;

    /// The references still to come, the next one first.
    closed spec fn view(&self) -> Seq<Py<PyAny>> {
        Seq::new(self.rest@.len(), |i: int| self.rest@[self.rest@.len() - 1 - i])
    }
}

impl SortedListIterator {
    /// Hands out the next reference, or `None` once all have been handed out.
    pub fn next(&mut self) -> (item: Option<Py<PyAny>>)
        ensures
            match item {
                Some(object) => old(self)@.len() > 0 && object == old(self)@.first()
                    && final(self)@ == old(self)@.drop_first(),
                None => old(self)@.len() == 0 && final(self)@ == old(self)@,
            },
    {
        self.rest.pop()
    }
}

/// What the outcome of Python's `value < stored` means to a search: the answer
/// where there is one, and `None`, "the two cannot be ordered", where it raised.
pub open spec fn answer_of(outcome: Result<bool, PyErr>) -> Option<bool> {
    match outcome {
        Ok(is_less) => Some(is_less),
        Err(_) => None,
    }
}

/// Whether the outcome of Python's `value == stored` counts as equal: only a true
/// answer does, and a `==` that raised counts as unequal.
pub open spec fn counts_as_equal(outcome: Result<bool, PyErr>) -> bool {
    outcome matches Ok(equal) && equal
}

/// Whether `answer` is what a search may be told when it asks if `value` is less
/// than `stored`: the meaning, by [`answer_of`], of an outcome that Python's
/// `value < stored` can have.
pub closed spec fn may_answer(
    py: Python<'_>,
    value: Py<PyAny>,
    stored: Py<PyAny>,
    answer: Option<bool>,
) -> bool {
    exists|outcome: Result<bool, PyErr>| #[trigger]
        call_ensures(less_than, (py, &value, &stored), outcome) && answer == answer_of(outcome)
}

/// Whether `hit` is what a search may be told when it asks if `stored` is the
/// object `value`: a hit takes an outcome of Python's `value == stored` that counts
/// as equal, by [`counts_as_equal`], and `stored` being the very object `value`.
pub closed spec fn may_recognise(
    py: Python<'_>,
    value: Py<PyAny>,
    stored: Py<PyAny>,
    hit: bool,
) -> bool {
    exists|outcome: Result<bool, PyErr>| #[trigger]
        call_ensures(equal_to, (py, &value, &stored), outcome) && hit == (counts_as_equal(outcome)
            && stored == value)
}

/// Whether `text` is what an object may be shown as: the text that Python's `str()`
/// can give for it.
pub closed spec fn may_show(py: Python<'_>, object: Py<PyAny>, text: Seq<char>) -> bool {
    exists|shown: String| #[trigger] call_ensures(text_of, (py, &object), shown) && shown@ == text
}

/// Whether `parts` are texts that `objects` may be shown as, one for each object and
/// in the objects' order.
pub open spec fn may_show_all(py: Python<'_>, objects: Seq<Py<PyAny>>, parts: Seq<Seq<char>>) -> bool {
    &&& parts.len() == objects.len()
    &&& forall|k: int| 0 <= k < parts.len() ==> may_show(py, objects[k], #[trigger] parts[k])
}

/// What a lookup that ended with `found` gives the caller who asked for a position:
/// the position, or [`SortedListError::NotFound`].
pub open spec fn position_or_not_found(found: Option<usize>) -> Result<usize, SortedListError> {
    match found {
        Some(at) => Ok(at),
        None => Err(SortedListError::NotFound),
    }
}

/// The answers that a search for the place of `value` among `stored` may be given,
/// position by position.
pub open spec fn object_answers(py: Python<'_>, value: Py<PyAny>, stored: Seq<Py<PyAny>>) -> spec_fn(
    usize,
    Option<bool>,
) -> bool {
    |at: usize, answer: Option<bool>|
        at < stored.len() && may_answer(py, value, stored[at as int], answer)
}

/// The verdicts that a search for the object `value` among `stored` may be given,
/// position by position.
pub open spec fn object_verdicts(py: Python<'_>, value: Py<PyAny>, stored: Seq<Py<PyAny>>) -> spec_fn(
    usize,
    bool,
) -> bool {
    |at: usize, hit: bool| at < stored.len() && may_recognise(py, value, stored[at as int], hit)
}

/// Whether `stored` is the object `value`: equal to it by Python's `==`, and the
/// same object. A failed `==` counts as unequal.
fn same_object(py: Python<'_>, value: &Py<PyAny>, stored: &Py<PyAny>) -> (same: bool)
    ensures
        may_recognise(py, *value, *stored, same),
{
    let outcome = equal_to(py, value, stored);
    let ghost seen = outcome;
    let same = match outcome {
        Ok(true) => is_same(value, stored),
        _ => false,
    };
    proof {
        assert(call_ensures(equal_to, (py, value, stored), seen));
        assert(same == (counts_as_equal(seen) && *stored == *value));
    }
    same
}

/// Whether `value < stored` by Python's `<`, or `None` where the comparison raises.
fn less_object(py: Python<'_>, value: &Py<PyAny>, stored: &Py<PyAny>) -> (answer: Option<bool>)
    ensures
        may_answer(py, *value, *stored, answer),
{
    let outcome = less_than(py, value, stored);
    let ghost seen = outcome;
    let answer = match outcome {
        Ok(is_less) => Some(is_less),
        Err(_) => None,
    };
    proof {
        assert(call_ensures(less_than, (py, value, stored), seen));
        assert(answer == answer_of(seen));
    }
    answer
}

impl SortedList {
    /// An empty list.
    pub fn new() -> (list: Self)
        ensures
            list@ == Seq::<Py<PyAny>>::empty(),
    {
        SortedList { values: Vec::new() }
    }

    /// The number of stored references.
    pub fn len(&self) -> (n: usize)
        ensures
            n == self@.len(),
    {
        self.values.len()
    }

    /// Adds `value` at the place that bisecting the whole list by Python's
    /// `value < stored` finds for it.
    ///
    /// The place is the one that the bisection of [`insert_by`] gives on the answers
    /// that Python gives for `value` against the stored objects. Whatever they are,
    /// nothing already stored moves relative to anything else, and when a comparison
    /// fails the list is left as it was.
    pub fn add(&mut self, py: Python<'_>, value: Py<PyAny>) -> (r: Result<(), SortedListError>)
        ensures
            inserts(object_answers(py, value, old(self)@), old(self)@, value, r, final(self)@),
            match r {
                Ok(()) => exists|at: int|
                    0 <= at <= old(self)@.len() && final(self)@ == #[trigger] old(self)@.insert(
                        at,
                        value,
                    ),
                Err(e) => e == SortedListError::Incomparable && final(self)@ == old(self)@
                    && old(self)@.len() > 0,
            },
            r is Ok ==> final(self)@.len() == old(self)@.len() + 1,
    {
        let less = |a: &Py<PyAny>, b: &Py<PyAny>| -> (answer: Option<bool>)
            ensures
                may_answer(py, *a, *b, answer),
            { less_object(py, a, b) };
        let ghost len = self.values.len() as int;
        let r = insert_by(&mut self.values, value, less);
        proof {
            let answers = comparisons(less, value, old(self)@);
            lemma_inserts_under_wider(
                answers,
                object_answers(py, value, old(self)@),
                old(self)@,
                value,
                r,
                self@,
            );
            match r {
                Ok(()) => {
                    let at = choose|at: usize| #[trigger]
                        bisects_to(answers, 0, len, Ok(at)) && self@ == old(self)@.insert(
                            at as int,
                            value,
                        );
                    lemma_bisect_stays_in_range(answers, 0, len, Ok(at));
                    assert(self@ == old(self)@.insert(at as int, value));
                },
                Err(e) => {
                    lemma_bisect_stays_in_range(answers, 0, len, Err(e));
                },
            }
        }
        r
    }

    /// Looks through the whole list for the very object `value`.
    ///
    /// Only a stored reference to `value` itself is a find: an equal object that is
    /// another object is passed over, and the search goes on by `value < stored`. A
    /// comparison that fails ends the search with nothing found.
    ///
    /// The result is one that the halving of [`find_by`] can give on the verdicts
    /// and answers that Python gives for `value` against the stored objects.
    fn find(&self, py: Python<'_>, value: &Py<PyAny>) -> (r: Option<usize>)
        ensures
            finds(
                object_verdicts(py, *value, self@),
                object_answers(py, *value, self@),
                self@.len() as int,
                0,
                self@.len() as int,
                r,
            ),
            r matches Some(at) ==> at < self@.len() && self@[at as int] == *value,
            self@.len() == 0 ==> r is None,
            !self@.contains(*value) ==> r is None,
    {
        let same = |a: &Py<PyAny>, b: &Py<PyAny>| -> (hit: bool)
            ensures
                may_recognise(py, *a, *b, hit),
            { same_object(py, a, b) };
        let less = |a: &Py<PyAny>, b: &Py<PyAny>| -> (answer: Option<bool>)
            ensures
                may_answer(py, *a, *b, answer),
            { less_object(py, a, b) };
        let end = self.values.len();
        let r = find_by(&self.values, value, same, less, 0, end);
        proof {
            let verdicts = object_verdicts(py, *value, self@);
            let answers = object_answers(py, *value, self@);
            lemma_finds_under_wider(
                recognitions(same, *value, self@),
                comparisons(less, *value, self@),
                verdicts,
                answers,
                end as int,
                0,
                end as int,
                r,
            );
            lemma_found_is_a_hit(verdicts, answers, end as int, 0, end as int, r);
        }
        r
    }

    /// Whether the very object `value` is found in the list: the search of
    /// [`SortedList::index`], with its result told as yes or no.
    pub fn contains(&self, py: Python<'_>, value: Py<PyAny>) -> (found: bool)
        ensures
            exists|r: Option<usize>| #[trigger]
                finds(
                    object_verdicts(py, value, self@),
                    object_answers(py, value, self@),
                    self@.len() as int,
                    0,
                    self@.len() as int,
                    r,
                ) && found == r is Some,
            found ==> self@.contains(value),
            self@.len() == 0 ==> !found,
    {
        self.find(py, &value).is_some()
    }

    /// The position at which the very object `value` is found, or
    /// [`SortedListError::NotFound`]: the result of the lookup over the whole list,
    /// on the verdicts and answers that Python gives for `value` against the stored
    /// objects.
    pub fn index(&self, py: Python<'_>, value: Py<PyAny>) -> (r: Result<usize, SortedListError>)
        ensures
            exists|found: Option<usize>| #[trigger]
                finds(
                    object_verdicts(py, value, self@),
                    object_answers(py, value, self@),
                    self@.len() as int,
                    0,
                    self@.len() as int,
                    found,
                ) && r == position_or_not_found(found),
            match r {
                Ok(at) => at < self@.len() && self@[at as int] == value,
                Err(e) => e == SortedListError::NotFound,
            },
            !self@.contains(value) ==> r is Err,
    {
        match self.find(py, &value) {
            Some(at) => Ok(at),
            None => Err(SortedListError::NotFound),
        }
    }

    /// The objects that the list holds now, to be handed out in order.
    pub fn iter(&self, py: Python<'_>) -> (snapshot: SortedListIterator)
        ensures
            snapshot@ == self@,
    {
        let mut rest: Vec<Py<PyAny>> = Vec::new();
        let mut left: usize = self.values.len();
        while left > 0
            invariant
                left <= self.values.len(),
                rest.len() == self.values.len() - left,
                forall|k: int|
                    0 <= k < rest.len() ==> rest[k] == self.values[self.values.len() - 1 - k],
            decreases left,
        {
            left -= 1;
            rest.push(share(py, &self.values[left]));
        }
        SortedListIterator { rest }
    }

    /// The list as text: the text of each object, in order, as `[a, b, c]`.
    ///
    /// The text of an object is Python's; [`render`] states the result for given
    /// texts.
    pub fn to_string(&self, py: Python<'_>) -> (text: String)
        ensures
            exists|parts: Seq<Seq<char>>| #[trigger]
                may_show_all(py, self@, parts) && text@ == bracketed(parts),
            self@.len() == 0 ==> text@ == seq!['[', ']'],
    {
        let mut parts: Vec<String> = Vec::new();
        let mut i: usize = 0;
        while i < self.values.len()
            invariant
                i <= self.values.len(),
                parts.len() == i,
                forall|k: int| 0 <= k < i ==> may_show(py, self.values@[k], #[trigger] parts@[k]@),
            decreases self.values.len() - i,
        {
            let shown = text_of(py, &self.values[i]);
            assert(call_ensures(text_of, (py, &self.values@[i as int]), shown));
            parts.push(shown);
            i += 1;
        }
        let text = render(&parts);
        proof {
            assert(may_show_all(py, self@, parts.deep_view()));
            if self@.len() == 0 {
                assert(text@ == seq!['[', ']']);
            }
        }
        text
    }

    /// The list as text under its label: `SortedContainer([a, b, c])`.
    pub fn repr(&self, py: Python<'_>) -> (text: String)
        ensures
            exists|parts: Seq<Seq<char>>| #[trigger]
                may_show_all(py, self@, parts) && text@ == labelled(
                    "SortedContainer"@,
                    bracketed(parts),
                ),
    {
        let body = self.to_string(py);
        let text = render_labelled("SortedContainer", body.as_str());
        proof {
            let parts = choose|parts: Seq<Seq<char>>| #[trigger]
                may_show_all(py, self@, parts) && body@ == bracketed(parts);
            assert(may_show_all(py, self@, parts));
        }
        text
    }
}

/// An object is found right after it was added. Where Python's `<` answers for
/// `value` as a strict weak order does, under which the list was sorted, and its
/// `==` finds `value` equal to itself, an `add` of `value` succeeds and leaves the
/// list sorted, and an `index` of `value` that follows it returns a position that
/// holds this very object.
///
/// `before` and `after` are the list around the call of `add`, `added` is what it
/// returned, and `indexed` is what the call of `index` returned.
pub proof fn lemma_added_object_is_indexed(
    py: Python<'_>,
    before: Seq<Py<PyAny>>,
    value: Py<PyAny>,
    lt: spec_fn(Py<PyAny>, Py<PyAny>) -> bool,
    added: Result<(), SortedListError>,
    after: Seq<Py<PyAny>>,
    indexed: Result<usize, SortedListError>,
)
    requires
        strict_weak_order(lt),
        sorted_by(before, lt),
        before.len() < usize::MAX,
        answers_follow(object_answers(py, value, before), before, value, lt),
        inserts(object_answers(py, value, before), before, value, added, after),
        answers_follow(object_answers(py, value, after), after, value, lt),
        verdicts_follow(object_verdicts(py, value, after), after, value),
        exists|found: Option<usize>| #[trigger]
            finds(
                object_verdicts(py, value, after),
                object_answers(py, value, after),
                after.len() as int,
                0,
                after.len() as int,
                found,
            ) && indexed == position_or_not_found(found),
    ensures
        added is Ok,
        sorted_by(after, lt),
        indexed matches Ok(at) && at < after.len() && after[at as int] == value,
        !before.contains(value) ==> after == before.insert(indexed->Ok_0 as int, value),
{
    let answers = object_answers(py, value, before);
    let verdicts = object_verdicts(py, value, after);
    let answers_after = object_answers(py, value, after);
    let found = choose|found: Option<usize>| #[trigger]
        finds(verdicts, answers_after, after.len() as int, 0, after.len() as int, found)
            && indexed == position_or_not_found(found);
    lemma_insert_keeps_sorted(before, value, lt, answers, added, after);
    lemma_inserted_is_found(
        before,
        value,
        lt,
        answers,
        added,
        after,
        verdicts,
        answers_after,
        found,
    );
}

} // verus!
