//! The boundary to the Python interpreter.
//!
//! Everything in this file is believed, not proved: the types are opaque to the
//! verifier and each function is a single call into `pyo3`.

use pyo3::types::PyAnyMethods;
use pyo3::{Py, PyAny, PyErr, Python};
use vstd::prelude::*;

verus! {

/// `pyo3::Python`, the token that shows the thread is attached to the interpreter.
#[verifier::external_type_specification]
#[verifier::external_body]
pub struct ExPython<'py>(Python<'py>);

/// `pyo3::Py`, an owned reference to a Python object.
///
/// In contracts two such references are equal exactly when they refer to the
/// same object: a `Py` holds the object's pointer and nothing else.
#[verifier::external_type_specification]
#[verifier::external_body]
#[verifier::reject_recursive_types(T)]
pub struct ExPy<T>(Py<T>);

/// `pyo3::PyAny`, the type of an arbitrary Python object.
#[verifier::external_type_specification]
#[verifier::external_body]
pub struct ExPyAny(PyAny);

/// `pyo3::PyErr`, a raised Python exception.
#[verifier::external_type_specification]
#[verifier::external_body]
pub struct ExPyErr(PyErr);

/// `PyAnyMethods::lt`: evaluates the Python expression `a < b`.
///
/// Nothing is claimed of the answer. It is whatever the objects' own comparison
/// returns, and an exception raised by it comes back as the error. One exception
/// does not come back: where the comparison runs Rust code that panicked, `pyo3`
/// takes the panic up again, and the call unwinds with it.
#[verifier::external_body]
pub(crate) fn less_than(py: Python<'_>, a: &Py<PyAny>, b: &Py<PyAny>) -> (answer: Result<bool, PyErr>) {
    a.bind(py).lt(b)
}

/// `PyAnyMethods::eq`: evaluates the Python expression `a == b`.
///
/// Nothing is claimed of the answer, and a panic on the Python side is taken up
/// again, as for [`less_than`].
#[verifier::external_body]
pub(crate) fn equal_to(py: Python<'_>, a: &Py<PyAny>, b: &Py<PyAny>) -> (answer: Result<bool, PyErr>) {
    a.bind(py).eq(b)
}

/// `Py::is`: whether `a` and `b` point to the same object, which `pyo3` decides by
/// comparing the two pointers.
#[verifier::external_body]
pub(crate) fn is_same(a: &Py<PyAny>, b: &Py<PyAny>) -> (same: bool)
    ensures
        same == (*a == *b),
{
    a.is(b)
}

/// `Py::clone_ref`: another reference to the object that `a` points to. The object's
/// reference count goes up; the pointer in the new reference is the one in `a`.
#[verifier::external_body]
pub(crate) fn share(py: Python<'_>, a: &Py<PyAny>) -> (shared: Py<PyAny>)
    ensures
        shared == *a,
{
    a.clone_ref(py)
}

/// `ToString::to_string` through `Bound`'s `Display`: the text Python's `str()`
/// gives for the object, or a placeholder that `pyo3` writes where `str()` raises.
/// The token shows that the thread is attached, so the call attaches nothing itself.
///
/// Nothing is claimed of the text, and a panic on the Python side is taken up
/// again, as for [`less_than`].
#[verifier::external_body]
pub(crate) fn text_of(py: Python<'_>, a: &Py<PyAny>) -> (text: String) {
    a.bind(py).to_string()
}

} // verus!
