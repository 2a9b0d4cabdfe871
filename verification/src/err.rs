//! Translation of foreign failure state into host-native error values.

use vstd::prelude::*;
use crate::runtime::{ExcKind, HeapModel, Kind, Python};

verus! {

/// A host-native error from the foreign boundary.
#[derive(Clone, Copy, PartialEq, Eq, Structural, Debug)]
pub enum PyErr {
    /// A downcast or extraction met an object of the wrong kind; carries
    /// the kind that was asked for and the kind that was found.
    TypeMismatch { expected: Kind, actual: Kind },
    /// The foreign runtime signalled a failure; carries what the error
    /// bridge fetched.
    Foreign(ExcKind),
}

/// The result of every fallible operation at the foreign boundary.
pub type PyResult<T> = Result<T, PyErr>;

impl PyErr {
    /// The error bridge: retrieve and clear the foreign runtime's pending
    /// failure state, turning it into a host-native error. Callable only
    /// after a foreign call signalled failure through its sentinel
    /// return, which is the only time a failure is pending.
    pub fn fetch(py: &mut Python) -> (e: PyErr)
        requires
            (old(py)@.pending is Some),
        ensures
            (final(py)@ == HeapModel { pending: None, ..old(py)@ }),
            (match old(py)@.pending {
                Some(k) => e == PyErr::Foreign(k),
                None => false,
            }),
    {
        let k = py.take_pending();
        PyErr::Foreign(k)
    }
}

/// The failure of a downcast: the object was not of the asked-for kind.
/// The handle is given back untouched, so a failed downcast neither
/// constructs a typed view nor loses a reference.
#[derive(Debug)]
pub struct PyDowncastError {
    /// The handle the downcast was attempted on.
    pub obj: crate::object::PyObjectPtr,
    /// The kind that was asked for.
    pub expected: Kind,
    /// The kind the object actually is.
    pub actual: Kind,
}

impl PyDowncastError {
    /// The downcast failure as a host-native error value.
    pub fn to_err(&self) -> (e: PyErr)
        ensures
            e == (PyErr::TypeMismatch { expected: self.expected, actual: self.actual }),
    {
        PyErr::TypeMismatch { expected: self.expected, actual: self.actual }
    }
}

/// Turn a foreign status return into a result: the sentinel `-1` means a
/// failure is pending and is fetched, anything else is success.
pub fn error_on_minusone(py: &mut Python, status: i32) -> (r: PyResult<()>)
    requires
        status == -1 ==> (old(py)@.pending is Some),
    ensures
        (if status == -1 {
            &&& (final(py)@ == HeapModel { pending: None, ..old(py)@ })
            &&& (match old(py)@.pending {
                Some(k) => r == PyResult::<()>::Err(PyErr::Foreign(k)),
                None => false,
            })
        } else {
            &&& final(py)@ == old(py)@
            &&& r == PyResult::<()>::Ok(())
        }),
{
    if status == -1 {
        Err(PyErr::fetch(py))
    } else {
        Ok(())
    }
}

} // verus!
