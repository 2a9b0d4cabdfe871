//! The typed view of a foreign boolean.
//!
//! The foreign runtime represents the two boolean values as two fixed,
//! immortal singleton objects. Booleans have no mutable payload, so
//! identity against the `true` singleton is the one valid test, and
//! extraction accepts exactly the two singletons — a truthy object of
//! another kind is a type mismatch, not a coercion.

use vstd::prelude::*;
use crate::conversion::{obj_models, FromPyObject, IntoPyObject, ToPyObject, ValueModel};
use crate::err::{PyDowncastError, PyErr, PyResult};
use crate::object::PyObjectPtr;
use crate::runtime::{bool_id, HeapModel, Kind, Python};

verus! {

/// A handle narrowed to a foreign boolean: one of the two singletons.
/// Only [`PyBool::downcast_from`] and [`PyBool::new`] construct it, so a
/// `PyBool` in scope is proof the runtime type check passed. Its view is
/// the address of the wrapped handle.
#[derive(Debug)]
pub struct PyBool {
    obj: PyObjectPtr,
}

impl View for PyBool {
    type V = int;

    closed spec fn view(&self) -> int {
        self.obj@
    }
}

impl PyBool {
    /// The boolean singleton for `val`, wrapped. The singletons are
    /// immortal, so nothing on the heap moves.
    pub fn new(py: &mut Python, val: bool) -> (b: PyBool)
        requires
            old(py)@.wf(),
        ensures
            (final(py)@ == old(py)@),
            b@ == bool_id(val),
    {
        let raw = py.bool_object(val);
        let obj = PyObjectPtr::from_borrowed(py, raw);
        PyBool { obj }
    }

    /// Narrow a generic handle to a boolean: succeeds exactly when the
    /// runtime's type check for the boolean kind accepts the object, and
    /// then wraps the same handle — no new reference is taken. On
    /// failure the handle comes back inside the error, next to the
    /// expected and actual kinds, and no view is constructed.
    pub fn downcast_from(py: &Python, obj: PyObjectPtr) -> (r: Result<PyBool, PyDowncastError>)
        requires
            py@.wf(),
            py@.valid(obj@),
        ensures
            (match r {
                Ok(b) => py@.kind(obj@) == Kind::Bool && b@ == obj@,
                Err(e) => {
                    &&& py@.kind(obj@) != Kind::Bool
                    &&& e.obj@ == obj@
                    &&& e.expected == Kind::Bool
                    &&& e.actual == py@.kind(obj@)
                },
            }),
    {
        let k = py.kind_of(obj.raw_address());
        match k {
            Kind::Bool => Ok(PyBool { obj }),
            _ => Err(PyDowncastError { obj, expected: Kind::Bool, actual: k }),
        }
    }

    /// Widen back to the untyped handle; a narrowing loses nothing.
    pub fn upcast(self) -> (r: PyObjectPtr)
        ensures
            r@ == self@,
    {
        self.obj
    }

    /// Whether this boolean is the `true` singleton. The runtime keeps
    /// booleans as two fixed singletons, so identity against the `true`
    /// singleton is the test.
    pub fn is_true(&self, py: &Python) -> (r: bool)
        requires
            py@.wf(),
        ensures
            r == (self@ == bool_id(true)),
    {
        self.obj.raw_address() == py.bool_object(true)
    }
}

impl ToPyObject for bool {
    open spec fn value_model(&self) -> ValueModel {
        ValueModel::Bool(*self)
    }

    open spec fn convertible(&self) -> bool {
        true
    }

    /// The singleton for the value, borrowed: the singletons are
    /// immortal, so no reference count churns.
    fn to_object(&self, py: &mut Python) -> (r: PyObjectPtr) {
        let raw = py.bool_object(*self);
        PyObjectPtr::from_borrowed(py, raw)
    }
}

impl IntoPyObject for bool {
    fn into_object(self, py: &mut Python) -> (r: PyObjectPtr) {
        PyBool::new(py, self).upcast()
    }
}

impl FromPyObject for bool {
    open spec fn extract_ok(h: HeapModel, id: int) -> Option<bool> {
        if id == bool_id(true) {
            Some(true)
        } else if id == bool_id(false) {
            Some(false)
        } else {
            None
        }
    }

    open spec fn extract_err(h: HeapModel, id: int) -> PyErr {
        PyErr::TypeMismatch { expected: Kind::Bool, actual: h.kind(id) }
    }

    /// Exactly the two singletons extract, by identity; nothing is
    /// coerced by truthiness.
    fn extract(py: &Python, obj: &PyObjectPtr) -> (r: PyResult<bool>) {
        let raw = obj.raw_address();
        if raw == py.bool_object(true) {
            Ok(true)
        } else if raw == py.bool_object(false) {
            Ok(false)
        } else {
            Err(PyErr::TypeMismatch { expected: Kind::Bool, actual: py.kind_of(raw) })
        }
    }
}

/// The two boolean singletons are distinct objects: converting `true`
/// and `false` can never produce identity-equal handles.
pub proof fn lemma_bool_singletons_distinct()
    ensures
        bool_id(true) != bool_id(false),
{
}

/// The boolean round trip: borrow-converting a host boolean gives a
/// handle identity-equal to the matching singleton, and extracting it
/// back gives the boolean it came from. The heap is only extended along
/// the way (for the singletons, in fact untouched).
pub fn bool_round_trip(py: &mut Python, b: bool) -> (r: (PyObjectPtr, bool))
    requires
        old(py)@.wf(),
    ensures
        r.1 == b,
        r.0@ == bool_id(b),
        (old(py)@.extended_by(final(py)@)),
        final(py)@.wf(),
{
    let o = b.to_object(py);
    let got = o.extract::<bool>(py);
    match got {
        Ok(v) => (o, v),
        Err(_) => unreached(),
    }
}

} // verus!
