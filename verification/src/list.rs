//! Typed views of foreign sequence objects: lists and two-element tuples.

use vstd::prelude::*;
use crate::err::PyDowncastError;
use crate::object::PyObjectPtr;
use crate::runtime::{Kind, ObjValue, Python};

verus! {

/// A handle narrowed to a foreign list. Its view is the address of the
/// wrapped handle.
#[derive(Debug)]
pub struct PyList {
    obj: PyObjectPtr,
}

impl View for PyList {
    type V = int;

    closed spec fn view(&self) -> int {
        self.obj@
    }
}

impl PyList {
    /// A fresh empty list, owned by the returned view.
    pub fn new(py: &mut Python) -> (l: PyList)
        requires
            old(py)@.wf(),
        ensures
            (final(py)@ == old(py)@.with_new(ObjValue::List(Seq::empty()))),
            l@ == old(py)@.objects.len(),
            final(py)@.wf(),
    {
        let id = py.list_new();
        PyList { obj: PyObjectPtr::from_owned(py, id) }
    }

    /// Narrow a generic handle to a list: succeeds exactly when the
    /// runtime's type check for the list kind accepts the object.
    pub fn downcast_from(py: &Python, obj: PyObjectPtr) -> (r: Result<PyList, PyDowncastError>)
        requires
            py@.wf(),
            py@.valid(obj@),
        ensures
            (match r {
                Ok(l) => py@.kind(obj@) == Kind::List && l@ == obj@,
                Err(e) => {
                    &&& py@.kind(obj@) != Kind::List
                    &&& e.obj@ == obj@
                    &&& e.expected == Kind::List
                    &&& e.actual == py@.kind(obj@)
                },
            }),
    {
        let k = py.kind_of(obj.raw_address());
        match k {
            Kind::List => Ok(PyList { obj }),
            _ => Err(PyDowncastError { obj, expected: Kind::List, actual: k }),
        }
    }

    /// Widen back to the untyped handle; a narrowing is never lossy.
    pub fn upcast(self) -> (r: PyObjectPtr)
        ensures
            r@ == self@,
    {
        self.obj
    }

    /// Append an element, handing the element's reference to the list.
    pub fn append(&self, py: &mut Python, elem: PyObjectPtr)
        requires
            old(py)@.wf(),
            old(py)@.valid(self@),
            old(py)@.valid(elem@),
            old(py)@.kind(self@) == Kind::List,
        ensures
            final(py)@.wf(),
            (final(py)@ == old(py)@.with_value(
                self@,
                ObjValue::List(old(py)@.list_elems(self@).push(elem@ as nat)),
            )),
    {
        py.list_push_id(self.obj.raw_address(), elem.raw_address());
    }

    /// The number of elements.
    pub fn len(&self, py: &Python) -> (n: usize)
        requires
            py@.valid(self@),
            py@.kind(self@) == Kind::List,
        ensures
            n as nat == py@.list_elems(self@).len(),
    {
        py.list_len_id(self.obj.raw_address())
    }

    /// The element at position `i`, as a fresh owned handle: the list
    /// keeps its own reference too.
    pub fn get_item(&self, py: &mut Python, i: usize) -> (r: PyObjectPtr)
        requires
            old(py)@.wf(),
            old(py)@.valid(self@),
            old(py)@.kind(self@) == Kind::List,
            (i as nat) < old(py)@.list_elems(self@).len(),
        ensures
            r@ == old(py)@.list_elems(self@)[i as int],
            final(py)@.wf(),
            (final(py)@ == if r@ < 2 {
                old(py)@
            } else {
                old(py)@.with_rc(r@, crate::runtime::rc_inc(old(py)@.rc(r@)))
            }),
    {
        let e = py.list_get_id(self.obj.raw_address(), i);
        proof {
            assert(old(py)@.obj_ok(self@));
        }
        let h = PyObjectPtr::from_borrowed(py, e);
        proof {
            crate::runtime::lemma_wf_same_values(old(py)@, final(py)@);
        }
        h
    }
}

/// A handle narrowed to a foreign two-element tuple, as the pairs that
/// mapping enumeration yields. Its view is the address of the wrapped
/// handle.
#[derive(Debug)]
pub struct PyTuple {
    obj: PyObjectPtr,
}

impl View for PyTuple {
    type V = int;

    closed spec fn view(&self) -> int {
        self.obj@
    }
}

impl PyTuple {
    /// A fresh pair holding the two given objects, taking over both
    /// references.
    pub fn pair(py: &mut Python, a: PyObjectPtr, b: PyObjectPtr) -> (t: PyTuple)
        requires
            old(py)@.wf(),
            old(py)@.valid(a@),
            old(py)@.valid(b@),
        ensures
            (final(py)@ == old(py)@.with_new(ObjValue::Pair(a@ as nat, b@ as nat))),
            t@ == old(py)@.objects.len(),
            final(py)@.wf(),
    {
        let id = py.pair_new_id(a.raw_address(), b.raw_address());
        PyTuple { obj: PyObjectPtr::from_owned(py, id) }
    }

    /// Narrow a generic handle to a tuple: succeeds exactly when the
    /// runtime's type check for the tuple kind accepts the object.
    pub fn downcast_from(py: &Python, obj: PyObjectPtr) -> (r: Result<PyTuple, PyDowncastError>)
        requires
            py@.wf(),
            py@.valid(obj@),
        ensures
            (match r {
                Ok(t) => py@.kind(obj@) == Kind::Tuple && t@ == obj@,
                Err(e) => {
                    &&& py@.kind(obj@) != Kind::Tuple
                    &&& e.obj@ == obj@
                    &&& e.expected == Kind::Tuple
                    &&& e.actual == py@.kind(obj@)
                },
            }),
    {
        let k = py.kind_of(obj.raw_address());
        match k {
            Kind::Tuple => Ok(PyTuple { obj }),
            _ => Err(PyDowncastError { obj, expected: Kind::Tuple, actual: k }),
        }
    }

    /// Widen back to the untyped handle; a narrowing is never lossy.
    pub fn upcast(self) -> (r: PyObjectPtr)
        ensures
            r@ == self@,
    {
        self.obj
    }

    /// The member at position `i` (0 or 1), as a fresh owned handle.
    pub fn get_item(&self, py: &mut Python, i: usize) -> (r: PyObjectPtr)
        requires
            old(py)@.wf(),
            old(py)@.valid(self@),
            old(py)@.kind(self@) == Kind::Tuple,
            i < 2,
        ensures
            (match old(py)@.value(self@) {
                ObjValue::Pair(a, b) => r@ == if i == 0 {
                    a
                } else {
                    b
                },
                _ => false,
            }),
            final(py)@.wf(),
            (final(py)@ == if r@ < 2 {
                old(py)@
            } else {
                old(py)@.with_rc(r@, crate::runtime::rc_inc(old(py)@.rc(r@)))
            }),
    {
        let e = py.pair_get_id(self.obj.raw_address(), i);
        proof {
            assert(old(py)@.obj_ok(self@));
        }
        let h = PyObjectPtr::from_borrowed(py, e);
        proof {
            crate::runtime::lemma_wf_same_values(old(py)@, final(py)@);
        }
        h
    }
}

} // verus!
