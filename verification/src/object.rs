//! The owned, reference-counted handle to one foreign object.

use vstd::prelude::*;
use crate::runtime::{rc_dec, rc_inc, Python};

verus! {

/// An owned handle to one foreign object: a raw address together with one
/// reference-count contribution that belongs to this handle alone.
///
/// A handle is created either by adopting a count the caller already holds
/// ([`PyObjectPtr::from_owned`]) or by taking a fresh increment
/// ([`PyObjectPtr::from_borrowed`], [`PyObjectPtr::clone_ref`]), and gives
/// its contribution back exactly once, through [`PyObjectPtr::release`].
/// Handles are not copyable, so the contribution cannot be given back
/// twice; a handle that is never released leaks its increment.
///
/// The view of a handle is the address it holds. Equality of handles is
/// identity: two handles are equal when they refer to the same foreign
/// object, whatever that object holds.
#[derive(Debug)]
pub struct PyObjectPtr {
    id: usize,
}

impl View for PyObjectPtr {
    type V = int;

    closed spec fn view(&self) -> int {
        self.id as int
    }
}

impl PyObjectPtr {
    /// Adopt a reference-count contribution the caller already holds for
    /// the object at `raw`. No count moves. Handing an address whose
    /// count the caller does not own is a host-side contract violation:
    /// the runtime's bookkeeping is only sound while every contribution
    /// has one owner.
    pub fn from_owned(py: &Python, raw: usize) -> (r: PyObjectPtr)
        requires
            py@.valid(raw as int),
        ensures
            r@ == raw as int,
    {
        let _ = py;
        PyObjectPtr { id: raw }
    }

    /// Take a fresh reference-count increment for the object at `raw` and
    /// wrap it: the source of the address keeps its own reference.
    pub fn from_borrowed(py: &mut Python, raw: usize) -> (r: PyObjectPtr)
        requires
            old(py)@.valid(raw as int),
        ensures
            r@ == raw as int,
            (final(py)@ == if raw < 2 {
                old(py)@
            } else {
                old(py)@.with_rc(raw as int, rc_inc(old(py)@.rc(raw as int)))
            }),
    {
        py.incref(raw);
        PyObjectPtr { id: raw }
    }

    /// A second handle to the same object, with its own fresh increment.
    pub fn clone_ref(&self, py: &mut Python) -> (r: PyObjectPtr)
        requires
            old(py)@.valid(self@),
        ensures
            r@ == self@,
            (final(py)@ == if self@ < 2 {
                old(py)@
            } else {
                old(py)@.with_rc(self@, rc_inc(old(py)@.rc(self@)))
            }),
    {
        py.incref(self.id);
        PyObjectPtr { id: self.id }
    }

    /// Give the handle's reference-count contribution back, consuming the
    /// handle. When the count reaches zero the foreign runtime reclaims
    /// the object; this happens exactly once per handle, since a released
    /// handle is gone.
    pub fn release(self, py: &mut Python)
        requires
            old(py)@.valid(self@),
        ensures
            (final(py)@ == if self@ < 2 {
                old(py)@
            } else {
                old(py)@.with_rc(self@, rc_dec(old(py)@.rc(self@)))
            }),
    {
        py.decref(self.id);
    }

    /// The underlying address, for handing into the foreign capability
    /// surface. Ownership does not move: the handle keeps its count.
    pub fn raw_address(&self) -> (r: usize)
        ensures
            r as int == self@,
    {
        self.id
    }
}

impl PartialEq for PyObjectPtr {
    /// Handle equality is identity of the underlying address.
    fn eq(&self, other: &PyObjectPtr) -> (r: bool) {
        self.id == other.id
    }
}

impl vstd::std_specs::cmp::PartialEqSpecImpl for PyObjectPtr {
    open spec fn obeys_eq_spec() -> bool {
        true
    }

    open spec fn eq_spec(&self, other: &PyObjectPtr) -> bool {
        self@ == other@
    }
}

impl Eq for PyObjectPtr {

}

/// Cloning a handle and immediately releasing the clone leaves the
/// foreign runtime exactly as it was: every reference count, every object
/// value and the pending exception are unchanged. The one exclusion is a
/// mortal object whose count already sits at the top of the counter,
/// where the increment would saturate.
pub fn clone_then_release(py: &mut Python, h: &PyObjectPtr)
    requires
        old(py)@.valid(h@),
        h@ < 2 || old(py)@.rc(h@) < u64::MAX,
    ensures
        (final(py)@ == old(py)@),
{
    let c = h.clone_ref(py);
    let ghost mid = py@;
    c.release(py);
    proof {
        if h@ >= 2 {
            assert(mid.rc(h@) == rc_inc(old(py)@.rc(h@)));
            assert(rc_dec(mid.rc(h@)) == old(py)@.rc(h@));
            assert(final(py)@.objects =~= old(py)@.objects);
        }
        assert(final(py)@ =~= old(py)@);
    }
}

} // verus!
