//! The bidirectional conversion protocol between host-native values and
//! foreign objects.
//!
//! Every host type with a foreign counterpart carries a mathematical
//! [`ValueModel`]; conversion in either direction is specified against it.
//! [`ToPyObject`] borrows the host value and produces a foreign object
//! representing its model, [`IntoPyObject`] does the same consuming the
//! value, and [`FromPyObject`] attempts the reverse, failing with a
//! host-native error when the object is not of the expected kind.

use vstd::prelude::*;
use crate::err::{PyErr, PyResult};
use crate::object::PyObjectPtr;
use crate::runtime::{bool_id, DictKey, HeapModel, Kind, ObjValue, Python};

verus! {

broadcast use vstd::map::group_map_axioms;

/// The mathematical value a conversion carries across the boundary: a
/// boolean, an unbounded integer, or an associative mapping from hashable
/// keys to further values.
pub enum ValueModel {
    Bool(bool),
    Int(int),
    Mapping(Map<DictKey, ValueModel>),
}

/// The key a foreign mapping would store for a value of model `m`, or
/// `None` when that model's kind is unhashable.
pub open spec fn model_key(m: ValueModel) -> Option<DictKey> {
    match m {
        ValueModel::Bool(b) => Some(DictKey::Bool(b)),
        ValueModel::Int(i) => if i64::MIN <= i <= i64::MAX {
            Some(DictKey::Int(i as i64))
        } else {
            None
        },
        ValueModel::Mapping(_) => None,
    }
}

/// The object at address `id` in heap `h` represents the value `m`: a
/// boolean is the corresponding singleton, an integer object carries the
/// integer, and a mapping object has exactly the model's keys, each
/// stored value representing the model's value for that key.
pub open spec fn obj_models(h: HeapModel, id: int, m: ValueModel) -> bool
    decreases m,
{
    h.valid(id) && match m {
        ValueModel::Bool(b) => id == bool_id(b),
        ValueModel::Int(i) => h.value(id) == ObjValue::Int(i),
        ValueModel::Mapping(mm) => {
            &&& h.kind(id) == Kind::Dict
            &&& (h.dict_dom(id) == mm.dom())
            &&& forall|k: DictKey|
                mm.dom().contains(k) ==> obj_models(
                    h,
                    h.dict_lookup(id, k) as int,
                    #[trigger] mm[k],
                )
        },
    }
}

/// As [`obj_models`], strengthened with provenance: every mapping object
/// involved sits at address `lo` or above. Conversions produce mappings
/// freshly, so what they hand back models its value above the old heap
/// bound — which is what keeps the meaning stable when an older mapping
/// is mutated afterwards.
pub open spec fn obj_models_above(h: HeapModel, id: int, m: ValueModel, lo: int) -> bool
    decreases m,
{
    h.valid(id) && match m {
        ValueModel::Bool(b) => id == bool_id(b),
        ValueModel::Int(i) => h.value(id) == ObjValue::Int(i),
        ValueModel::Mapping(mm) => {
            &&& id >= lo
            &&& h.kind(id) == Kind::Dict
            &&& (h.dict_dom(id) == mm.dom())
            &&& forall|k: DictKey|
                mm.dom().contains(k) ==> obj_models_above(
                    h,
                    h.dict_lookup(id, k) as int,
                    #[trigger] mm[k],
                    lo,
                )
        },
    }
}

/// Provenance only strengthens the plain statement.
pub proof fn lemma_above_implies_models(h: HeapModel, id: int, m: ValueModel, lo: int)
    requires
        obj_models_above(h, id, m, lo),
    ensures
        obj_models(h, id, m),
    decreases m,
{
    match m {
        ValueModel::Mapping(mm) => {
            assert forall|k: DictKey| mm.dom().contains(k) implies obj_models(
                h,
                h.dict_lookup(id, k) as int,
                #[trigger] mm[k],
            ) by {
                lemma_above_implies_models(h, h.dict_lookup(id, k) as int, mm[k], lo);
            }
        },
        _ => {},
    }
}

/// A lower bound can be relaxed.
pub proof fn lemma_above_mono(h: HeapModel, id: int, m: ValueModel, lo: int, lo2: int)
    requires
        obj_models_above(h, id, m, lo),
        lo2 <= lo,
    ensures
        obj_models_above(h, id, m, lo2),
    decreases m,
{
    match m {
        ValueModel::Mapping(mm) => {
            assert forall|k: DictKey| mm.dom().contains(k) implies obj_models_above(
                h,
                h.dict_lookup(id, k) as int,
                #[trigger] mm[k],
                lo2,
            ) by {
                lemma_above_mono(h, h.dict_lookup(id, k) as int, mm[k], lo, lo2);
            }
        },
        _ => {},
    }
}

/// Mutating one mapping below the provenance bound — as storing into an
/// older dictionary does — cannot disturb what a newer object models:
/// integers and booleans are not that mapping, and every mapping the
/// model reaches sits at or above the bound.
pub proof fn lemma_above_frame(
    h: HeapModel,
    h2: HeapModel,
    id: int,
    m: ValueModel,
    lo: int,
    d: int,
)
    requires
        obj_models_above(h, id, m, lo),
        h.valid(d),
        d < lo,
        h.kind(d) == Kind::Dict,
        h2.objects.len() >= h.objects.len(),
        forall|i: int| h.valid(i) && i != d ==> h2.value(i) == h.value(i),
    ensures
        obj_models_above(h2, id, m, lo),
    decreases m,
{
    match m {
        ValueModel::Bool(_) => {},
        ValueModel::Int(_) => {
            assert(id != d);
        },
        ValueModel::Mapping(mm) => {
            assert(id != d);
            assert(h2.value(id) == h.value(id));
            assert(h2.dict_entries(id) == h.dict_entries(id));
            assert(h2.dict_dom(id) =~= h.dict_dom(id));
            assert forall|k: DictKey| mm.dom().contains(k) implies obj_models_above(
                h2,
                h2.dict_lookup(id, k) as int,
                #[trigger] mm[k],
                lo,
            ) by {
                lemma_above_frame(h, h2, h.dict_lookup(id, k) as int, mm[k], lo, d);
            }
        },
    }
}

/// What an object represents is stable under heap extension: objects
/// that keep their values keep their meaning.
pub proof fn lemma_above_extended(pre: HeapModel, post: HeapModel, id: int, m: ValueModel, lo: int)
    requires
        obj_models_above(pre, id, m, lo),
        pre.extended_by(post),
    ensures
        obj_models_above(post, id, m, lo),
    decreases m,
{
    match m {
        ValueModel::Mapping(mm) => {
            assert(post.value(id) == pre.value(id));
            assert(post.dict_entries(id) == pre.dict_entries(id));
            assert(post.dict_dom(id) =~= pre.dict_dom(id));
            assert forall|k: DictKey| mm.dom().contains(k) implies obj_models_above(
                post,
                post.dict_lookup(id, k) as int,
                #[trigger] mm[k],
                lo,
            ) by {
                lemma_above_extended(pre, post, pre.dict_lookup(id, k) as int, mm[k], lo);
            }
        },
        _ => {},
    }
}

/// In a well-formed heap, the key a mapping stores for an object is
/// determined by the object's model.
pub proof fn lemma_model_key(h: HeapModel, id: int, m: ValueModel)
    requires
        h.wf(),
        obj_models(h, id, m),
    ensures
        crate::runtime::key_of(h.value(id)) == model_key(m),
{
    match m {
        ValueModel::Bool(b) => {
            assert(h.value(bool_id(b)) == ObjValue::Bool(b));
        },
        _ => {},
    }
}


/// Borrow-convert: produce a foreign object representing the host value,
/// leaving the value in place. The foreign heap is only extended —
/// every existing object keeps its value and its reference count — and
/// the returned handle owns the produced object.
pub trait ToPyObject {
    /// The mathematical value this host value stands for.
    spec fn value_model(&self) -> ValueModel;

    /// Whether conversion is defined for this value. For scalar values
    /// this always holds; an associative container requires hashable,
    /// distinctly-converted keys, since the foreign mapping could not
    /// hold it otherwise.
    spec fn convertible(&self) -> bool;

    fn to_object(&self, py: &mut Python) -> (r: PyObjectPtr)
        requires
            old(py)@.wf(),
            self.convertible(),
        ensures
            final(py)@.wf(),
            (old(py)@.extended_by(final(py)@)),
            obj_models(final(py)@, r@, self.value_model()),
            obj_models_above(final(py)@, r@, self.value_model(), old(py)@.objects.len() as int),
            r@ < 2 || r@ >= old(py)@.objects.len(),
    ;
}

/// Consume-convert: as [`ToPyObject::to_object`], taking ownership of the
/// host value; the contract is the same, for types with no host-side
/// resource the difference is purely one of ownership transfer.
pub trait IntoPyObject: ToPyObject + Sized {
    fn into_object(self, py: &mut Python) -> (r: PyObjectPtr)
        requires
            old(py)@.wf(),
            self.convertible(),
        ensures
            final(py)@.wf(),
            (old(py)@.extended_by(final(py)@)),
            obj_models(final(py)@, r@, self.value_model()),
            obj_models_above(final(py)@, r@, self.value_model(), old(py)@.objects.len() as int),
            r@ < 2 || r@ >= old(py)@.objects.len(),
    ;
}

/// Fallible extraction: attempt to read a host value back out of a
/// foreign object, without touching the heap. Exactly the objects for
/// which [`FromPyObject::extract_ok`] gives a value extract successfully,
/// to that value; every other object yields the error named by
/// [`FromPyObject::extract_err`].
pub trait FromPyObject: Sized {
    /// The host value the object at `id` extracts to, if any.
    spec fn extract_ok(h: HeapModel, id: int) -> Option<Self>;

    /// The error reported for an object that does not extract.
    spec fn extract_err(h: HeapModel, id: int) -> PyErr;

    fn extract(py: &Python, obj: &PyObjectPtr) -> (r: PyResult<Self>)
        requires
            py@.wf(),
            py@.valid(obj@),
        ensures
            (match Self::extract_ok(py@, obj@) {
                Some(v) => r == PyResult::<Self>::Ok(v),
                None => r == PyResult::<Self>::Err(Self::extract_err(py@, obj@)),
            }),
    ;
}

impl PyObjectPtr {
    /// Attempt to read a host value out of this handle's object; the
    /// handle keeps its reference either way.
    pub fn extract<T: FromPyObject>(&self, py: &Python) -> (r: PyResult<T>)
        requires
            py@.wf(),
            py@.valid(self@),
        ensures
            (match T::extract_ok(py@, self@) {
                Some(v) => r == PyResult::<T>::Ok(v),
                None => r == PyResult::<T>::Err(T::extract_err(py@, self@)),
            }),
    {
        T::extract(py, self)
    }
}

impl<'a, T: ToPyObject> ToPyObject for &'a T {
    open spec fn value_model(&self) -> ValueModel {
        (**self).value_model()
    }

    open spec fn convertible(&self) -> bool {
        (**self).convertible()
    }

    fn to_object(&self, py: &mut Python) -> (r: PyObjectPtr) {
        (**self).to_object(py)
    }
}

impl ToPyObject for i32 {
    open spec fn value_model(&self) -> ValueModel {
        ValueModel::Int(*self as int)
    }

    open spec fn convertible(&self) -> bool {
        true
    }

    fn to_object(&self, py: &mut Python) -> (r: PyObjectPtr) {
        let id = py.int_new(*self as i64);
        PyObjectPtr::from_owned(py, id)
    }
}

impl IntoPyObject for i32 {
    fn into_object(self, py: &mut Python) -> (r: PyObjectPtr) {
        self.to_object(py)
    }
}

impl FromPyObject for i32 {
    open spec fn extract_ok(h: HeapModel, id: int) -> Option<i32> {
        match h.value(id) {
            ObjValue::Int(i) => if i32::MIN <= i <= i32::MAX {
                Some(i as i32)
            } else {
                None
            },
            _ => None,
        }
    }

    open spec fn extract_err(h: HeapModel, id: int) -> PyErr {
        match h.value(id) {
            ObjValue::Int(_) => PyErr::Foreign(crate::runtime::ExcKind::OverflowError),
            _ => PyErr::TypeMismatch { expected: Kind::Int, actual: h.kind(id) },
        }
    }

    fn extract(py: &Python, obj: &PyObjectPtr) -> (r: PyResult<i32>) {
        let raw = obj.raw_address();
        match py.kind_of(raw) {
            Kind::Int => {
                let v = py.int_value(raw);
                if i32::MIN as i64 <= v && v <= i32::MAX as i64 {
                    Ok(v as i32)
                } else {
                    Err(PyErr::Foreign(crate::runtime::ExcKind::OverflowError))
                }
            },
            k => Err(PyErr::TypeMismatch { expected: Kind::Int, actual: k }),
        }
    }
}

impl ToPyObject for i64 {
    open spec fn value_model(&self) -> ValueModel {
        ValueModel::Int(*self as int)
    }

    open spec fn convertible(&self) -> bool {
        true
    }

    fn to_object(&self, py: &mut Python) -> (r: PyObjectPtr) {
        let id = py.int_new(*self);
        PyObjectPtr::from_owned(py, id)
    }
}

impl IntoPyObject for i64 {
    fn into_object(self, py: &mut Python) -> (r: PyObjectPtr) {
        self.to_object(py)
    }
}

impl FromPyObject for i64 {
    open spec fn extract_ok(h: HeapModel, id: int) -> Option<i64> {
        match h.value(id) {
            ObjValue::Int(i) => if i64::MIN <= i <= i64::MAX {
                Some(i as i64)
            } else {
                None
            },
            _ => None,
        }
    }

    open spec fn extract_err(h: HeapModel, id: int) -> PyErr {
        match h.value(id) {
            ObjValue::Int(_) => PyErr::Foreign(crate::runtime::ExcKind::OverflowError),
            _ => PyErr::TypeMismatch { expected: Kind::Int, actual: h.kind(id) },
        }
    }

    fn extract(py: &Python, obj: &PyObjectPtr) -> (r: PyResult<i64>) {
        let raw = obj.raw_address();
        match py.kind_of(raw) {
            Kind::Int => Ok(py.int_value(raw)),
            k => Err(PyErr::TypeMismatch { expected: Kind::Int, actual: k }),
        }
    }
}

} // verus!
