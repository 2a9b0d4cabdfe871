//! The typed view of a foreign mapping, and the conversion of host
//! associative containers into foreign mappings.
//!
//! A mapping stores keys by value (only hashable kinds — booleans and
//! integers — can be keys) and holds one reference per stored value. An
//! existing key keeps its position when overwritten and a new key is
//! appended, so a mapping enumerates its entries in insertion order.

use vstd::prelude::*;
use crate::conversion::{
    lemma_above_extended, lemma_above_frame, lemma_above_implies_models, lemma_model_key,
    model_key, obj_models, obj_models_above, ToPyObject, ValueModel,
};
use crate::err::{error_on_minusone, PyDowncastError, PyErr, PyResult};
use crate::object::PyObjectPtr;
use crate::runtime::{
    entries_del, entries_set, key_index, key_of, lemma_entries_set_lookup, DictKey, ExcKind, Kind,
    ObjValue, Python,
};

verus! {

/// A handle narrowed to a foreign mapping. Only
/// [`PyDict::downcast_from`] and the constructors produce it, so a
/// `PyDict` in scope is proof the runtime type check passed. Its view is
/// the address of the wrapped handle.
#[derive(Debug)]
pub struct PyDict {
    obj: PyObjectPtr,
}

impl View for PyDict {
    type V = int;

    closed spec fn view(&self) -> int {
        self.obj@
    }
}

impl PyDict {
    /// A fresh empty mapping, owned by the returned view.
    pub fn new(py: &mut Python) -> (d: PyDict)
        requires
            old(py)@.wf(),
        ensures
            (final(py)@ == old(py)@.with_new(ObjValue::Dict(Seq::empty()))),
            d@ == old(py)@.objects.len(),
            final(py)@.wf(),
    {
        let id = py.dict_new();
        PyDict { obj: PyObjectPtr::from_owned(py, id) }
    }

    /// Narrow a generic handle to a mapping: succeeds exactly when the
    /// runtime's type check for the mapping kind accepts the object, and
    /// then wraps the same handle — no new reference is taken. On
    /// failure the handle comes back inside the error and no view is
    /// constructed.
    pub fn downcast_from(py: &Python, obj: PyObjectPtr) -> (r: Result<PyDict, PyDowncastError>)
        requires
            py@.wf(),
            py@.valid(obj@),
        ensures
            (match r {
                Ok(d) => py@.kind(obj@) == Kind::Dict && d@ == obj@,
                Err(e) => {
                    &&& py@.kind(obj@) != Kind::Dict
                    &&& e.obj@ == obj@
                    &&& e.expected == Kind::Dict
                    &&& e.actual == py@.kind(obj@)
                },
            }),
    {
        let k = py.kind_of(obj.raw_address());
        match k {
            Kind::Dict => Ok(PyDict { obj }),
            _ => Err(PyDowncastError { obj, expected: Kind::Dict, actual: k }),
        }
    }

    /// Widen back to the untyped handle; a narrowing is never lossy.
    pub fn upcast(self) -> (r: PyObjectPtr)
        ensures
            r@ == self@,
    {
        self.obj
    }

    /// The number of entries, as `len(d)` would give it.
    pub fn len(&self, py: &Python) -> (n: usize)
        requires
            py@.valid(self@),
            py@.kind(self@) == Kind::Dict,
        ensures
            n as nat == py@.dict_entries(self@).len(),
    {
        py.dict_len_id(self.obj.raw_address())
    }

    /// A fresh mapping holding the same entries, as `dict(d)` would give
    /// it; the new mapping takes its own reference to every stored
    /// value. The model runtime never runs out of memory, so this always
    /// succeeds; the result type mirrors the foreign calling convention,
    /// where allocation may fail.
    pub fn copy(&self, py: &mut Python) -> (r: PyResult<PyDict>)
        requires
            old(py)@.wf(),
            old(py)@.valid(self@),
            old(py)@.kind(self@) == Kind::Dict,
        ensures
            final(py)@.wf(),
            final(py)@.pending == old(py)@.pending,
            final(py)@.objects.len() == old(py)@.objects.len() + 1,
            forall|i: int|
                old(py)@.valid(i) ==> final(py)@.value(i) == old(py)@.value(i),
            forall|i: int|
                old(py)@.valid(i) ==> final(py)@.rc(i) == (if i >= 2 {
                    crate::runtime::rc_inc_n(
                        old(py)@.rc(i),
                        crate::runtime::occ(old(py)@.dict_entries(self@), i as nat),
                    )
                } else {
                    old(py)@.rc(i)
                }),
            (match r {
                Ok(nd) => {
                    &&& nd@ == old(py)@.objects.len()
                    &&& final(py)@.value(nd@) == old(py)@.value(self@)
                    &&& final(py)@.rc(nd@) == 1
                },
                Err(_) => false,
            }),
    {
        let id = py.dict_copy_id(self.obj.raw_address());
        Ok(PyDict { obj: PyObjectPtr::from_owned(py, id) })
    }

    /// Remove every entry, giving up the mapping's reference to each
    /// stored value.
    pub fn clear(&self, py: &mut Python)
        requires
            old(py)@.wf(),
            old(py)@.valid(self@),
            old(py)@.kind(self@) == Kind::Dict,
        ensures
            final(py)@.wf(),
            final(py)@.pending == old(py)@.pending,
            final(py)@.objects.len() == old(py)@.objects.len(),
            forall|i: int|
                old(py)@.valid(i) && i != self@ ==> final(py)@.value(i) == old(py)@.value(i),
            (final(py)@.value(self@) == ObjValue::Dict(Seq::<(DictKey, nat)>::empty())),
            forall|i: int|
                old(py)@.valid(i) ==> final(py)@.rc(i) == (if i >= 2 {
                    crate::runtime::rc_dec_n(
                        old(py)@.rc(i),
                        crate::runtime::occ(old(py)@.dict_entries(self@), i as nat),
                    )
                } else {
                    old(py)@.rc(i)
                }),
    {
        py.dict_clear_id(self.obj.raw_address());
    }

    /// Whether the mapping contains the key that `key` converts to, as
    /// `key in d` would answer. Fails — with the foreign `TypeError`
    /// fetched from the runtime — exactly when `key` converts to an
    /// unhashable kind.
    pub fn contains<K: ToPyObject>(&self, py: &mut Python, key: K) -> (r: PyResult<bool>)
        requires
            old(py)@.wf(),
            old(py)@.valid(self@),
            old(py)@.kind(self@) == Kind::Dict,
            key.convertible(),
        ensures
            final(py)@.wf(),
            final(py)@.objects.len() >= old(py)@.objects.len(),
            forall|i: int| old(py)@.valid(i) ==> final(py)@.value(i) == old(py)@.value(i),
            forall|i: int| old(py)@.valid(i) ==> final(py)@.rc(i) == old(py)@.rc(i),
            (match model_key(key.value_model()) {
                Some(dk) => {
                    &&& r == PyResult::<bool>::Ok(old(py)@.dict_has(self@, dk))
                    &&& final(py)@.pending == old(py)@.pending
                },
                None => {
                    &&& r == PyResult::<bool>::Err(PyErr::Foreign(ExcKind::TypeError))
                    &&& (final(py)@.pending is None)
                },
            }),
    {
        let d = self.obj.raw_address();
        let kobj = key.to_object(py);
        let ghost h1 = py@;
        proof {
            lemma_model_key(py@, kobj@, key.value_model());
        }
        let status = py.dict_contains_id(d, kobj.raw_address());
        let r = if status == 1 {
            Ok(true)
        } else if status == 0 {
            Ok(false)
        } else {
            Err(PyErr::fetch(py))
        };
        kobj.release(py);
        proof {
            crate::runtime::lemma_wf_same_values(h1, py@);
            assert forall|i: int| old(py)@.valid(i) implies py@.rc(i) == old(py)@.rc(i) by {
                assert(h1.rc(i) == old(py)@.rc(i));
                if kobj@ >= 2 {
                    assert(i != kobj@);
                }
            }
        }
        r
    }

    /// The value stored under the key that `key` converts to, as a fresh
    /// owned handle — the mapping keeps its own reference. `Ok(None)`
    /// when the key is absent: absence is not a failure. Fails — with
    /// the foreign `TypeError` fetched from the error bridge — exactly
    /// when `key` converts to an unhashable kind.
    pub fn get_item<K: ToPyObject>(&self, py: &mut Python, key: K) -> (r: PyResult<
        Option<PyObjectPtr>,
    >)
        requires
            old(py)@.wf(),
            old(py)@.valid(self@),
            old(py)@.kind(self@) == Kind::Dict,
            key.convertible(),
        ensures
            final(py)@.wf(),
            final(py)@.objects.len() >= old(py)@.objects.len(),
            forall|i: int| old(py)@.valid(i) ==> final(py)@.value(i) == old(py)@.value(i),
            (match r {
                Ok(Some(h)) => forall|i: int|
                    old(py)@.valid(i) ==> final(py)@.rc(i) == (if i == h@ && i >= 2 {
                        crate::runtime::rc_inc(old(py)@.rc(i))
                    } else {
                        old(py)@.rc(i)
                    }),
                _ => forall|i: int| old(py)@.valid(i) ==> final(py)@.rc(i) == old(py)@.rc(i),
            }),
            (match model_key(key.value_model()) {
                Some(dk) => {
                    &&& final(py)@.pending == old(py)@.pending
                    &&& (match r {
                        Ok(Some(h)) => {
                            &&& old(py)@.dict_has(self@, dk)
                            &&& h@ == old(py)@.dict_lookup(self@, dk)
                        },
                        Ok(None) => !old(py)@.dict_has(self@, dk),
                        Err(_) => false,
                    })
                },
                None => {
                    &&& r == PyResult::<Option<PyObjectPtr>>::Err(
                        PyErr::Foreign(ExcKind::TypeError),
                    )
                    &&& (final(py)@.pending is None)
                },
            }),
    {
        let d = self.obj.raw_address();
        let kobj = key.to_object(py);
        let ghost h1 = py@;
        proof {
            lemma_model_key(py@, kobj@, key.value_model());
            assert(h1.obj_ok(kobj@));
        }
        let kkind = py.kind_of(kobj.raw_address());
        let hashable = match kkind {
            Kind::Bool => true,
            Kind::Int => true,
            _ => false,
        };
        let found = py.dict_get_id(d, kobj.raw_address());
        kobj.release(py);
        if !hashable {
            let e = PyErr::fetch(py);
            proof {
                crate::runtime::lemma_wf_same_values(h1, py@);
            }
            return Err(e);
        }
        match found {
            Some(v) => {
                proof {
                    assert(h1.obj_ok(self@));
                    let es = h1.dict_entries(self@);
                    let dk = model_key(key.value_model()).unwrap();
                    let w = key_index(es, dk);
                    assert(0 <= w < es.len() && es[w].0 == dk);
                    assert(py@.valid(v as int));
                }
                let h = PyObjectPtr::from_borrowed(py, v);
                proof {
                    crate::runtime::lemma_wf_same_values(h1, py@);
                }
                Ok(Some(h))
            },
            None => {
                proof {
                    crate::runtime::lemma_wf_same_values(h1, py@);
                }
                Ok(None)
            },
        }
    }

    /// Store `key -> value`, as `d[key] = value` would: both are
    /// converted to foreign objects and the mapping keeps the value
    /// object's reference. An entry already carrying the key keeps its
    /// position; a new key is appended. Fails — with the foreign
    /// `TypeError` — exactly when `key` converts to an unhashable kind,
    /// and then changes no mapping.
    pub fn set_item<K: ToPyObject, V: ToPyObject>(
        &self,
        py: &mut Python,
        key: K,
        value: V,
    ) -> (r: PyResult<()>)
        requires
            old(py)@.wf(),
            old(py)@.valid(self@),
            old(py)@.kind(self@) == Kind::Dict,
            key.convertible(),
            value.convertible(),
        ensures
            final(py)@.wf(),
            final(py)@.objects.len() >= old(py)@.objects.len(),
            forall|i: int|
                old(py)@.valid(i) && i != self@ ==> final(py)@.value(i) == old(py)@.value(i),
            (match model_key(key.value_model()) {
                Some(dk) => {
                    &&& r == PyResult::<()>::Ok(())
                    &&& final(py)@.pending == old(py)@.pending
                    &&& final(py)@.dict_has(self@, dk)
                    &&& (final(py)@.value(self@) == ObjValue::Dict(
                        entries_set(
                            old(py)@.dict_entries(self@),
                            dk,
                            final(py)@.dict_lookup(self@, dk),
                        ),
                    ))
                    &&& obj_models_above(
                        final(py)@,
                        final(py)@.dict_lookup(self@, dk) as int,
                        value.value_model(),
                        old(py)@.objects.len() as int,
                    )
                    &&& obj_models(
                        final(py)@,
                        final(py)@.dict_lookup(self@, dk) as int,
                        value.value_model(),
                    )
                    &&& forall|i: int|
                        old(py)@.valid(i) ==> final(py)@.rc(i) == (if old(py)@.dict_has(
                            self@,
                            dk,
                        ) && i == old(py)@.dict_lookup(self@, dk) && i >= 2 {
                            crate::runtime::rc_dec(old(py)@.rc(i))
                        } else {
                            old(py)@.rc(i)
                        })
                },
                None => {
                    &&& r == PyResult::<()>::Err(PyErr::Foreign(ExcKind::TypeError))
                    &&& (final(py)@.pending is None)
                    &&& final(py)@.value(self@) == old(py)@.value(self@)
                    &&& forall|i: int|
                        old(py)@.valid(i) ==> final(py)@.rc(i) == old(py)@.rc(i)
                },
            }),
    {
        let d = self.obj.raw_address();
        let ghost h0 = py@;
        let kobj = key.to_object(py);
        let ghost h1 = py@;
        let vobj = value.to_object(py);
        let ghost h2 = py@;
        proof {
            lemma_above_extended(h1, h2, kobj@, key.value_model(), h0.objects.len() as int);
            lemma_above_implies_models(h2, kobj@, key.value_model(), h0.objects.len() as int);
            lemma_model_key(h2, kobj@, key.value_model());
            assert(py@.obj_ok(d as int));
        }
        let status = py.dict_set_id(d, kobj.raw_address(), vobj.raw_address());
        let ghost h3 = py@;
        if status == -1 {
            let e = PyErr::fetch(py);
            vobj.release(py);
            kobj.release(py);
            proof {
                crate::runtime::lemma_wf_same_values(h3, py@);
            }
            return Err(e);
        }
        proof {
            assert(h2.obj_ok(d as int));
            let dk = model_key(key.value_model()).unwrap();
            let es = h2.dict_entries(d as int);
            lemma_entries_set_lookup(es, dk, vobj@ as nat);
            assert(h3.dict_entries(d as int) == entries_set(es, dk, vobj@ as nat));
            assert(h3.dict_lookup(d as int, dk) == vobj@ as nat);
            lemma_above_frame(
                h2,
                h3,
                vobj@,
                value.value_model(),
                h1.objects.len() as int,
                d as int,
            );
        }
        kobj.release(py);
        proof {
            let h4 = py@;
            crate::runtime::lemma_wf_same_values(h3, h4);
            assert(h4.dict_entries(self@) == h3.dict_entries(self@));
            lemma_above_frame(h3, h4, vobj@, value.value_model(), h1.objects.len() as int, self@);
            crate::conversion::lemma_above_mono(
                h4,
                vobj@,
                value.value_model(),
                h1.objects.len() as int,
                h0.objects.len() as int,
            );
            lemma_above_implies_models(h4, vobj@, value.value_model(), h0.objects.len() as int);
        }
        proof {
            let dk = model_key(key.value_model()).unwrap();
            let hf = py@;
            let es0 = h0.dict_entries(self@);
            assert(h2.dict_entries(self@) == es0);
            assert forall|i: int| h0.valid(i) implies hf.rc(i) == (if h0.dict_has(self@, dk) && i
                == h0.dict_lookup(self@, dk) && i >= 2 {
                crate::runtime::rc_dec(h0.rc(i))
            } else {
                h0.rc(i)
            }) by {
                assert(h1.rc(i) == h0.rc(i));
                assert(h2.rc(i) == h1.rc(i));
                if kobj@ >= 2 {
                    assert(i != kobj@);
                    assert(hf.rc(i) == h3.rc(i));
                } else {
                    assert(hf.rc(i) == h3.rc(i));
                }
                assert(h0.dict_has(self@, dk) == h2.dict_has(self@, dk));
                if h2.dict_has(self@, dk) {
                    assert(h0.dict_lookup(self@, dk) == h2.dict_lookup(self@, dk));
                }
                assert(h3.rc(i) == (if h2.dict_has(self@, dk) && i == h2.dict_lookup(self@, dk)
                    && i >= 2 {
                    crate::runtime::rc_dec(h2.rc(i))
                } else {
                    h2.rc(i)
                }));
            }
        }
        // the mapping keeps the value object's reference; only the
        // temporary key object is given back
        Ok(())
    }

    /// Delete the entry for the key that `key` converts to, as
    /// `del d[key]` would, giving up the mapping's reference to the
    /// removed value; later entries keep their order. Fails — with the
    /// foreign `KeyError` — exactly when the key is absent, and with the
    /// foreign `TypeError` when `key` converts to an unhashable kind; a
    /// failed deletion changes no mapping.
    pub fn del_item<K: ToPyObject>(&self, py: &mut Python, key: K) -> (r: PyResult<()>)
        requires
            old(py)@.wf(),
            old(py)@.valid(self@),
            old(py)@.kind(self@) == Kind::Dict,
            key.convertible(),
        ensures
            final(py)@.wf(),
            final(py)@.objects.len() >= old(py)@.objects.len(),
            forall|i: int|
                old(py)@.valid(i) && i != self@ ==> final(py)@.value(i) == old(py)@.value(i),
            (match model_key(key.value_model()) {
                Some(dk) => {
                    if old(py)@.dict_has(self@, dk) {
                        &&& r == PyResult::<()>::Ok(())
                        &&& final(py)@.pending == old(py)@.pending
                        &&& (final(py)@.value(self@) == ObjValue::Dict(
                            entries_del(old(py)@.dict_entries(self@), dk),
                        ))
                        &&& forall|i: int|
                            old(py)@.valid(i) ==> final(py)@.rc(i) == (if i == old(
                                py,
                            )@.dict_lookup(self@, dk) && i >= 2 {
                                crate::runtime::rc_dec(old(py)@.rc(i))
                            } else {
                                old(py)@.rc(i)
                            })
                    } else {
                        &&& r == PyResult::<()>::Err(PyErr::Foreign(ExcKind::KeyError))
                        &&& (final(py)@.pending is None)
                        &&& final(py)@.value(self@) == old(py)@.value(self@)
                        &&& forall|i: int|
                            old(py)@.valid(i) ==> final(py)@.rc(i) == old(py)@.rc(i)
                    }
                },
                None => {
                    &&& r == PyResult::<()>::Err(PyErr::Foreign(ExcKind::TypeError))
                    &&& (final(py)@.pending is None)
                    &&& final(py)@.value(self@) == old(py)@.value(self@)
                    &&& forall|i: int|
                        old(py)@.valid(i) ==> final(py)@.rc(i) == old(py)@.rc(i)
                },
            }),
    {
        let d = self.obj.raw_address();
        let kobj = key.to_object(py);
        proof {
            lemma_model_key(py@, kobj@, key.value_model());
        }
        let ghost h1 = py@;
        let status = py.dict_del_id(d, kobj.raw_address());
        let ghost h2 = py@;
        let r = error_on_minusone(py, status);
        kobj.release(py);
        proof {
            crate::runtime::lemma_wf_same_values(h2, py@);
            assert(h1.dict_entries(self@) == old(py)@.dict_entries(self@));
            assert forall|i: int| old(py)@.valid(i) implies py@.rc(i) == h2.rc(i) by {
                if kobj@ >= 2 {
                    assert(i != kobj@);
                }
            }
            assert forall|i: int| old(py)@.valid(i) implies h1.rc(i) == old(py)@.rc(i) by {}
            if let Some(dk) = model_key(key.value_model()) {
                assert(key_of(h1.value(kobj@)) == Some(dk));
                assert(h1.dict_has(self@, dk) == old(py)@.dict_has(self@, dk));
                if old(py)@.dict_has(self@, dk) {
                    assert(h1.dict_lookup(self@, dk) == old(py)@.dict_lookup(self@, dk));
                    assert forall|i: int| old(py)@.valid(i) implies py@.rc(i) == (if i == old(
                        py,
                    )@.dict_lookup(self@, dk) && i >= 2 {
                        crate::runtime::rc_dec(old(py)@.rc(i))
                    } else {
                        old(py)@.rc(i)
                    }) by {
                        assert(h2.rc(i) == (if i == h1.dict_lookup(self@, dk) && i >= 2 {
                            crate::runtime::rc_dec(h1.rc(i))
                        } else {
                            h1.rc(i)
                        }));
                    }
                }
            }
        }
        r
    }
}

/// A fresh object carrying the key value `k`: the matching singleton for
/// a boolean key, a fresh integer object with count 1 for an integer key.
fn key_to_object(py: &mut Python, k: DictKey) -> (r: PyObjectPtr)
    requires
        old(py)@.wf(),
    ensures
        final(py)@.wf(),
        (old(py)@.extended_by(final(py)@)),
        final(py)@.valid(r@),
        key_of(final(py)@.value(r@)) == Some(k),
        r@ < 2 || (r@ >= old(py)@.objects.len() && final(py)@.rc(r@) == 1),
{
    match k {
        DictKey::Bool(b) => {
            let raw = py.bool_object(b);
            PyObjectPtr::from_borrowed(py, raw)
        },
        DictKey::Int(i) => {
            let id = py.int_new(i);
            PyObjectPtr::from_owned(py, id)
        },
    }
}

impl PyDict {
    /// The entries as host pairs of owned handles, in insertion order:
    /// for each entry a fresh object carrying the key and a handle to
    /// the stored value (the mapping keeps its own reference).
    pub fn items(&self, py: &mut Python) -> (r: Vec<(PyObjectPtr, PyObjectPtr)>)
        requires
            old(py)@.wf(),
            old(py)@.valid(self@),
            old(py)@.kind(self@) == Kind::Dict,
        ensures
            final(py)@.wf(),
            final(py)@.objects.len() >= old(py)@.objects.len(),
            final(py)@.pending == old(py)@.pending,
            forall|i: int| old(py)@.valid(i) ==> final(py)@.value(i) == old(py)@.value(i),
            r@.len() == old(py)@.dict_entries(self@).len(),
            forall|i: int|
                old(py)@.valid(i) ==> final(py)@.rc(i) == (if i >= 2 {
                    crate::runtime::rc_inc_n(
                        old(py)@.rc(i),
                        crate::runtime::occ(old(py)@.dict_entries(self@), i as nat),
                    )
                } else {
                    old(py)@.rc(i)
                }),
            forall|t: int|
                0 <= t < r@.len() ==> {
                    let es = old(py)@.dict_entries(self@);
                    &&& final(py)@.valid((#[trigger] r@[t]).0@)
                    &&& final(py)@.valid(r@[t].1@)
                    &&& key_of(final(py)@.value(r@[t].0@)) == Some(es[t].0)
                    &&& r@[t].1@ == es[t].1 as int
                    &&& (r@[t].0@ < 2 || (r@[t].0@ >= old(py)@.objects.len() && final(py)@.rc(
                        r@[t].0@,
                    ) == 1))
                },
    {
        let ghost pre = py@;
        let ghost es0 = py@.dict_entries(self@);
        let d = self.obj.raw_address();
        let n = py.dict_len_id(d);
        let mut out: Vec<(PyObjectPtr, PyObjectPtr)> = Vec::new();
        let mut j: usize = 0;
        while j < n
            invariant
                0 <= j <= n,
                n == es0.len(),
                py@.wf(),
                pre.wf(),
                py@.valid(self@),
                self@ == d as int,
                py@.kind(self@) == Kind::Dict,
                py@.objects.len() >= pre.objects.len(),
                py@.pending == pre.pending,
                pre.valid(self@),
                forall|i: int| pre.valid(i) ==> py@.value(i) == pre.value(i),
                es0 == py@.dict_entries(self@),
                forall|i: int|
                    pre.valid(i) ==> py@.rc(i) == (if i >= 2 {
                        crate::runtime::rc_inc_n(
                            pre.rc(i),
                            crate::runtime::occ(es0.take(j as int), i as nat),
                        )
                    } else {
                        pre.rc(i)
                    }),
                out@.len() == j,
                forall|t: int|
                    0 <= t < j ==> {
                        &&& py@.valid((#[trigger] out@[t]).0@)
                        &&& py@.valid(out@[t].1@)
                        &&& key_of(py@.value(out@[t].0@)) == Some(es0[t].0)
                        &&& out@[t].1@ == es0[t].1 as int
                        &&& (out@[t].0@ < 2 || (out@[t].0@ >= pre.objects.len() && py@.rc(
                            out@[t].0@,
                        ) == 1))
                    },
            decreases n - j,
        {
            let e = py.dict_entry_at(d, j);
            proof {
                assert(py@.obj_ok(self@));
            }
            let ghost mid0 = py@;
            let kobj = key_to_object(py, e.0);
            let ghost mid1 = py@;
            let vh = PyObjectPtr::from_borrowed(py, e.1);
            proof {
                crate::runtime::lemma_wf_same_values(mid1, py@);
                assert forall|i: int| pre.valid(i) implies py@.rc(i) == (if i >= 2 {
                    crate::runtime::rc_inc_n(
                        pre.rc(i),
                        crate::runtime::occ(es0.take(j + 1 as int), i as nat),
                    )
                } else {
                    pre.rc(i)
                }) by {
                    crate::runtime::lemma_occ_take_step(es0, j as int, i as nat);
                    assert(mid1.rc(i) == mid0.rc(i));
                }
            }
            out.push((kobj, vh));
            j += 1;
        }
        proof {
            assert(es0.take(n as int) =~= es0);
        }
        out
    }

    /// The entries as a fresh foreign list of two-element tuples, in
    /// insertion order, as `list(d.items())` would give it: each tuple
    /// holds an object carrying the key and the stored value.
    pub fn items_list(&self, py: &mut Python) -> (r: crate::list::PyList)
        requires
            old(py)@.wf(),
            old(py)@.valid(self@),
            old(py)@.kind(self@) == Kind::Dict,
        ensures
            final(py)@.wf(),
            final(py)@.objects.len() >= old(py)@.objects.len(),
            final(py)@.pending == old(py)@.pending,
            forall|i: int| old(py)@.valid(i) ==> final(py)@.value(i) == old(py)@.value(i),
            final(py)@.valid(r@),
            final(py)@.kind(r@) == Kind::List,
            r@ >= old(py)@.objects.len(),
            final(py)@.rc(r@) == 1,
            final(py)@.list_elems(r@).len() == old(py)@.dict_entries(self@).len(),
            forall|i: int|
                old(py)@.valid(i) ==> final(py)@.rc(i) == (if i >= 2 {
                    crate::runtime::rc_inc_n(
                        old(py)@.rc(i),
                        crate::runtime::occ(old(py)@.dict_entries(self@), i as nat),
                    )
                } else {
                    old(py)@.rc(i)
                }),
            forall|t: int|
                0 <= t < final(py)@.list_elems(r@).len() ==> {
                    let es = old(py)@.dict_entries(self@);
                    let p = #[trigger] final(py)@.list_elems(r@)[t] as int;
                    &&& final(py)@.valid(p)
                    &&& p >= old(py)@.objects.len()
                    &&& final(py)@.rc(p) == 1
                    &&& (match final(py)@.value(p) {
                        ObjValue::Pair(a, b) => {
                            &&& final(py)@.valid(a as int)
                            &&& key_of(final(py)@.value(a as int)) == Some(es[t].0)
                            &&& b == es[t].1
                            &&& (a < 2 || (a >= old(py)@.objects.len() && final(py)@.rc(a as int)
                                == 1))
                        },
                        _ => false,
                    })
                },
    {
        let ghost pre = py@;
        let ghost es0 = py@.dict_entries(self@);
        let d = self.obj.raw_address();
        let n = py.dict_len_id(d);
        let l = crate::list::PyList::new(py);
        let mut j: usize = 0;
        while j < n
            invariant
                0 <= j <= n,
                n == es0.len(),
                py@.wf(),
                pre.wf(),
                py@.valid(self@),
                self@ == d as int,
                py@.kind(self@) == Kind::Dict,
                py@.objects.len() >= pre.objects.len(),
                py@.pending == pre.pending,
                pre.valid(self@),
                l@ == pre.objects.len() as int,
                py@.valid(l@),
                py@.kind(l@) == Kind::List,
                py@.rc(l@) == 1,
                forall|i: int| pre.valid(i) ==> py@.value(i) == pre.value(i),
                es0 == py@.dict_entries(self@),
                py@.list_elems(l@).len() == j,
                forall|i: int|
                    pre.valid(i) ==> py@.rc(i) == (if i >= 2 {
                        crate::runtime::rc_inc_n(
                            pre.rc(i),
                            crate::runtime::occ(es0.take(j as int), i as nat),
                        )
                    } else {
                        pre.rc(i)
                    }),
                forall|t: int|
                    0 <= t < j ==> {
                        let p = #[trigger] py@.list_elems(l@)[t] as int;
                        &&& py@.valid(p)
                        &&& p > l@
                        &&& py@.rc(p) == 1
                        &&& (match py@.value(p) {
                            ObjValue::Pair(a, b) => {
                                &&& py@.valid(a as int)
                                &&& key_of(py@.value(a as int)) == Some(es0[t].0)
                                &&& b == es0[t].1
                                &&& (a < 2 || (a > l@ as nat && py@.rc(a as int) == 1))
                            },
                            _ => false,
                        })
                    },
            decreases n - j,
        {
            let e = py.dict_entry_at(d, j);
            proof {
                assert(py@.obj_ok(self@));
            }
            let ghost mid0 = py@;
            let kobj = key_to_object(py, e.0);
            let ghost mid1 = py@;
            let vh = PyObjectPtr::from_borrowed(py, e.1);
            proof {
                crate::runtime::lemma_wf_same_values(mid1, py@);
                assert forall|i: int| pre.valid(i) implies py@.rc(i) == (if i >= 2 {
                    crate::runtime::rc_inc_n(
                        pre.rc(i),
                        crate::runtime::occ(es0.take(j + 1 as int), i as nat),
                    )
                } else {
                    pre.rc(i)
                }) by {
                    crate::runtime::lemma_occ_take_step(es0, j as int, i as nat);
                    assert(mid1.rc(i) == mid0.rc(i));
                }
            }
            let t = crate::list::PyTuple::pair(py, kobj, vh);
            l.append(py, t.upcast());
            j += 1;
        }
        proof {
            assert(es0.take(n as int) =~= es0);
        }
        l
    }
}

} // verus!

use std::collections::BTreeMap;
use std::collections::HashMap;
use vstd::std_specs::cmp::OrdSpec;
use vstd::std_specs::iter::IteratorSpec;

verus! {

broadcast use vstd::std_specs::hash::group_hash_axioms, vstd::std_specs::btree::group_btree_axioms;

/// The mathematical mapping a host associative container converts to:
/// each host key becomes the key its model dictates, each host value its
/// own model.
pub open spec fn map_model<K: ToPyObject, V: ToPyObject>(m: Map<K, V>) -> Map<DictKey, ValueModel> {
    Map::new(
        |dk: DictKey|
            exists|k: K| #[trigger] m.dom().contains(k) && model_key(k.value_model()) == Some(dk),
        |dk: DictKey|
            m[choose|k: K|
                #[trigger] m.dom().contains(k) && model_key(k.value_model()) == Some(
                    dk,
                )].value_model(),
    )
}

/// A host mapping converts when every key converts to a hashable kind,
/// distinct keys convert to distinct mapping keys, and every value
/// converts. Iteration over the host container must also be covered by
/// the hash-key model of the standard library's specification.
pub open spec fn map_convertible<K: ToPyObject, V: ToPyObject>(m: Map<K, V>) -> bool {
    &&& forall|k: K|
        #[trigger] m.dom().contains(k) ==> k.convertible() && (model_key(k.value_model()) is Some)
            && m[k].convertible()
    &&& forall|k1: K, k2: K|
        #[trigger] m.dom().contains(k1) && #[trigger] m.dom().contains(k2) && model_key(
            k1.value_model(),
        ) == model_key(k2.value_model()) ==> k1 == k2
}

/// The mapping's entries follow the host enumeration `ks` position by
/// position: entry `i` carries the key that `ks[i]` converts to and a
/// value object representing the model of `m[ks[i]]`, and `ks` is
/// exactly the domain of `m`.
pub open spec fn entries_follow<K: ToPyObject, V: ToPyObject>(
    h: crate::runtime::HeapModel,
    d: int,
    ks: Seq<K>,
    m: Map<K, V>,
) -> bool {
    let es = h.dict_entries(d);
    &&& es.len() == ks.len()
    &&& ks.len() == m.dom().len()
    &&& forall|i: int| 0 <= i < ks.len() ==> m.dom().contains(#[trigger] ks[i])
    &&& forall|i: int|
        0 <= i < ks.len() ==> (#[trigger] es[i]).0 == model_key(ks[i].value_model()).unwrap()
    &&& forall|i: int|
        0 <= i < ks.len() ==> obj_models(h, (#[trigger] es[i]).1 as int, m[ks[i]].value_model())
}

/// The key the entry at position `t` of an enumeration converts to.
pub open spec fn key_at<K: ToPyObject, V>(v: Seq<(K, V)>, t: int) -> Option<DictKey> {
    model_key(v[t].0.value_model())
}

/// `v` lists entries of `m`, each exactly once, with distinct keys.
pub open spec fn entries_of<K, V>(v: Seq<(K, V)>, m: Map<K, V>) -> bool {
    &&& v.len() == m.dom().len()
    &&& forall|i: int|
        0 <= i < v.len() ==> m.contains_key((#[trigger] v[i]).0) && m[v[i].0] == v[i].1
    &&& forall|a: int, b: int|
        0 <= a < b < v.len() ==> (#[trigger] v[a]).0 != (#[trigger] v[b]).0
}

/// An entry list of the full length with distinct keys reaches every key
/// of the mapping: there are as many distinct keys as the domain holds.
proof fn lemma_entries_cover<K, V>(v: Seq<(K, V)>, m: Map<K, V>)
    requires
        entries_of(v, m),
        m.dom().finite(),
    ensures
        forall|k: K|
            #[trigger] m.dom().contains(k) ==> exists|t: int| 0 <= t < v.len() && v[t].0 == k,
{
    let ks = v.map_values(|p: (K, V)| p.0);
    assert(ks.no_duplicates()) by {
        assert forall|a: int, b: int| 0 <= a < b < ks.len() implies ks[a] != ks[b] by {
            assert(ks[a] == v[a].0 && ks[b] == v[b].0);
        }
    }
    ks.unique_seq_to_set();
    assert(ks.to_set().subset_of(m.dom())) by {
        assert forall|k: K| ks.to_set().contains(k) implies m.dom().contains(k) by {
            let i = choose|i: int| 0 <= i < ks.len() && ks[i] == k;
            assert(v[i].0 == k);
        }
    }
    vstd::set_lib::lemma_subset_equality(ks.to_set(), m.dom());
    assert forall|k: K| #[trigger] m.dom().contains(k) implies exists|t: int|
        0 <= t < v.len() && v[t].0 == k by {
        assert(ks.to_set().contains(k));
        assert(ks.contains(k));
        let t = choose|t: int| 0 <= t < ks.len() && ks[t] == k;
        assert(v[t].0 == k);
    }
}

/// A mapping filled entry by entry from an enumeration of a host
/// container represents the container's model.
proof fn lemma_map_fill_models<K: ToPyObject, V: ToPyObject>(
    h: crate::runtime::HeapModel,
    d: int,
    m: Map<K, V>,
    v: Seq<(K, V)>,
    lo: int,
)
    requires
        map_convertible(m),
        entries_of(v, m),
        m.dom().finite(),
        h.valid(d),
        d >= lo,
        h.kind(d) == Kind::Dict,
        forall|dk: DictKey|
            #[trigger] h.dict_has(d, dk) <==> (exists|t: int|
                0 <= t < v.len() && #[trigger] key_at(v, t) == Some(dk)),
        forall|t: int|
            0 <= t < v.len() ==> obj_models_above(
                h,
                h.dict_lookup(d, (#[trigger] key_at(v, t)).unwrap()) as int,
                v[t].1.value_model(),
                d + 1,
            ),
    ensures
        obj_models_above(h, d, ValueModel::Mapping(map_model(m)), lo),
{
    let mm = map_model(m);
    lemma_entries_cover(v, m);
    assert(h.dict_dom(d) =~= mm.dom()) by {
        assert forall|dk: DictKey| h.dict_dom(d).contains(dk) implies mm.dom().contains(dk) by {
            assert(h.dict_has(d, dk));
            let t = choose|t: int| 0 <= t < v.len() && #[trigger] key_at(v, t) == Some(dk);
            let k = v[t].0;
            assert(m.dom().contains(k) && model_key(k.value_model()) == Some(dk));
        }
        assert forall|dk: DictKey| mm.dom().contains(dk) implies h.dict_dom(d).contains(dk) by {
            let k = choose|k: K|
                #[trigger] m.dom().contains(k) && model_key(k.value_model()) == Some(dk);
            let t = choose|t: int| 0 <= t < v.len() && v[t].0 == k;
            assert(key_at(v, t) == Some(dk));
            assert(h.dict_has(d, dk));
        }
    }
    assert forall|dk: DictKey| mm.dom().contains(dk) implies obj_models_above(
        h,
        h.dict_lookup(d, dk) as int,
        #[trigger] mm[dk],
        lo,
    ) by {
        assert(h.dict_has(d, dk));
        let t = choose|t: int| 0 <= t < v.len() && #[trigger] key_at(v, t) == Some(dk);
        let k = v[t].0;
        assert(m.dom().contains(k) && model_key(k.value_model()) == Some(dk));
        let kc = choose|k2: K|
            #[trigger] m.dom().contains(k2) && model_key(k2.value_model()) == Some(dk);
        assert(m.dom().contains(kc) && model_key(kc.value_model()) == Some(dk));
        assert(kc == k);
        assert(mm[dk] == m[k].value_model());
        assert(m[k] == v[t].1);
        crate::conversion::lemma_above_mono(
            h,
            h.dict_lookup(d, dk) as int,
            v[t].1.value_model(),
            d + 1,
            lo,
        );
    }
}

/// Converting a host hash-based container builds an empty foreign
/// mapping and stores one entry per host entry, in the container's
/// iteration order — which for a hash-based container is unspecified.
impl<K: ToPyObject + std::cmp::Eq + std::hash::Hash, V: ToPyObject> ToPyObject for HashMap<K, V> {
    open spec fn value_model(&self) -> ValueModel {
        ValueModel::Mapping(map_model(self@))
    }

    open spec fn convertible(&self) -> bool {
        &&& vstd::std_specs::hash::obeys_key_model::<K>()
        &&& map_convertible(self@)
    }

    fn to_object(&self, py: &mut Python) -> (r: PyObjectPtr) {
        let ghost h0 = py@;
        let ghost lo = h0.objects.len() as int;
        let d = PyDict::new(py);
        let it0 = self.iter();
        let ghost git = it0;
        let ghost vi = vstd::std_specs::hash::into_iter(git);
        assert(vi.len() == self@.dom().len());
        assert(forall|i: int|
            0 <= i < vi.len() ==> self@.contains_key((#[trigger] vi[i]).0) && self@[vi[i].0]
                == vi[i].1);
        assert(vi.no_duplicates());
        proof {
            assert forall|a: int, b: int| 0 <= a < b < vi.len() implies (#[trigger] vi[a]).0 != (
            #[trigger] vi[b]).0 by {
                if vi[a].0 == vi[b].0 {
                    assert(vi[a].1 == self@[vi[a].0]);
                    assert(vi[b].1 == self@[vi[b].0]);
                }
            }
            assert(entries_of(vi, self@));
        }
        let mut w = vstd::std_specs::iter::VerusForLoopWrapper::new(it0, Ghost(None));
        loop
            invariant
                self.convertible(),
                entries_of(vi, self@),
                self@.dom().finite(),
                vi == vstd::std_specs::hash::into_iter(git),
                w.wf(),
                (w.snapshot@ == git),
                (vi == w.seq().unref()),
                w.iter.obeys_prophetic_iter_laws(),
                0 <= w.index() <= vi.len(),
                py@.wf(),
                d@ == lo,
                lo == h0.objects.len() as int,
                py@.valid(d@),
                py@.kind(d@) == Kind::Dict,
                py@.objects.len() >= h0.objects.len() + 1,
                forall|i: int|
                    h0.valid(i) ==> py@.value(i) == h0.value(i) && py@.rc(i) == h0.rc(i),
                py@.pending == h0.pending,
                forall|dk: DictKey|
                    #[trigger] py@.dict_has(d@, dk) <==> (exists|t: int|
                        0 <= t < w.index() && #[trigger] key_at(vi, t) == Some(dk)),
                forall|t: int|
                    0 <= t < w.index() ==> obj_models_above(
                        py@,
                        py@.dict_lookup(d@, (#[trigger] key_at(vi, t)).unwrap()) as int,
                        vi[t].1.value_model(),
                        d@ + 1,
                    ),
            ensures
                w.index() == vi.len(),
            decreases vi.len() - w.index(),
        {
            let nx = w.next();
            match nx {
                None => {
                    assert(w.index() == vi.len());
                    break ;
                },
                Some((k, v)) => {
                    let ghost j = w.index() - 1;
                    assert((*k, *v) == vi[j]);
                    proof {
                        assert(self@.contains_key(vi[j].0));
                    }
                    let ghost hpre = py@;
                    proof {
                        let dkj = key_at(vi, j).unwrap();
                        if hpre.dict_has(d@, dkj) {
                            let t = choose|t: int|
                                0 <= t < j && #[trigger] key_at(vi, t) == Some(dkj);
                            assert(self@.dom().contains(vi[t].0));
                            assert(self@.dom().contains(vi[j].0));
                            assert(vi[t].0 == vi[j].0);
                            assert(false);
                        }
                    }
                    let res = d.set_item(py, k, v);
                    match res {
                        Ok(_) => {},
                        Err(_) => {
                            proof {
                                assert(false);
                            }
                        },
                    }
                    proof {
                        let dkj = key_at(vi, j).unwrap();
                        let hnew = py@;
                        let es = hpre.dict_entries(d@);
                        let es1 = hnew.dict_entries(d@);
                        let vv = hnew.dict_lookup(d@, dkj);
                        assert(es1 == entries_set(es, dkj, vv));
                        assert(es1 == es.push((dkj, vv)));
                        crate::runtime::lemma_has_entry_push(es, dkj, vv);
                        assert(hpre.obj_ok(d@));
                        assert forall|dk: DictKey| #[trigger] hnew.dict_has(d@, dk) <==> (
                        exists|t: int| 0 <= t < j + 1 && #[trigger] key_at(vi, t) == Some(
                            dk,
                        )) by {
                            if hnew.dict_has(d@, dk) {
                                if dk == dkj {
                                    assert(key_at(vi, j) == Some(dk));
                                } else {
                                    assert(hpre.dict_has(d@, dk));
                                }
                            }
                            if exists|t: int| 0 <= t < j + 1 && #[trigger] key_at(vi, t)
                                == Some(dk) {
                                let t = choose|t: int|
                                    0 <= t < j + 1 && #[trigger] key_at(vi, t) == Some(dk);
                                if t < j {
                                    assert(hpre.dict_has(d@, dk));
                                    assert(crate::runtime::has_entry(es1, dk));
                                } else {
                                    assert(dk == dkj);
                                }
                            }
                        }
                        assert forall|t: int| 0 <= t < j + 1 implies obj_models_above(
                            hnew,
                            hnew.dict_lookup(d@, (#[trigger] key_at(vi, t)).unwrap()) as int,
                            vi[t].1.value_model(),
                            d@ + 1,
                        ) by {
                            if t < j {
                                let dkt = key_at(vi, t).unwrap();
                                assert(self@.dom().contains(vi[t].0));
                                if dkt == dkj {
                                    assert(vi[t].0 == vi[j].0);
                                    assert(false);
                                }
                                assert(exists|tt: int|
                                    0 <= tt < j && #[trigger] key_at(vi, tt) == Some(dkt)) by {
                                    assert(key_at(vi, t) == Some(dkt));
                                }
                                assert(hpre.dict_has(d@, dkt));
                                crate::runtime::lemma_entries_set_frame(es, dkj, vv, dkt);
                                assert(hnew.dict_lookup(d@, dkt) == hpre.dict_lookup(d@, dkt));
                                lemma_above_frame(
                                    hpre,
                                    hnew,
                                    hpre.dict_lookup(d@, dkt) as int,
                                    vi[t].1.value_model(),
                                    d@ + 1,
                                    d@,
                                );
                            } else {
                                assert(v == &vi[j].1);
                                crate::conversion::lemma_above_mono(
                                    hnew,
                                    vv as int,
                                    vi[j].1.value_model(),
                                    hpre.objects.len() as int,
                                    d@ + 1,
                                );
                            }
                        }
                    }
                },
            }
        }
        proof {
            assert(w.index() == vi.len());
            assert forall|dk: DictKey| #[trigger] py@.dict_has(d@, dk) <==> (exists|t: int|
                0 <= t < vi.len() && #[trigger] key_at(vi, t) == Some(dk)) by {}
            lemma_map_fill_models(py@, d@, self@, vi, lo);
            lemma_above_implies_models(py@, d@, ValueModel::Mapping(map_model(self@)), lo);
            assert(h0.extended_by(py@));
        }
        d.upcast()
    }
}

/// Converting a host ordered container builds an empty foreign mapping
/// and stores one entry per host entry, in the container's iteration
/// order — ascending key order, so the foreign mapping's insertion
/// order mirrors it.
impl<K: ToPyObject + std::cmp::Ord, V: ToPyObject> ToPyObject for BTreeMap<K, V> {
    open spec fn value_model(&self) -> ValueModel {
        ValueModel::Mapping(map_model(self@))
    }

    open spec fn convertible(&self) -> bool {
        &&& vstd::std_specs::btree::key_obeys_cmp_spec::<K>()
        &&& map_convertible(self@)
    }

    fn to_object(&self, py: &mut Python) -> (r: PyObjectPtr)
        ensures
            (exists|ks: Seq<K>|
                vstd::std_specs::btree::increasing_seq(ks) && entries_follow(
                    final(py)@,
                    r@,
                    ks,
                    self@,
                )),
    {
        btree_to_object(self, py)
    }
}

/// The ordered-container conversion behind `BTreeMap`'s borrow-convert:
/// one entry is stored per host entry, in the container's iteration
/// order, which is ascending key order — so the produced mapping's
/// insertion order mirrors the source's key order, stated by the
/// `entries_follow` clause over an increasing enumeration of the keys.
pub fn btree_to_object<'m, K: ToPyObject + std::cmp::Ord + 'm, V: ToPyObject + 'm>(
    m: &'m BTreeMap<K, V>,
    py: &mut Python,
) -> (r: PyObjectPtr)
    requires
        old(py)@.wf(),
        vstd::std_specs::btree::key_obeys_cmp_spec::<K>(),
        map_convertible(m@),
    ensures
        final(py)@.wf(),
        (old(py)@.extended_by(final(py)@)),
        obj_models(final(py)@, r@, ValueModel::Mapping(map_model(m@))),
        obj_models_above(
            final(py)@,
            r@,
            ValueModel::Mapping(map_model(m@)),
            old(py)@.objects.len() as int,
        ),
        r@ < 2 || r@ >= old(py)@.objects.len(),
        (exists|ks: Seq<K>|
            vstd::std_specs::btree::increasing_seq(ks) && entries_follow(
                final(py)@,
                r@,
                ks,
                m@,
            )),
{
        let ghost h0 = py@;
        let ghost lo = h0.objects.len() as int;
        let d = PyDict::new(py);
        let it0 = m.iter();
        let ghost git = it0;
        let ghost vi = vstd::std_specs::btree::into_iter(git);
        assert(vi.len() == m@.dom().len());
        assert(forall|i: int|
            0 <= i < vi.len() ==> m@.contains_key((#[trigger] vi[i]).0) && m@[vi[i].0]
                == vi[i].1);
        assert(vi.no_duplicates());
        proof {
            assert forall|a: int, b: int| 0 <= a < b < vi.len() implies (#[trigger] vi[a]).0 != (
            #[trigger] vi[b]).0 by {
                if vi[a].0 == vi[b].0 {
                    assert(vi[a].1 == m@[vi[a].0]);
                    assert(vi[b].1 == m@[vi[b].0]);
                }
            }
            assert(entries_of(vi, m@));
        }
        let ghost kseq = vi.map_values(|p: (K, V)| p.0);
        let ghost mut j0: int = 0;
        for kv in it: it0
            invariant
                j0 == it.index(),
                vstd::std_specs::btree::key_obeys_cmp_spec::<K>(),
                map_convertible(m@),
                entries_of(vi, m@),
                m@.dom().finite(),
                (it.snapshot@ == git),
                vi == vstd::std_specs::btree::into_iter(git),
                (kseq == vi.map_values(|p: (K, V)| p.0)),
                (vstd::std_specs::btree::increasing_seq(
                    it.seq().map_values(|kv: (&K, &V)| *kv.0),
                )),
                (kseq =~= it.seq().map_values(|kv: (&K, &V)| *kv.0)),
                0 <= it.index() <= vi.len(),
                (vi == it.seq().unref()),
                py@.wf(),
                d@ == lo,
                lo == h0.objects.len() as int,
                py@.valid(d@),
                py@.kind(d@) == Kind::Dict,
                py@.objects.len() >= h0.objects.len() + 1,
                forall|i: int|
                    h0.valid(i) ==> py@.value(i) == h0.value(i) && py@.rc(i) == h0.rc(i),
                py@.pending == h0.pending,
                py@.dict_entries(d@).len() == j0,
                forall|t: int|
                    0 <= t < j0 ==> (#[trigger] py@.dict_entries(d@)[t]).0 == key_at(
                        vi,
                        t,
                    ).unwrap(),
                forall|dk: DictKey|
                    #[trigger] py@.dict_has(d@, dk) <==> (exists|t: int|
                        0 <= t < it.index() && #[trigger] key_at(vi, t) == Some(dk)),
                forall|t: int|
                    0 <= t < it.index() ==> obj_models_above(
                        py@,
                        py@.dict_lookup(d@, (#[trigger] key_at(vi, t)).unwrap()) as int,
                        vi[t].1.value_model(),
                        d@ + 1,
                    ),
        {
            let (k, v) = kv;
            let ghost j = it.index();
            assert((*k, *v) == vi[j]);
            proof {
                assert(m@.contains_key(vi[j].0));
            }
            let ghost hpre = py@;
            proof {
                let dkj = key_at(vi, j).unwrap();
                if hpre.dict_has(d@, dkj) {
                    let t = choose|t: int| 0 <= t < j && #[trigger] key_at(vi, t) == Some(dkj);
                    assert(m@.dom().contains(vi[t].0));
                    assert(m@.dom().contains(vi[j].0));
                    assert(vi[t].0 == vi[j].0);
                    assert(false);
                }
            }
            let res = d.set_item(py, k, v);
            match res {
                Ok(_) => {},
                Err(_) => {
                    proof {
                        assert(false);
                    }
                },
            }
            proof {
                let dkj = key_at(vi, j).unwrap();
                let hnew = py@;
                let es = hpre.dict_entries(d@);
                let es1 = hnew.dict_entries(d@);
                let vv = hnew.dict_lookup(d@, dkj);
                assert(es1 == entries_set(es, dkj, vv));
                assert(es1 == es.push((dkj, vv)));
                crate::runtime::lemma_has_entry_push(es, dkj, vv);
                assert(hpre.obj_ok(d@));
                assert forall|dk: DictKey| #[trigger] hnew.dict_has(d@, dk) <==> (exists|t: int|
                    0 <= t < j + 1 && #[trigger] key_at(vi, t) == Some(dk)) by {
                    if hnew.dict_has(d@, dk) {
                        if dk == dkj {
                            assert(key_at(vi, j) == Some(dk));
                        } else {
                            assert(hpre.dict_has(d@, dk));
                        }
                    }
                    if exists|t: int| 0 <= t < j + 1 && #[trigger] key_at(vi, t) == Some(dk) {
                        let t = choose|t: int| 0 <= t < j + 1 && #[trigger] key_at(vi, t) == Some(
                            dk,
                        );
                        if t < j {
                            assert(hpre.dict_has(d@, dk));
                            assert(crate::runtime::has_entry(es1, dk));
                        } else {
                            assert(dk == dkj);
                        }
                    }
                }
                assert forall|t: int| 0 <= t < j + 1 implies obj_models_above(
                    hnew,
                    hnew.dict_lookup(d@, (#[trigger] key_at(vi, t)).unwrap()) as int,
                    vi[t].1.value_model(),
                    d@ + 1,
                ) by {
                    if t < j {
                        let dkt = key_at(vi, t).unwrap();
                        assert(m@.dom().contains(vi[t].0));
                        if dkt == dkj {
                            assert(vi[t].0 == vi[j].0);
                            assert(false);
                        }
                        assert(exists|tt: int|
                            0 <= tt < j && #[trigger] key_at(vi, tt) == Some(dkt)) by {
                            assert(key_at(vi, t) == Some(dkt));
                        }
                        assert(hpre.dict_has(d@, dkt));
                        crate::runtime::lemma_entries_set_frame(es, dkj, vv, dkt);
                        assert(hnew.dict_lookup(d@, dkt) == hpre.dict_lookup(d@, dkt));
                        lemma_above_frame(
                            hpre,
                            hnew,
                            hpre.dict_lookup(d@, dkt) as int,
                            vi[t].1.value_model(),
                            d@ + 1,
                            d@,
                        );
                    } else {
                        assert(v == &vi[j].1);
                        crate::conversion::lemma_above_mono(
                            hnew,
                            vv as int,
                            vi[j].1.value_model(),
                            hpre.objects.len() as int,
                            d@ + 1,
                        );
                    }
                }
                j0 = j + 1;
            }
        }
        assert(j0 == vi.len());
        proof {
            assert forall|dk: DictKey| #[trigger] py@.dict_has(d@, dk) <==> (exists|t: int|
                0 <= t < vi.len() && #[trigger] key_at(vi, t) == Some(dk)) by {}
            lemma_map_fill_models(py@, d@, m@, vi, lo);
            lemma_above_implies_models(py@, d@, ValueModel::Mapping(map_model(m@)), lo);
            assert(h0.extended_by(py@));
            assert(vstd::std_specs::btree::increasing_seq(kseq));
            let hf = py@;
            let es = hf.dict_entries(d@);
            assert(hf.obj_ok(d@));
            assert forall|t: int| 0 <= t < kseq.len() implies obj_models(
                hf,
                (#[trigger] es[t]).1 as int,
                m@[kseq[t]].value_model(),
            ) by {
                let dkt = key_at(vi, t).unwrap();
                assert(es[t].0 == dkt);
                let w = crate::runtime::key_index(es, dkt);
                assert(crate::runtime::has_entry(es, dkt));
                assert(0 <= w < es.len() && es[w].0 == dkt);
                assert(w == t);
                assert(hf.dict_lookup(d@, dkt) == es[t].1);
                lemma_above_implies_models(hf, es[t].1 as int, vi[t].1.value_model(), d@ + 1);
                assert(m@[vi[t].0] == vi[t].1);
                assert(kseq[t] == vi[t].0);
            }
            assert(entries_follow(hf, d@, kseq, m@));
        }
        d.upcast()
}

/// The mapping round trip: storing value `v` under key `k` in a fresh
/// mapping yields a mapping of one entry that contains `k`, whose stored
/// object extracts back to `v`, and in which any other key is absent.
pub fn dict_round_trip(py: &mut Python, k: i32, v: i32, absent: i32) -> (r: (usize, bool, i32, bool))
    requires
        old(py)@.wf(),
        absent != k,
    ensures
        r.0 == 1,
        r.1 == true,
        r.2 == v,
        r.3 == false,
        final(py)@.wf(),
{
    let d = PyDict::new(py);
    let res = d.set_item(py, k, v);
    match res {
        Ok(_) => {},
        Err(_) => {
            proof {
                assert(false);
            }
        },
    }
    let n = d.len(py);
    let c = match d.contains(py, k) {
        Ok(b) => b,
        Err(_) => unreached(),
    };
    let got = match d.get_item(py, k) {
        Ok(Some(h)) => h,
        _ => unreached(),
    };
    let back = match got.extract::<i32>(py) {
        Ok(x) => x,
        Err(_) => unreached(),
    };
    let miss = match d.get_item(py, absent) {
        Ok(m) => m,
        Err(_) => unreached(),
    };
    proof {
        assert(DictKey::Int(absent as i64) != DictKey::Int(k as i64));
    }
    (n, c, back, miss.is_some())
}

/// Deletion: deleting a present key succeeds and leaves the mapping
/// without it — the entry count drops to zero and lookup finds nothing —
/// while deleting an absent key is a foreign `KeyError`.
pub fn dict_delete_behaviour(py: &mut Python, k: i32, v: i32) -> (r: (usize, bool))
    requires
        old(py)@.wf(),
    ensures
        r.0 == 0,
        r.1 == false,
        final(py)@.wf(),
{
    let d = PyDict::new(py);
    let res = d.set_item(py, k, v);
    match res {
        Ok(_) => {},
        Err(_) => {
            proof {
                assert(false);
            }
        },
    }
    let r1 = d.del_item(py, k);
    match r1 {
        Ok(_) => {},
        Err(_) => {
            proof {
                assert(false);
            }
        },
    }
    let n = d.len(py);
    let miss = match d.get_item(py, k) {
        Ok(m) => m,
        Err(_) => unreached(),
    };
    let r2 = d.del_item(py, k);
    proof {
        assert(r2 == PyResult::<()>::Err(PyErr::Foreign(ExcKind::KeyError)));
    }
    (n, miss.is_some())
}

/// Releasing everything an enumeration handed out restores every
/// pre-existing object's reference count: the returned handles owned
/// exactly the references [`PyDict::items`] took, so nothing is leaked
/// and nothing is freed early. The one exclusion is a count that the
/// enumeration would push past the top of the counter, where the
/// increments saturate.
pub fn items_release_restores_counts(py: &mut Python, d: &PyDict)
    requires
        old(py)@.wf(),
        old(py)@.valid(d@),
        old(py)@.kind(d@) == Kind::Dict,
        forall|i: int|
            old(py)@.valid(i) && i >= 2 ==> old(py)@.rc(i) + crate::runtime::occ(
                old(py)@.dict_entries(d@),
                i as nat,
            ) <= u64::MAX,
    ensures
        final(py)@.wf(),
        forall|i: int| old(py)@.valid(i) ==> final(py)@.rc(i) == old(py)@.rc(i),
        forall|i: int| old(py)@.valid(i) ==> final(py)@.value(i) == old(py)@.value(i),
        final(py)@.pending == old(py)@.pending,
{
    let ghost pre = py@;
    let ghost es0 = py@.dict_entries(d@);
    let mut pairs = d.items(py);
    let ghost n = es0.len() as int;
    proof {
        assert(es0.take(n) =~= es0);
        assert forall|i: int| pre.valid(i) && i >= 2 implies py@.rc(i) == pre.rc(i)
            + crate::runtime::occ(es0, i as nat) by {}
    }
    loop
        invariant
            py@.wf(),
            pre.wf(),
            py@.objects.len() >= pre.objects.len(),
            py@.pending == pre.pending,
            forall|i: int| pre.valid(i) ==> py@.value(i) == pre.value(i),
            pairs@.len() <= n,
            n == es0.len(),
            forall|i: int|
                pre.valid(i) && i >= 2 ==> pre.rc(i) + crate::runtime::occ(es0, i as nat)
                    <= u64::MAX,
            forall|t: int|
                0 <= t < pairs@.len() ==> {
                    &&& py@.valid((#[trigger] pairs@[t]).0@)
                    &&& py@.valid(pairs@[t].1@)
                    &&& pairs@[t].1@ == es0[t].1 as int
                    &&& (pairs@[t].0@ < 2 || pairs@[t].0@ >= pre.objects.len())
                },
            forall|i: int|
                pre.valid(i) ==> py@.rc(i) == (if i >= 2 {
                    (pre.rc(i) + crate::runtime::occ(
                        es0.take(pairs@.len() as int),
                        i as nat,
                    )) as nat
                } else {
                    pre.rc(i)
                }),
        ensures
            pairs@.len() == 0,
        decreases pairs@.len(),
    {
        let nxt = pairs.pop();
        match nxt {
            None => {
                break ;
            },
            Some((kh, vh)) => {
                let ghost j = pairs@.len() as int;
                let ghost mid = py@;
                kh.release(py);
                let ghost mid2 = py@;
                vh.release(py);
                proof {
                    crate::runtime::lemma_wf_same_values(mid, py@);
                    assert forall|i: int| pre.valid(i) implies py@.rc(i) == (if i >= 2 {
                        (pre.rc(i) + crate::runtime::occ(es0.take(j), i as nat)) as nat
                    } else {
                        pre.rc(i)
                    }) by {
                        crate::runtime::lemma_occ_take_step(es0, j, i as nat);
                        if kh@ >= 2 {
                            assert(i != kh@);
                            assert(mid2.rc(i) == mid.rc(i));
                        } else {
                            assert(mid2.rc(i) == mid.rc(i));
                        }
                        if i >= 2 {
                            crate::runtime::lemma_occ_take_le(es0, j + 1, i as nat);
                            assert(pre.rc(i) + crate::runtime::occ(es0.take(j + 1), i as nat)
                                <= u64::MAX);
                        }
                    }
                }
            },
        }
    }
    proof {
        assert(es0.take(0) =~= Seq::<(DictKey, nat)>::empty());
        assert forall|i: int| pre.valid(i) implies py@.rc(i) == pre.rc(i) by {}
    }
}

} // verus!
