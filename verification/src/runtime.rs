//! A model of the foreign runtime: a heap of reference-counted objects
//! guarded by a single global exclusivity lock.
//!
//! A [`Python`] value owns the model heap, so holding `&mut Python` is
//! possession of the global lock: no operation can touch the foreign heap
//! without it, and only one holder can exist at a time. The heap is a table
//! of objects addressed by index; the two boolean singletons sit at fixed
//! addresses and are immortal (their reference count never moves). The
//! runtime never reuses an address, so an address stays valid once issued;
//! an object whose count has reached zero is garbage that no well-behaved
//! client touches again.
//!
//! Failures follow the foreign calling convention: a primitive that fails
//! returns a sentinel status (`-1`) after recording a pending exception,
//! which [`crate::err::PyErr::fetch`] retrieves and clears.

use vstd::prelude::*;

verus! {

/// One foreign object kind, as reported by the runtime's type checks.
#[derive(Clone, Copy, PartialEq, Eq, Structural, Debug)]
pub enum Kind {
    Bool,
    Int,
    Dict,
    List,
    Tuple,
}

/// The pending-exception categories the model runtime can raise.
#[derive(Clone, Copy, PartialEq, Eq, Structural, Debug)]
pub enum ExcKind {
    /// A mapping operation named a key that is absent.
    KeyError,
    /// An object of an unhashable kind was used as a mapping key.
    TypeError,
    /// An integer does not fit the requested host width.
    OverflowError,
}

/// A hashable key value as a mapping stores it. The runtime compares keys
/// by value, so entries carry the key's value rather than an address.
#[derive(Clone, Copy, PartialEq, Eq, Structural, Debug)]
pub enum DictKey {
    Bool(bool),
    Int(i64),
}

/// The mathematical value of one foreign object. Container members are
/// heap addresses (`nat`), not nested values: the heap itself is the
/// ground truth for what an address holds.
#[verifier::ext_equal]
pub enum ObjValue {
    Bool(bool),
    Int(int),
    Dict(Seq<(DictKey, nat)>),
    List(Seq<nat>),
    Pair(nat, nat),
}

/// The mathematical state of one heap slot.
#[verifier::ext_equal]
pub struct ObjModel {
    pub rc: nat,
    pub value: ObjValue,
}

/// The mathematical state of the runtime: every object and the pending
/// exception, if one was raised and not yet fetched.
#[verifier::ext_equal]
pub struct HeapModel {
    pub objects: Seq<ObjModel>,
    pub pending: Option<ExcKind>,
}

/// Address of the boolean singleton for `b`.
pub open spec fn bool_id(b: bool) -> int {
    if b {
        1
    } else {
        0
    }
}

/// The key value a mapping would store for an object of value `v`, or
/// `None` if that kind is unhashable.
pub open spec fn key_of(v: ObjValue) -> Option<DictKey> {
    match v {
        ObjValue::Bool(b) => Some(DictKey::Bool(b)),
        ObjValue::Int(i) => if i64::MIN <= i <= i64::MAX {
            Some(DictKey::Int(i as i64))
        } else {
            None
        },
        _ => None,
    }
}

/// A reference-count increment, saturating at the top of the counter.
pub open spec fn rc_inc(rc: nat) -> nat {
    if rc < u64::MAX {
        (rc + 1) as nat
    } else {
        rc
    }
}

/// A reference-count decrement, never moving below zero.
pub open spec fn rc_dec(rc: nat) -> nat {
    if rc > 0 {
        (rc - 1) as nat
    } else {
        0
    }
}

/// No two entries of a mapping carry the same key.
pub open spec fn entry_keys_unique(es: Seq<(DictKey, nat)>) -> bool {
    forall|i: int, j: int| 0 <= i < j < es.len() ==> es[i].0 != es[j].0
}

/// The index of the entry carrying `key`, meaningful when one exists.
pub open spec fn key_index(es: Seq<(DictKey, nat)>, key: DictKey) -> int {
    choose|i: int| 0 <= i < es.len() && es[i].0 == key
}

/// Whether some entry carries `key`.
pub open spec fn has_entry(es: Seq<(DictKey, nat)>, key: DictKey) -> bool {
    exists|i: int| 0 <= i < es.len() && es[i].0 == key
}

/// The entry sequence after storing `key -> val`: an existing entry for
/// `key` is overwritten in place (its position is kept), a new key is
/// appended, so insertion order is preserved.
pub open spec fn entries_set(es: Seq<(DictKey, nat)>, key: DictKey, val: nat) -> Seq<
    (DictKey, nat),
> {
    if has_entry(es, key) {
        es.update(key_index(es, key), (key, val))
    } else {
        es.push((key, val))
    }
}

/// The entry sequence after deleting `key`, meaningful when present.
pub open spec fn entries_del(es: Seq<(DictKey, nat)>, key: DictKey) -> Seq<(DictKey, nat)> {
    es.remove(key_index(es, key))
}

/// How many entries store address `id` as their value.
pub open spec fn occ(es: Seq<(DictKey, nat)>, id: nat) -> nat
    decreases es.len(),
{
    if es.len() == 0 {
        0
    } else {
        occ(es.drop_last(), id) + (if es.last().1 == id {
            1nat
        } else {
            0nat
        })
    }
}

impl HeapModel {
    /// `id` is an address the runtime has issued.
    pub open spec fn valid(self, id: int) -> bool {
        0 <= id < self.objects.len()
    }

    pub open spec fn rc(self, id: int) -> nat {
        self.objects[id].rc
    }

    pub open spec fn value(self, id: int) -> ObjValue {
        self.objects[id].value
    }

    pub open spec fn kind(self, id: int) -> Kind {
        match self.value(id) {
            ObjValue::Bool(_) => Kind::Bool,
            ObjValue::Int(_) => Kind::Int,
            ObjValue::Dict(_) => Kind::Dict,
            ObjValue::List(_) => Kind::List,
            ObjValue::Pair(_, _) => Kind::Tuple,
        }
    }

    /// The entry sequence of the mapping at `id`, in insertion order.
    pub open spec fn dict_entries(self, id: int) -> Seq<(DictKey, nat)> {
        match self.value(id) {
            ObjValue::Dict(es) => es,
            _ => Seq::empty(),
        }
    }

    pub open spec fn dict_has(self, id: int, key: DictKey) -> bool {
        has_entry(self.dict_entries(id), key)
    }

    /// The value address stored under `key`, meaningful when present.
    pub open spec fn dict_lookup(self, id: int, key: DictKey) -> nat {
        self.dict_entries(id)[key_index(self.dict_entries(id), key)].1
    }

    /// The set of keys of the mapping at `id`.
    pub open spec fn dict_dom(self, id: int) -> Set<DictKey> {
        Set::new(|k: DictKey| self.dict_has(id, k))
    }

    pub open spec fn list_elems(self, id: int) -> Seq<nat> {
        match self.value(id) {
            ObjValue::List(s) => s,
            _ => Seq::empty(),
        }
    }

    /// Heap `self` updated so the slot at `id` has count `rc`.
    pub open spec fn with_rc(self, id: int, rc: nat) -> HeapModel {
        HeapModel {
            objects: self.objects.update(id, ObjModel { rc, value: self.value(id) }),
            ..self
        }
    }

    /// Heap `self` updated so the slot at `id` holds `value`.
    pub open spec fn with_value(self, id: int, value: ObjValue) -> HeapModel {
        HeapModel {
            objects: self.objects.update(id, ObjModel { rc: self.rc(id), value }),
            ..self
        }
    }

    pub open spec fn with_pending(self, exc: ExcKind) -> HeapModel {
        HeapModel { pending: Some(exc), ..self }
    }

    /// Heap `self` with a fresh object of value `value` and count 1
    /// appended at address `self.objects.len()`.
    pub open spec fn with_new(self, value: ObjValue) -> HeapModel {
        HeapModel { objects: self.objects.push(ObjModel { rc: 1, value }), ..self }
    }

    /// One object is structurally sound: container members are issued
    /// addresses, mapping keys are unique, integers fit the foreign
    /// integer representation, and booleans exist only as the two
    /// singletons.
    pub open spec fn obj_ok(self, id: int) -> bool {
        match self.value(id) {
            ObjValue::Bool(b) => id == bool_id(b),
            ObjValue::Int(i) => i64::MIN <= i <= i64::MAX,
            ObjValue::Dict(es) => {
                &&& entry_keys_unique(es)
                &&& forall|j: int| 0 <= j < es.len() ==> self.valid(#[trigger] es[j].1 as int)
            },
            ObjValue::List(s) => forall|j: int|
                0 <= j < s.len() ==> self.valid(#[trigger] s[j] as int),
            ObjValue::Pair(a, b) => self.valid(a as int) && self.valid(b as int),
        }
    }

    /// The runtime's structural invariant: the two boolean singletons sit
    /// at their fixed addresses and every object is structurally sound.
    pub open spec fn wf(self) -> bool {
        &&& self.objects.len() >= 2
        &&& self.value(0) == ObjValue::Bool(false)
        &&& self.value(1) == ObjValue::Bool(true)
        &&& forall|id: int| self.valid(id) ==> self.obj_ok(id)
    }

    /// `post` has every object of `self`, with value and count intact;
    /// new objects may have been appended and no exception was raised or
    /// cleared. This is what any conversion to a foreign object leaves
    /// behind: existing objects are untouched.
    pub open spec fn extended_by(self, post: HeapModel) -> bool {
        &&& post.objects.len() >= self.objects.len()
        &&& forall|id: int| self.valid(id) ==> post.value(id) == self.value(id)
        &&& forall|id: int| self.valid(id) ==> post.rc(id) == self.rc(id)
        &&& post.pending == self.pending
    }

}

/// Exec representation of a mapping entry.
#[derive(Clone, Copy)]
pub(crate) struct DictEntry {
    pub(crate) key: DictKey,
    pub(crate) val: usize,
}

/// Exec representation of one object's payload.
pub(crate) enum ObjRepr {
    Bool(bool),
    Int(i64),
    Dict(Vec<DictEntry>),
    List(Vec<usize>),
    Pair(usize, usize),
}

/// Exec representation of one heap slot.
pub(crate) struct Obj {
    pub(crate) rc: u64,
    pub(crate) repr: ObjRepr,
}

impl Obj {
    pub(crate) open spec fn model(self) -> ObjModel {
        ObjModel {
            rc: self.rc as nat,
            value: match self.repr {
                ObjRepr::Bool(b) => ObjValue::Bool(b),
                ObjRepr::Int(i) => ObjValue::Int(i as int),
                ObjRepr::Dict(es) => ObjValue::Dict(
                    es@.map_values(|e: DictEntry| (e.key, e.val as nat)),
                ),
                ObjRepr::List(s) => ObjValue::List(s@.map_values(|x: usize| x as nat)),
                ObjRepr::Pair(a, b) => ObjValue::Pair(a as nat, b as nat),
            },
        }
    }
}

/// Possession of the foreign runtime's global lock, together with the
/// state it protects. Everything that touches the foreign heap takes a
/// `Python` reference, so the borrow checker enforces the lock discipline:
/// there is no path to the heap without the token in scope.
pub struct Python {
    heap: Vec<Obj>,
    pending: Option<ExcKind>,
}

impl View for Python {
    type V = HeapModel;

    closed spec fn view(&self) -> HeapModel {
        HeapModel {
            objects: self.heap@.map_values(|o: Obj| o.model()),
            pending: self.pending,
        }
    }
}

impl Python {
    /// Acquire the global lock, blocking until it is held, and hand back
    /// the token for the protected runtime. In the model the runtime
    /// starts fresh: only the two boolean singletons exist and no
    /// exception is pending.
    pub fn acquire() -> (py: Python)
        ensures
            py@.wf(),
            py@.objects.len() == 2,
            (py@.pending is None),
            py@.rc(0) == u64::MAX as nat,
            py@.rc(1) == u64::MAX as nat,
    {
        let heap: Vec<Obj> = vec![
            Obj { rc: u64::MAX, repr: ObjRepr::Bool(false) },
            Obj { rc: u64::MAX, repr: ObjRepr::Bool(true) },
        ];
        let py = Python { heap, pending: None };
        proof {
            assert forall|id: int| py@.valid(id) implies py@.obj_ok(id) by {
                assert(py@.objects[0] == py.heap@[0].model());
                assert(py@.objects[1] == py.heap@[1].model());
            }
        }
        py
    }

    /// The current reference count of the object at `id`.
    pub fn refcount(&self, id: usize) -> (rc: u64)
        requires
            self@.valid(id as int),
        ensures
            rc as nat == self@.rc(id as int),
    {
        self.heap[id].rc
    }

    /// Whether the two addresses hold the same foreign object.
    pub fn same_object(&self, a: usize, b: usize) -> (r: bool)
        ensures
            r == (a == b),
    {
        a == b
    }

    /// Increment the reference count of the object at `id`. The boolean
    /// singletons are immortal: their count never moves. A mortal count
    /// saturates at the top of the counter rather than overflowing.
    pub fn incref(&mut self, id: usize)
        requires
            old(self)@.valid(id as int),
        ensures
            final(self)@ == if id < 2 {
                old(self)@
            } else {
                old(self)@.with_rc(id as int, rc_inc(old(self)@.rc(id as int)))
            },
    {
        if id >= 2 {
            let rc = self.heap[id].rc;
            if rc < u64::MAX {
                self.heap[id].rc = rc + 1;
            }
            proof {
                lemma_post_rc_update(*old(self), *self, id as int);
            }
        } else {
            proof {
                assert(final(self)@ =~= old(self)@);
            }
        }
    }

    /// Decrement the reference count of the object at `id`; the boolean
    /// singletons are immortal and a count never moves below zero. An
    /// object whose count reaches zero is garbage: the runtime reclaims
    /// it, and in the model its address simply goes stale.
    pub fn decref(&mut self, id: usize)
        requires
            old(self)@.valid(id as int),
        ensures
            final(self)@ == if id < 2 {
                old(self)@
            } else {
                old(self)@.with_rc(id as int, rc_dec(old(self)@.rc(id as int)))
            },
    {
        if id >= 2 {
            let rc = self.heap[id].rc;
            if rc > 0 {
                self.heap[id].rc = rc - 1;
            }
            proof {
                lemma_post_rc_update(*old(self), *self, id as int);
            }
        } else {
            proof {
                assert(final(self)@ =~= old(self)@);
            }
        }
    }

    /// Address of the boolean singleton for `val`.
    pub fn bool_object(&self, val: bool) -> (id: usize)
        requires
            self@.wf(),
        ensures
            id as int == bool_id(val),
            self@.valid(id as int),
            self@.value(id as int) == ObjValue::Bool(val),
    {
        if val {
            1
        } else {
            0
        }
    }

    /// The runtime's type check: the kind of the object at `id`.
    pub fn kind_of(&self, id: usize) -> (k: Kind)
        requires
            self@.valid(id as int),
        ensures
            k == self@.kind(id as int),
    {
        match &self.heap[id].repr {
            ObjRepr::Bool(_) => Kind::Bool,
            ObjRepr::Int(_) => Kind::Int,
            ObjRepr::Dict(_) => Kind::Dict,
            ObjRepr::List(_) => Kind::List,
            ObjRepr::Pair(_, _) => Kind::Tuple,
        }
    }

    /// Allocate a fresh integer object with count 1.
    pub fn int_new(&mut self, val: i64) -> (id: usize)
        requires
            old(self)@.wf(),
        ensures
            final(self)@ == old(self)@.with_new(ObjValue::Int(val as int)),
            id as int == old(self)@.objects.len(),
            final(self)@.wf(),
    {
        let id = self.heap.len();
        self.heap.push(Obj { rc: 1, repr: ObjRepr::Int(val) });
        proof {
            lemma_post_push(*old(self), *self, ObjValue::Int(val as int));
            lemma_wf_new(old(self)@, ObjValue::Int(val as int));
        }
        id
    }

    /// The payload of the integer object at `id`.
    pub fn int_value(&self, id: usize) -> (val: i64)
        requires
            self@.valid(id as int),
            self@.kind(id as int) == Kind::Int,
        ensures
            self@.value(id as int) == ObjValue::Int(val as int),
    {
        match &self.heap[id].repr {
            ObjRepr::Int(i) => *i,
            _ => unreached(),
        }
    }

    /// Retrieve and clear the pending exception; callable only after a
    /// primitive signalled failure through its sentinel return.
    pub fn take_pending(&mut self) -> (exc: ExcKind)
        requires
            (old(self)@.pending is Some),
        ensures
            (final(self)@ == HeapModel { pending: None, ..old(self)@ }),
            Some(exc) == old(self)@.pending,
    {
        let exc = match self.pending {
            Some(e) => e,
            None => unreached(),
        };
        self.pending = None;
        exc
    }
}

impl Python {
    /// Record a pending exception; the caller returns the sentinel status.
    fn set_pending(&mut self, exc: ExcKind)
        ensures
            final(self)@ == old(self)@.with_pending(exc),
    {
        self.pending = Some(exc);
        proof {
            assert(final(self)@ =~= old(self)@.with_pending(exc));
        }
    }

    /// The key value the mapping machinery would store for the object at
    /// `k`, or `None` if its kind is unhashable.
    fn key_for(&self, k: usize) -> (r: Option<DictKey>)
        requires
            self@.wf(),
            self@.valid(k as int),
        ensures
            r == key_of(self@.value(k as int)),
    {
        proof {
            assert(self@.obj_ok(k as int));
        }
        match &self.heap[k].repr {
            ObjRepr::Bool(b) => Some(DictKey::Bool(*b)),
            ObjRepr::Int(i) => Some(DictKey::Int(*i)),
            _ => None,
        }
    }

    /// Allocate a fresh empty mapping with count 1.
    pub fn dict_new(&mut self) -> (id: usize)
        requires
            old(self)@.wf(),
        ensures
            (final(self)@ == old(self)@.with_new(ObjValue::Dict(Seq::empty()))),
            id as int == old(self)@.objects.len(),
            final(self)@.wf(),
    {
        let id = self.heap.len();
        self.heap.push(Obj { rc: 1, repr: ObjRepr::Dict(Vec::new()) });
        proof {
            assert(self.heap@.last().model().value =~= ObjValue::Dict(Seq::empty()));
            lemma_post_push(*old(self), *self, ObjValue::Dict(Seq::empty()));
            lemma_wf_new(old(self)@, ObjValue::Dict(Seq::empty()));
        }
        id
    }

    /// The number of entries of the mapping at `d`.
    pub fn dict_len_id(&self, d: usize) -> (n: usize)
        requires
            self@.valid(d as int),
            self@.kind(d as int) == Kind::Dict,
        ensures
            n as nat == self@.dict_entries(d as int).len(),
    {
        match &self.heap[d].repr {
            ObjRepr::Dict(es) => es.len(),
            _ => unreached(),
        }
    }

    /// The entry at position `i` of the mapping at `d`, in insertion order.
    pub fn dict_entry_at(&self, d: usize, i: usize) -> (r: (DictKey, usize))
        requires
            self@.valid(d as int),
            self@.kind(d as int) == Kind::Dict,
            (i as int) < self@.dict_entries(d as int).len(),
        ensures
            (r.0, r.1 as nat) == self@.dict_entries(d as int)[i as int],
    {
        match &self.heap[d].repr {
            ObjRepr::Dict(es) => {
                let e = es[i];
                (e.key, e.val)
            },
            _ => unreached(),
        }
    }

    /// The position of the entry carrying `key`, if one exists.
    fn dict_find(&self, d: usize, key: DictKey) -> (r: Option<usize>)
        requires
            self@.wf(),
            self@.valid(d as int),
            self@.kind(d as int) == Kind::Dict,
        ensures
            ({
                let es = self@.dict_entries(d as int);
                match r {
                    Some(i) => {
                        &&& has_entry(es, key)
                        &&& key_index(es, key) == i as int
                        &&& (i as int) < es.len()
                        &&& es[i as int].0 == key
                    },
                    None => !has_entry(es, key),
                }
            }),
    {
        proof {
            assert(self@.obj_ok(d as int));
        }
        match &self.heap[d].repr {
            ObjRepr::Dict(es) => {
                let ghost ges = self@.dict_entries(d as int);
                let n = es.len();
                let mut i: usize = 0;
                while i < n
                    invariant
                        n == ges.len(),
                        n == es@.len(),
                        0 <= i <= n,
                        self@.valid(d as int),
                        self@.kind(d as int) == Kind::Dict,
                        ges == self@.dict_entries(d as int),
                        entry_keys_unique(ges),
                        (es@.map_values(|e: DictEntry| (e.key, e.val as nat)) == ges),
                        forall|j: int| 0 <= j < i ==> ges[j].0 != key,
                    decreases n - i,
                {
                    if es[i].key == key {
                        proof {
                            assert(ges[i as int].0 == key);
                            let w = key_index(ges, key);
                            assert(0 <= w < ges.len() && ges[w].0 == key);
                            assert(w == i as int);
                        }
                        return Some(i);
                    }
                    i += 1;
                }
                proof {
                    assert forall|j: int| 0 <= j < ges.len() implies ges[j].0 != key by {}
                }
                None
            },
            _ => unreached(),
        }
    }

    /// Whether the mapping at `d` contains the key given by the object at
    /// `k`: 1 when present, 0 when absent, and the sentinel -1 with a
    /// pending exception when the key object's kind is unhashable.
    pub fn dict_contains_id(&mut self, d: usize, k: usize) -> (r: i32)
        requires
            old(self)@.wf(),
            old(self)@.valid(d as int),
            old(self)@.valid(k as int),
            old(self)@.kind(d as int) == Kind::Dict,
        ensures
            (match key_of(old(self)@.value(k as int)) {
                Some(key) => {
                    &&& final(self)@ == old(self)@
                    &&& r == if old(self)@.dict_has(d as int, key) {
                        1int
                    } else {
                        0int
                    }
                },
                None => {
                    &&& final(self)@ == old(self)@.with_pending(ExcKind::TypeError)
                    &&& r == -1
                },
            }),
    {
        match self.key_for(k) {
            Some(key) => {
                let r = match self.dict_find(d, key) {
                    Some(_) => 1,
                    None => 0,
                };
                proof {
                    assert(final(self)@ =~= old(self)@);
                }
                r
            },
            None => {
                self.set_pending(ExcKind::TypeError);
                -1
            },
        }
    }

    /// The value address stored in the mapping at `d` under the key given
    /// by the object at `k`; `None` when the key is absent, with no
    /// exception recorded — absence is not a failure. When the key
    /// object's kind is unhashable, `None` with a pending exception: the
    /// caller must consult the error bridge before treating the result
    /// as an absence. No reference count moves; the returned address is
    /// borrowed.
    pub fn dict_get_id(&mut self, d: usize, k: usize) -> (r: Option<usize>)
        requires
            old(self)@.wf(),
            old(self)@.valid(d as int),
            old(self)@.valid(k as int),
            old(self)@.kind(d as int) == Kind::Dict,
        ensures
            (match key_of(old(self)@.value(k as int)) {
                Some(key) => {
                    &&& final(self)@ == old(self)@
                    &&& (match r {
                        Some(v) => old(self)@.dict_has(d as int, key) && v as nat == old(
                            self,
                        )@.dict_lookup(d as int, key),
                        None => !old(self)@.dict_has(d as int, key),
                    })
                },
                None => {
                    &&& final(self)@ == old(self)@.with_pending(ExcKind::TypeError)
                    &&& r is None
                },
            }),
    {
        match self.key_for(k) {
            Some(key) => {
                let r = match self.dict_find(d, key) {
                    Some(i) => {
                        let e = self.dict_entry_at(d, i);
                        proof {
                            let es = self@.dict_entries(d as int);
                            assert(self@.dict_lookup(d as int, key) == es[key_index(es, key)].1);
                        }
                        Some(e.1)
                    },
                    None => None,
                };
                proof {
                    assert(final(self)@ =~= old(self)@);
                }
                r
            },
            None => {
                self.set_pending(ExcKind::TypeError);
                None
            },
        }
    }
}

/// A reference count after `n` increments, saturating at the top: a
/// count already at or past the top never moves.
pub open spec fn rc_inc_n(rc: nat, n: nat) -> nat {
    if rc >= u64::MAX {
        rc
    } else if rc + n <= u64::MAX {
        (rc + n) as nat
    } else {
        u64::MAX as nat
    }
}

/// A reference count after `n` decrements, never moving below zero.
pub open spec fn rc_dec_n(rc: nat, n: nat) -> nat {
    if rc >= n {
        (rc - n) as nat
    } else {
        0
    }
}

impl Python {
    /// Store `key_obj -> v` in the mapping at `d`, stealing the caller's
    /// reference to `v`: the mapping keeps it. An entry already carrying
    /// the key keeps its position and its old value's reference is given
    /// up; a new key is appended. Returns 0, or the sentinel -1 with a
    /// pending exception when the key object's kind is unhashable, in
    /// which case nothing is stolen and nothing changes.
    pub fn dict_set_id(&mut self, d: usize, k: usize, v: usize) -> (r: i32)
        requires
            old(self)@.wf(),
            old(self)@.valid(d as int),
            old(self)@.valid(k as int),
            old(self)@.valid(v as int),
            old(self)@.kind(d as int) == Kind::Dict,
        ensures
            final(self)@.wf(),
            final(self)@.objects.len() == old(self)@.objects.len(),
            final(self)@.pending == if (key_of(old(self)@.value(k as int)) is Some) {
                old(self)@.pending
            } else {
                Some(ExcKind::TypeError)
            },
            (match key_of(old(self)@.value(k as int)) {
                Some(key) => {
                    let es = old(self)@.dict_entries(d as int);
                    &&& r == 0
                    &&& forall|i: int|
                        old(self)@.valid(i) && i != d ==> final(self)@.value(i) == old(
                            self,
                        )@.value(i)
                    &&& final(self)@.value(d as int) == ObjValue::Dict(
                        entries_set(es, key, v as nat),
                    )
                    &&& forall|i: int|
                        old(self)@.valid(i) ==> final(self)@.rc(i) == (if has_entry(es, key)
                            && i == old(self)@.dict_lookup(d as int, key) && i >= 2 {
                            rc_dec(old(self)@.rc(i))
                        } else {
                            old(self)@.rc(i)
                        })
                },
                None => {
                    &&& r == -1
                    &&& final(self)@ == old(self)@.with_pending(ExcKind::TypeError)
                },
            }),
    {
        let key = match self.key_for(k) {
            Some(key) => key,
            None => {
                self.set_pending(ExcKind::TypeError);
                proof {
                    lemma_wf_same_values(old(self)@, self@);
                }
                return -1;
            },
        };
        proof {
            assert(old(self)@.obj_ok(d as int));
        }
        let ghost pre = self@;
        let ghost es0 = self@.dict_entries(d as int);
        match self.dict_find(d, key) {
            Some(i) => {
                let e = self.dict_entry_at(d, i);
                let w = e.1;
                match &mut self.heap[d].repr {
                    ObjRepr::Dict(es) => {
                        es[i] = DictEntry { key, val: v };
                    },
                    _ => {
                        proof {
                            assert(false);
                        }
                    },
                }
                proof {
                    assert(self.heap@[d as int].model().value =~= ObjValue::Dict(
                        es0.update(i as int, (key, v as nat)),
                    ));
                    lemma_post_value_update(
                        pre,
                        *self,
                        d as int,
                        ObjValue::Dict(entries_set(es0, key, v as nat)),
                    );
                    lemma_wf_set(pre, d as int, key, v as nat);
                    assert(pre.dict_lookup(d as int, key) == es0[i as int].1);
                }
                let ghost mid = self@;
                self.decref(w);
                proof {
                    lemma_wf_same_values(mid, self@);
                }
                0
            },
            None => {
                match &mut self.heap[d].repr {
                    ObjRepr::Dict(es) => {
                        es.push(DictEntry { key, val: v });
                    },
                    _ => {
                        proof {
                            assert(false);
                        }
                    },
                }
                proof {
                    assert(self.heap@[d as int].model().value =~= ObjValue::Dict(
                        es0.push((key, v as nat)),
                    ));
                    lemma_post_value_update(
                        pre,
                        *self,
                        d as int,
                        ObjValue::Dict(entries_set(es0, key, v as nat)),
                    );
                    lemma_wf_set(pre, d as int, key, v as nat);
                }
                0
            },
        }
    }

    /// Delete the entry for the key given by the object at `k` from the
    /// mapping at `d`, giving up the mapping's reference to the removed
    /// value. Later entries keep their relative order. Returns 0, or the
    /// sentinel -1 with a pending exception: a `KeyError` when the key is
    /// absent, a `TypeError` when the key object's kind is unhashable.
    pub fn dict_del_id(&mut self, d: usize, k: usize) -> (r: i32)
        requires
            old(self)@.wf(),
            old(self)@.valid(d as int),
            old(self)@.valid(k as int),
            old(self)@.kind(d as int) == Kind::Dict,
        ensures
            final(self)@.wf(),
            final(self)@.objects.len() == old(self)@.objects.len(),
            (match key_of(old(self)@.value(k as int)) {
                Some(key) => {
                    let es = old(self)@.dict_entries(d as int);
                    if has_entry(es, key) {
                        &&& r == 0
                        &&& forall|i: int|
                            old(self)@.valid(i) && i != d ==> final(self)@.value(i) == old(
                                self,
                            )@.value(i)
                        &&& final(self)@.value(d as int) == ObjValue::Dict(entries_del(es, key))
                        &&& forall|i: int|
                            old(self)@.valid(i) ==> final(self)@.rc(i) == (if i == old(
                                self,
                            )@.dict_lookup(d as int, key) && i >= 2 {
                                rc_dec(old(self)@.rc(i))
                            } else {
                                old(self)@.rc(i)
                            })
                        &&& final(self)@.pending == old(self)@.pending
                    } else {
                        &&& r == -1
                        &&& final(self)@ == old(self)@.with_pending(ExcKind::KeyError)
                    }
                },
                None => {
                    &&& r == -1
                    &&& final(self)@ == old(self)@.with_pending(ExcKind::TypeError)
                },
            }),
    {
        let key = match self.key_for(k) {
            Some(key) => key,
            None => {
                self.set_pending(ExcKind::TypeError);
                proof {
                    lemma_wf_same_values(old(self)@, self@);
                }
                return -1;
            },
        };
        proof {
            assert(old(self)@.obj_ok(d as int));
        }
        let ghost pre = self@;
        let ghost es0 = self@.dict_entries(d as int);
        match self.dict_find(d, key) {
            Some(i) => {
                let e = self.dict_entry_at(d, i);
                let w = e.1;
                match &mut self.heap[d].repr {
                    ObjRepr::Dict(es) => {
                        es.remove(i);
                    },
                    _ => {
                        proof {
                            assert(false);
                        }
                    },
                }
                proof {
                    assert(self.heap@[d as int].model().value =~= ObjValue::Dict(
                        entries_del(es0, key),
                    ));
                    lemma_post_value_update(pre, *self, d as int, ObjValue::Dict(
                        entries_del(es0, key),
                    ));
                    lemma_wf_del(pre, d as int, key);
                    assert(pre.dict_lookup(d as int, key) == es0[i as int].1);
                }
                let ghost mid = self@;
                self.decref(w);
                proof {
                    lemma_wf_same_values(mid, self@);
                }
                0
            },
            None => {
                self.set_pending(ExcKind::KeyError);
                proof {
                    lemma_wf_same_values(old(self)@, self@);
                }
                -1
            },
        }
    }

    /// Empty the mapping at `d`, giving up its reference to every stored
    /// value.
    pub fn dict_clear_id(&mut self, d: usize)
        requires
            old(self)@.wf(),
            old(self)@.valid(d as int),
            old(self)@.kind(d as int) == Kind::Dict,
        ensures
            final(self)@.wf(),
            final(self)@.objects.len() == old(self)@.objects.len(),
            final(self)@.pending == old(self)@.pending,
            forall|i: int|
                old(self)@.valid(i) && i != d ==> final(self)@.value(i) == old(self)@.value(i),
            (final(self)@.value(d as int) == ObjValue::Dict(Seq::<(DictKey, nat)>::empty())),
            forall|i: int|
                old(self)@.valid(i) ==> final(self)@.rc(i) == (if i >= 2 {
                    rc_dec_n(
                        old(self)@.rc(i),
                        occ(old(self)@.dict_entries(d as int), i as nat),
                    )
                } else {
                    old(self)@.rc(i)
                }),
    {
        let ghost pre = self@;
        let ghost es0 = self@.dict_entries(d as int);
        let n = self.dict_len_id(d);
        let mut j: usize = 0;
        while j < n
            invariant
                0 <= j <= n,
                n == es0.len(),
                self@.wf(),
                self@.valid(d as int),
                self@.objects.len() == pre.objects.len(),
                self@.pending == pre.pending,
                forall|i: int| pre.valid(i) ==> self@.value(i) == pre.value(i),
                es0 == self@.dict_entries(d as int),
                self@.kind(d as int) == Kind::Dict,
                forall|i: int|
                    pre.valid(i) ==> self@.rc(i) == (if i >= 2 {
                        rc_dec_n(pre.rc(i), occ(es0.take(j as int), i as nat))
                    } else {
                        pre.rc(i)
                    }),
            decreases n - j,
        {
            let e = self.dict_entry_at(d, j);
            proof {
                assert(self@.obj_ok(d as int));
            }
            let ghost mid = self@;
            self.decref(e.1);
            proof {
                lemma_wf_same_values(mid, self@);
                assert forall|i: int| pre.valid(i) implies self@.rc(i) == (if i >= 2 {
                    rc_dec_n(pre.rc(i), occ(es0.take(j + 1 as int), i as nat))
                } else {
                    pre.rc(i)
                }) by {
                    lemma_occ_take_step(es0, j as int, i as nat);
                }
            }
            j += 1;
        }
        proof {
            assert(es0.take(n as int) =~= es0);
        }
        let ghost mid = self@;
        match &mut self.heap[d].repr {
            ObjRepr::Dict(es) => {
                es.clear();
            },
            _ => {
                proof {
                    assert(false);
                }
            },
        }
        proof {
            assert(self.heap@[d as int].model().value =~= ObjValue::Dict(
                Seq::<(DictKey, nat)>::empty(),
            ));
            lemma_post_value_update(mid, *self, d as int, ObjValue::Dict(
                Seq::<(DictKey, nat)>::empty(),
            ));
            assert forall|id: int| self@.valid(id) implies self@.obj_ok(id) by {
                assert(mid.obj_ok(id));
            }
        }
    }

    /// Allocate a fresh mapping with count 1 holding the same entries as
    /// the mapping at `d`, taking a reference to every stored value.
    pub fn dict_copy_id(&mut self, d: usize) -> (id: usize)
        requires
            old(self)@.wf(),
            old(self)@.valid(d as int),
            old(self)@.kind(d as int) == Kind::Dict,
        ensures
            final(self)@.wf(),
            final(self)@.objects.len() == old(self)@.objects.len() + 1,
            id as int == old(self)@.objects.len(),
            final(self)@.pending == old(self)@.pending,
            forall|i: int|
                old(self)@.valid(i) ==> final(self)@.value(i) == old(self)@.value(i),
            final(self)@.value(id as int) == old(self)@.value(d as int),
            final(self)@.rc(id as int) == 1,
            forall|i: int|
                old(self)@.valid(i) ==> final(self)@.rc(i) == (if i >= 2 {
                    rc_inc_n(
                        old(self)@.rc(i),
                        occ(old(self)@.dict_entries(d as int), i as nat),
                    )
                } else {
                    old(self)@.rc(i)
                }),
    {
        let ghost pre = self@;
        let ghost es0 = self@.dict_entries(d as int);
        let n = self.dict_len_id(d);
        let mut copied: Vec<DictEntry> = Vec::new();
        let mut j: usize = 0;
        while j < n
            invariant
                0 <= j <= n,
                n == es0.len(),
                self@.wf(),
                self@.valid(d as int),
                self@.objects.len() == pre.objects.len(),
                self@.pending == pre.pending,
                forall|i: int| pre.valid(i) ==> self@.value(i) == pre.value(i),
                es0 == self@.dict_entries(d as int),
                self@.kind(d as int) == Kind::Dict,
                copied@.len() == j,
                (copied@.map_values(|e: DictEntry| (e.key, e.val as nat)) == es0.take(j as int)),
                forall|i: int|
                    pre.valid(i) ==> self@.rc(i) == (if i >= 2 {
                        rc_inc_n(pre.rc(i), occ(es0.take(j as int), i as nat))
                    } else {
                        pre.rc(i)
                    }),
            decreases n - j,
        {
            let e = self.dict_entry_at(d, j);
            proof {
                assert(self@.obj_ok(d as int));
            }
            let ghost mid = self@;
            self.incref(e.1);
            copied.push(DictEntry { key: e.0, val: e.1 });
            proof {
                lemma_wf_same_values(mid, self@);
                assert(copied@.map_values(|en: DictEntry| (en.key, en.val as nat)) =~= es0.take(
                    j + 1 as int,
                ));
                assert forall|i: int| pre.valid(i) implies self@.rc(i) == (if i >= 2 {
                    rc_inc_n(pre.rc(i), occ(es0.take(j + 1 as int), i as nat))
                } else {
                    pre.rc(i)
                }) by {
                    lemma_occ_take_step(es0, j as int, i as nat);
                }
            }
            j += 1;
        }
        proof {
            assert(es0.take(n as int) =~= es0);
        }
        let ghost mid = self@;
        let id = self.heap.len();
        self.heap.push(Obj { rc: 1, repr: ObjRepr::Dict(copied) });
        proof {
            assert(self.heap@.last().model() == (ObjModel { rc: 1, value: ObjValue::Dict(es0) }));
            lemma_post_push_obj(mid, *self, ObjValue::Dict(es0));
            assert forall|w: int| self@.valid(w) implies self@.obj_ok(w) by {
                if w < mid.objects.len() {
                    assert(mid.obj_ok(w));
                } else {
                    assert(mid.obj_ok(d as int));
                }
            }
        }
        id
    }

    /// Allocate a fresh empty sequence object with count 1.
    pub fn list_new(&mut self) -> (id: usize)
        requires
            old(self)@.wf(),
        ensures
            (final(self)@ == old(self)@.with_new(ObjValue::List(Seq::empty()))),
            id as int == old(self)@.objects.len(),
            final(self)@.wf(),
    {
        let id = self.heap.len();
        self.heap.push(Obj { rc: 1, repr: ObjRepr::List(Vec::new()) });
        proof {
            assert(self.heap@.last().model().value =~= ObjValue::List(Seq::empty()));
            lemma_post_push(*old(self), *self, ObjValue::List(Seq::empty()));
            lemma_wf_new(old(self)@, ObjValue::List(Seq::empty()));
        }
        id
    }

    /// Append the object at `e` to the sequence at `l`, stealing the
    /// caller's reference to it.
    pub fn list_push_id(&mut self, l: usize, e: usize)
        requires
            old(self)@.wf(),
            old(self)@.valid(l as int),
            old(self)@.valid(e as int),
            old(self)@.kind(l as int) == Kind::List,
        ensures
            final(self)@.wf(),
            (final(self)@ == old(self)@.with_value(
                l as int,
                ObjValue::List(old(self)@.list_elems(l as int).push(e as nat)),
            )),
    {
        let ghost pre = self@;
        let ghost s0 = self@.list_elems(l as int);
        match &mut self.heap[l].repr {
            ObjRepr::List(s) => {
                s.push(e);
            },
            _ => {
                proof {
                    assert(false);
                }
            },
        }
        proof {
            assert(self.heap@[l as int].model().value =~= ObjValue::List(s0.push(e as nat)));
            lemma_post_value_update(pre, *self, l as int, ObjValue::List(s0.push(e as nat)));
            let post = self@;
            assert forall|id: int| post.valid(id) implies post.obj_ok(id) by {
                assert(pre.obj_ok(id));
                if id == l as int {
                    assert forall|j: int|
                        0 <= j < s0.push(e as nat).len() implies post.valid(
                        #[trigger] s0.push(e as nat)[j] as int,
                    ) by {
                        if j < s0.len() {
                            assert(pre.valid(s0[j] as int));
                        }
                    }
                }
            }
        }
    }

    /// The number of elements of the sequence at `l`.
    pub fn list_len_id(&self, l: usize) -> (n: usize)
        requires
            self@.valid(l as int),
            self@.kind(l as int) == Kind::List,
        ensures
            n as nat == self@.list_elems(l as int).len(),
    {
        match &self.heap[l].repr {
            ObjRepr::List(s) => s.len(),
            _ => unreached(),
        }
    }

    /// The element address at position `i` of the sequence at `l`,
    /// borrowed: no reference count moves.
    pub fn list_get_id(&self, l: usize, i: usize) -> (r: usize)
        requires
            self@.valid(l as int),
            self@.kind(l as int) == Kind::List,
            (i as nat) < self@.list_elems(l as int).len(),
        ensures
            r as nat == self@.list_elems(l as int)[i as int],
    {
        match &self.heap[l].repr {
            ObjRepr::List(s) => s[i],
            _ => unreached(),
        }
    }

    /// Allocate a fresh two-element tuple with count 1, stealing the
    /// caller's references to both members.
    pub fn pair_new_id(&mut self, a: usize, b: usize) -> (id: usize)
        requires
            old(self)@.wf(),
            old(self)@.valid(a as int),
            old(self)@.valid(b as int),
        ensures
            (final(self)@ == old(self)@.with_new(ObjValue::Pair(a as nat, b as nat))),
            id as int == old(self)@.objects.len(),
            final(self)@.wf(),
    {
        let id = self.heap.len();
        self.heap.push(Obj { rc: 1, repr: ObjRepr::Pair(a, b) });
        proof {
            lemma_post_push(*old(self), *self, ObjValue::Pair(a as nat, b as nat));
            lemma_wf_new(old(self)@, ObjValue::Pair(a as nat, b as nat));
        }
        id
    }

    /// The member address at position `i` (0 or 1) of the tuple at `p`,
    /// borrowed: no reference count moves.
    pub fn pair_get_id(&self, p: usize, i: usize) -> (r: usize)
        requires
            self@.valid(p as int),
            self@.kind(p as int) == Kind::Tuple,
            i < 2,
        ensures
            (match self@.value(p as int) {
                ObjValue::Pair(a, b) => r as nat == if i == 0 {
                    a
                } else {
                    b
                },
                _ => false,
            }),
    {
        match &self.heap[p].repr {
            ObjRepr::Pair(a, b) => if i == 0 {
                *a
            } else {
                *b
            },
            _ => unreached(),
        }
    }
}

/// After storing `key -> val`, the entry sequence has the key, its first
/// entry for the key carries `val`, and uniqueness of keys is kept.
pub proof fn lemma_entries_set_lookup(es: Seq<(DictKey, nat)>, key: DictKey, val: nat)
    requires
        entry_keys_unique(es),
    ensures
        entry_keys_unique(entries_set(es, key, val)),
        has_entry(entries_set(es, key, val), key),
        entries_set(es, key, val)[key_index(entries_set(es, key, val), key)].1 == val,
{
    let es1 = entries_set(es, key, val);
    if has_entry(es, key) {
        let w = key_index(es, key);
        assert(0 <= w < es.len() && es[w].0 == key);
        assert(forall|j: int| 0 <= j < es1.len() ==> es1[j].0 == es[j].0);
        assert(es1[w].0 == key);
        let w1 = key_index(es1, key);
        assert(0 <= w1 < es1.len() && es1[w1].0 == key);
        assert(w1 == w);
    } else {
        let n = es.len() as int;
        assert(es1[n].0 == key);
        assert forall|i: int, j: int| 0 <= i < j < es1.len() implies es1[i].0 != es1[j].0 by {
            if j == n {
                assert(es1[i].0 == es[i].0);
            }
        }
        let w1 = key_index(es1, key);
        assert(0 <= w1 < es1.len() && es1[w1].0 == key);
        assert forall|i: int| 0 <= i < n implies es1[i].0 != key by {
            assert(es1[i].0 == es[i].0);
        }
        assert(w1 == n);
    }
}

/// Which keys an appended entry sequence carries.
pub proof fn lemma_has_entry_push(es: Seq<(DictKey, nat)>, key: DictKey, val: nat)
    ensures
        forall|dk: DictKey|
            #[trigger] has_entry(es.push((key, val)), dk) == (has_entry(es, dk) || dk == key),
{
    let es1 = es.push((key, val));
    assert forall|dk: DictKey| #[trigger] has_entry(es1, dk) == (has_entry(es, dk) || dk == key) by {
        if has_entry(es1, dk) {
            let t = choose|t: int| 0 <= t < es1.len() && es1[t].0 == dk;
            if t < es.len() {
                assert(es[t].0 == dk);
                assert(has_entry(es, dk));
            } else {
                assert(dk == key);
            }
        }
        if has_entry(es, dk) {
            let t = choose|t: int| 0 <= t < es.len() && es[t].0 == dk;
            assert(es1[t].0 == dk);
            assert(has_entry(es1, dk));
        }
        if dk == key {
            assert(es1[es.len() as int].0 == dk);
            assert(has_entry(es1, dk));
        }
    }
}

/// Storing one key leaves every other key's presence and value alone.
pub proof fn lemma_entries_set_frame(es: Seq<(DictKey, nat)>, key: DictKey, val: nat, k2: DictKey)
    requires
        entry_keys_unique(es),
        k2 != key,
    ensures
        has_entry(entries_set(es, key, val), k2) == has_entry(es, k2),
        has_entry(es, k2) ==> entries_set(es, key, val)[key_index(
            entries_set(es, key, val),
            k2,
        )].1 == es[key_index(es, k2)].1,
{
    let es1 = entries_set(es, key, val);
    lemma_entries_set_lookup(es, key, val);
    if has_entry(es, k2) {
        let w = key_index(es, k2);
        assert(0 <= w < es.len() && es[w].0 == k2);
        assert(es1[w] == es[w]);
        assert(has_entry(es1, k2));
        let w1 = key_index(es1, k2);
        assert(0 <= w1 < es1.len() && es1[w1].0 == k2);
        assert(w1 == w);
    } else {
        if has_entry(es1, k2) {
            let w1 = key_index(es1, k2);
            assert(0 <= w1 < es1.len() && es1[w1].0 == k2);
            if has_entry(es, key) {
                assert(es1[w1].0 == es[w1].0);
            } else {
                assert(w1 < es.len());
                assert(es1[w1].0 == es[w1].0);
            }
            assert(false);
        }
    }
}


/// Counting entry values over a prefix never exceeds the whole count.
pub proof fn lemma_occ_take_le(es: Seq<(DictKey, nat)>, m: int, id: nat)
    requires
        0 <= m <= es.len(),
    ensures
        occ(es.take(m), id) <= occ(es, id),
    decreases es.len() - m,
{
    if m < es.len() {
        lemma_occ_take_step(es, m, id);
        lemma_occ_take_le(es, m + 1, id);
    } else {
        assert(es.take(m) =~= es);
    }
}

/// Structural soundness does not depend on reference counts or the
/// pending exception: a heap with the same values is as sound.
pub proof fn lemma_wf_same_values(pre: HeapModel, post: HeapModel)
    requires
        pre.wf(),
        post.objects.len() == pre.objects.len(),
        forall|i: int| pre.valid(i) ==> post.value(i) == pre.value(i),
    ensures
        post.wf(),
{
    assert forall|id: int| post.valid(id) implies post.obj_ok(id) by {
        assert(pre.obj_ok(id));
        assert(post.value(id) == pre.value(id));
    }
}

/// Counting entry values over a strictly longer prefix adds the one entry.
pub proof fn lemma_occ_take_step(es: Seq<(DictKey, nat)>, j: int, id: nat)
    requires
        0 <= j < es.len(),
    ensures
        occ(es.take(j + 1), id) == occ(es.take(j), id) + (if es[j].1 == id {
            1nat
        } else {
            0nat
        }),
{
    assert(es.take(j + 1).drop_last() =~= es.take(j));
    assert(es.take(j + 1).last() == es[j]);
}

/// After a store to slot `id` that kept the count, the heap model is the
/// old model with only that slot's value changed.
proof fn lemma_post_value_update(pre: HeapModel, post: Python, id: int, v: ObjValue)
    requires
        pre.valid(id),
        post.heap@.len() == pre.objects.len(),
        post.heap@[id].model().value == v,
        post.heap@[id].model().rc == pre.rc(id),
        forall|i: int| 0 <= i < pre.objects.len() && i != id ==> post.heap@[i].model() == pre.objects[i],
        post.pending == pre.pending,
    ensures
        post@ == pre.with_value(id, v),
{
    assert(post@.objects =~= pre.with_value(id, v).objects);
    assert(post@ =~= pre.with_value(id, v));
}

/// After pushing a fresh object with count 1 and value `v` onto `pre`'s
/// heap, the model is `pre` with that object appended.
proof fn lemma_post_push_obj(pre: HeapModel, post: Python, v: ObjValue)
    requires
        post.heap@.len() == pre.objects.len() + 1,
        forall|i: int| 0 <= i < pre.objects.len() ==> post.heap@[i].model() == pre.objects[i],
        post.heap@.last().model() == (ObjModel { rc: 1, value: v }),
        post.pending == pre.pending,
    ensures
        post@ == pre.with_new(v),
{
    assert(post@.objects =~= pre.with_new(v).objects);
    assert(post@ =~= pre.with_new(v));
}

/// Storing an entry keeps a mapping structurally sound.
proof fn lemma_wf_set(pre: HeapModel, d: int, key: DictKey, v: nat)
    requires
        pre.wf(),
        pre.valid(d),
        pre.kind(d) == Kind::Dict,
        pre.valid(v as int),
    ensures
        pre.with_value(d, ObjValue::Dict(entries_set(pre.dict_entries(d), key, v))).wf(),
{
    let es = pre.dict_entries(d);
    let es1 = entries_set(es, key, v);
    let post = pre.with_value(d, ObjValue::Dict(es1));
    assert(pre.obj_ok(d));
    assert(entry_keys_unique(es1)) by {
        if has_entry(es, key) {
            let w = key_index(es, key);
            assert(forall|j: int| 0 <= j < es1.len() ==> es1[j].0 == es[j].0);
        } else {
            assert forall|i: int, j: int| 0 <= i < j < es1.len() implies es1[i].0 != es1[j].0 by {
                if j == es.len() {
                    assert(es1[j].0 == key);
                    assert(!has_entry(es, key));
                    assert(es1[i].0 == es[i].0);
                }
            }
        }
    }
    assert forall|id: int| post.valid(id) implies post.obj_ok(id) by {
        assert(pre.obj_ok(id));
        if id == d {
            assert forall|j: int| 0 <= j < es1.len() implies post.valid(
                #[trigger] es1[j].1 as int,
            ) by {
                if has_entry(es, key) {
                    if j != key_index(es, key) {
                        assert(es1[j] == es[j]);
                    }
                } else {
                    if j < es.len() {
                        assert(es1[j] == es[j]);
                    }
                }
            }
        }
    }
}

/// Deleting an entry keeps a mapping structurally sound.
proof fn lemma_wf_del(pre: HeapModel, d: int, key: DictKey)
    requires
        pre.wf(),
        pre.valid(d),
        pre.kind(d) == Kind::Dict,
        has_entry(pre.dict_entries(d), key),
    ensures
        pre.with_value(d, ObjValue::Dict(entries_del(pre.dict_entries(d), key))).wf(),
{
    let es = pre.dict_entries(d);
    let w = key_index(es, key);
    let es1 = entries_del(es, key);
    let post = pre.with_value(d, ObjValue::Dict(es1));
    assert(pre.obj_ok(d));
    assert forall|id: int| post.valid(id) implies post.obj_ok(id) by {
        assert(pre.obj_ok(id));
        if id == d {
            assert forall|i: int, j: int| 0 <= i < j < es1.len() implies es1[i].0 != es1[j].0 by {
                let pi = if i < w {
                    i
                } else {
                    i + 1
                };
                let pj = if j < w {
                    j
                } else {
                    j + 1
                };
                assert(es1[i] == es[pi]);
                assert(es1[j] == es[pj]);
            }
            assert forall|j: int| 0 <= j < es1.len() implies post.valid(
                #[trigger] es1[j].1 as int,
            ) by {
                let pj = if j < w {
                    j
                } else {
                    j + 1
                };
                assert(es1[j] == es[pj]);
            }
        }
    }
}

/// After a store to slot `id` that kept the payload, the heap model is the
/// old model with only that slot's count changed.
proof fn lemma_post_rc_update(pre: Python, post: Python, id: int)
    requires
        pre@.valid(id),
        post.heap@.len() == pre.heap@.len(),
        post.heap@[id].model().value == pre.heap@[id].model().value,
        forall|i: int| 0 <= i < pre.heap@.len() && i != id ==> post.heap@[i] == pre.heap@[i],
        post.pending == pre.pending,
    ensures
        post@ == pre@.with_rc(id, post.heap@[id].model().rc),
{
    assert(post@.objects =~= pre@.with_rc(id, post.heap@[id].model().rc).objects);
    assert(post@ =~= pre@.with_rc(id, post.heap@[id].model().rc));
}

/// After pushing a fresh object with count 1 and value `v`, the heap model
/// is the old model with that object appended.
proof fn lemma_post_push(pre: Python, post: Python, v: ObjValue)
    requires
        post.heap@.len() == pre.heap@.len() + 1,
        forall|i: int| 0 <= i < pre.heap@.len() ==> post.heap@[i] == pre.heap@[i],
        post.heap@.last().model() == (ObjModel { rc: 1, value: v }),
        post.pending == pre.pending,
    ensures
        post@ == pre@.with_new(v),
{
    assert(post@.objects =~= pre@.with_new(v).objects);
    assert(post@ =~= pre@.with_new(v));
}

/// Appending a structurally sound object preserves the heap invariant.
proof fn lemma_wf_new(pre: HeapModel, v: ObjValue)
    requires
        pre.wf(),
        match v {
            ObjValue::Bool(_) => false,
            ObjValue::Int(i) => i64::MIN <= i <= i64::MAX,
            ObjValue::Dict(es) => es =~= Seq::<(DictKey, nat)>::empty(),
            ObjValue::List(s) => s =~= Seq::<nat>::empty(),
            ObjValue::Pair(a, b) => pre.valid(a as int) && pre.valid(b as int),
        },
    ensures
        pre.with_new(v).wf(),
{
    let post = pre.with_new(v);
    assert forall|id: int| post.valid(id) implies post.obj_ok(id) by {
        if id < pre.objects.len() {
            assert(pre.obj_ok(id));
        }
    }
}

} // verus!
