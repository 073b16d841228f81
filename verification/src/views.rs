use vstd::prelude::*;
use crate::document::Qpdf;
use crate::document::lemma_wf_after_value_update;
use crate::document::spec_same_meta;
use crate::error::QpdfError;
use crate::object::QpdfChild;
use crate::object::QpdfDictEntry;
use crate::object::QpdfObject;
use crate::object::QpdfObjectType;
use crate::object::QpdfValue;
use crate::object::clone_value;
use crate::object::lemma_children_wf_index;
use crate::object::lemma_entries_wf_index;
use crate::object::lemma_children_wf_extend;
use crate::object::lemma_entries_wf_extend;
use crate::object::lemma_child_wf_extend;
use crate::object::lemma_value_like_wf;
use crate::object::spec_child_wf;
use crate::object::spec_children_wf;
use crate::object::spec_entries_wf;
use crate::object::spec_nodes_extend;
use crate::object::spec_value_like;
use crate::object::spec_value_wf;

verus! {

/// Anything that wraps a handle: the handle itself and the three
/// structural views.
pub trait QpdfObjectLike {
    /// The wrapped handle, in specifications.
    spec fn spec_inner(&self) -> QpdfObject;

    /// The wrapped handle.
    fn inner(&self) -> (r: &QpdfObject)
        ensures
            *r == self.spec_inner(),
    ;
}

impl QpdfObjectLike for QpdfObject {
    open spec fn spec_inner(&self) -> QpdfObject {
        *self
    }

    fn inner(&self) -> (r: &QpdfObject) {
        self
    }
}

/// A structural view of an array object.
#[derive(Debug)]
pub struct QpdfArray {
    /// The underlying handle.
    pub inner: QpdfObject,
}

/// A structural view of a dictionary object.
#[derive(Debug)]
pub struct QpdfDictionary {
    /// The underlying handle.
    pub inner: QpdfObject,
}

/// A structural view of a stream object.
#[derive(Debug)]
pub struct QpdfStream {
    /// The underlying handle.
    pub inner: QpdfObject,
}

impl QpdfObjectLike for QpdfArray {
    open spec fn spec_inner(&self) -> QpdfObject {
        self.inner
    }

    fn inner(&self) -> (r: &QpdfObject) {
        &self.inner
    }
}

impl QpdfObjectLike for QpdfDictionary {
    open spec fn spec_inner(&self) -> QpdfObject {
        self.inner
    }

    fn inner(&self) -> (r: &QpdfObject) {
        &self.inner
    }
}

impl QpdfObjectLike for QpdfStream {
    open spec fn spec_inner(&self) -> QpdfObject {
        self.inner
    }

    fn inner(&self) -> (r: &QpdfObject) {
        &self.inner
    }
}

/// The child position an insertion stores for a source handle: a shared
/// reference for an indirect object, an independent deep snapshot for a
/// direct one.
pub(crate) fn make_child(doc: &Qpdf, val: &QpdfObject) -> (c: QpdfChild)
    requires
        doc.wf(),
        doc.valid(*val),
    ensures
        doc.indirect(*val) ==> c == QpdfChild::Ref(val.slot),
        !doc.indirect(*val) ==> (c matches QpdfChild::Val(w) && spec_value_like(
            doc.value_of(*val),
            w,
        )),
        spec_child_wf(doc.nodes@, c),
{
    if doc.nodes[val.slot].id != 0 {
        QpdfChild::Ref(val.slot)
    } else {
        let w = clone_value(&doc.nodes[val.slot].value);
        proof {
            assert(spec_value_wf(doc.nodes@, doc.nodes@[val.slot as int].value));
            lemma_value_like_wf(doc.nodes@, doc.nodes@[val.slot as int].value, w);
        }
        QpdfChild::Val(w)
    }
}

impl QpdfObject {
    /// Narrows the handle to an array view; `TypeMismatch` when the object
    /// is not an array.
    pub fn into_array(&self, doc: &Qpdf) -> (r: Result<QpdfArray, QpdfError>)
        requires
            doc.valid(*self),
        ensures
            doc.type_of(*self) == QpdfObjectType::Array ==> (r matches Ok(a) && a.inner == *self),
            doc.type_of(*self) != QpdfObjectType::Array ==> (r matches Err(e) && e
                == QpdfError::TypeMismatch),
    {
        if self.is_array(doc) {
            Ok(QpdfArray { inner: QpdfObject { slot: self.slot } })
        } else {
            Err(QpdfError::TypeMismatch)
        }
    }

    /// Narrows the handle to a dictionary view; `TypeMismatch` when the
    /// object is not a dictionary.
    pub fn into_dictionary(&self, doc: &Qpdf) -> (r: Result<QpdfDictionary, QpdfError>)
        requires
            doc.valid(*self),
        ensures
            doc.type_of(*self) == QpdfObjectType::Dictionary ==> (r matches Ok(d) && d.inner
                == *self),
            doc.type_of(*self) != QpdfObjectType::Dictionary ==> (r matches Err(e) && e
                == QpdfError::TypeMismatch),
    {
        if self.is_dictionary(doc) {
            Ok(QpdfDictionary { inner: QpdfObject { slot: self.slot } })
        } else {
            Err(QpdfError::TypeMismatch)
        }
    }

    /// Narrows the handle to a stream view; `TypeMismatch` when the object
    /// is not a stream.
    pub fn into_stream(&self, doc: &Qpdf) -> (r: Result<QpdfStream, QpdfError>)
        requires
            doc.valid(*self),
        ensures
            doc.type_of(*self) == QpdfObjectType::Stream ==> (r matches Ok(s) && s.inner == *self),
            doc.type_of(*self) != QpdfObjectType::Stream ==> (r matches Err(e) && e
                == QpdfError::TypeMismatch),
    {
        if self.is_stream(doc) {
            Ok(QpdfStream { inner: QpdfObject { slot: self.slot } })
        } else {
            Err(QpdfError::TypeMismatch)
        }
    }
}

impl QpdfArray {
    /// The number of items.
    pub fn len(&self, doc: &Qpdf) -> (r: usize)
        requires
            doc.valid(self.inner),
            doc.value_of(self.inner) is Array,
        ensures
            doc.value_of(self.inner) matches QpdfValue::Array(cs) && r == cs@.len(),
    {
        match &doc.nodes[self.inner.slot].value {
            QpdfValue::Array(cs) => cs.len(),
            _ => 0,
        }
    }

    /// The item at `index`: absent when the index is out of range, the
    /// shared node for an indirect item, a fresh snapshot for a direct one.
    pub fn get(&self, doc: &mut Qpdf, index: usize) -> (r: Option<QpdfObject>)
        requires
            old(doc).wf(),
            old(doc).valid(self.inner),
            old(doc).value_of(self.inner) is Array,
        ensures
            final(doc).wf(),
            spec_same_meta(*old(doc), *final(doc)),
            final(doc).next_id == old(doc).next_id,
            spec_nodes_extend(old(doc).nodes@, final(doc).nodes@),
            forall|s: int|
                0 <= s < old(doc).nodes@.len() ==> final(doc).nodes@[s] == old(doc).nodes@[s],
            old(doc).value_of(self.inner) matches QpdfValue::Array(cs) && (if index >= cs@.len() {
                r is None && *final(doc) == *old(doc)
            } else {
                r matches Some(h) && final(doc).valid(h) && (match cs@[index as int] {
                    QpdfChild::Ref(s) => h.slot == s && *final(doc) == *old(doc),
                    QpdfChild::Val(v) => h.slot == old(doc).nodes@.len() && !final(doc).indirect(h)
                        && spec_value_like(v, final(doc).value_of(h)),
                })
            }),
    {
        let slot = self.inner.slot;
        let w = match &doc.nodes[slot].value {
            QpdfValue::Array(cs) => {
                if index >= cs.len() {
                    return None;
                }
                proof {
                    assert(spec_value_wf(doc.nodes@, doc.nodes@[slot as int].value));
                    lemma_children_wf_index(doc.nodes@, cs@, index as int);
                }
                match &cs[index] {
                    QpdfChild::Ref(s) => {
                        return Some(QpdfObject { slot: *s });
                    },
                    QpdfChild::Val(v) => {
                        let w = clone_value(v);
                        proof {
                            lemma_value_like_wf(doc.nodes@, *v, w);
                        }
                        w
                    },
                }
            },
            _ => {
                return None;
            },
        };
        Some(doc.alloc_direct(w))
    }

    /// Appends an item: indirect items are stored shared, direct items as
    /// deep snapshots.
    #[verifier::loop_isolation(false)]
    pub fn push(&self, doc: &mut Qpdf, val: &QpdfObject)
        requires
            old(doc).wf(),
            old(doc).valid(self.inner),
            old(doc).valid(*val),
            old(doc).value_of(self.inner) is Array,
        ensures
            final(doc).wf(),
            spec_same_meta(*old(doc), *final(doc)),
            final(doc).next_id == old(doc).next_id,
            spec_nodes_extend(old(doc).nodes@, final(doc).nodes@),
            final(doc).nodes@.len() == old(doc).nodes@.len(),
            forall|s: int|
                0 <= s < old(doc).nodes@.len() && s != self.inner.slot
                    ==> final(doc).nodes@[s] == old(doc).nodes@[s],
            old(doc).value_of(self.inner) matches QpdfValue::Array(cs) && final(doc).value_of(
                self.inner,
            ) matches QpdfValue::Array(cs2) && cs2@.len() == cs@.len() + 1 && cs2@.take(
                cs@.len() as int,
            ) == cs@ && (if old(doc).indirect(*val) {
                cs2@.last() == QpdfChild::Ref(val.slot)
            } else {
                cs2@.last() matches QpdfChild::Val(w) && spec_value_like(
                    old(doc).value_of(*val),
                    w,
                )
            }),
    {
        let ghost doc0 = *doc;
        let child = make_child(doc, val);
        let slot = self.inner.slot;
        let n = &mut doc.nodes[slot];
        match &mut n.value {
            QpdfValue::Array(cs) => {
                let ghost cs0 = cs@;
                cs.push(child);
            },
            _ => {
                proof {
                    assert(false);
                }
            },
        }
        proof {
            let ghost cs0 = doc0.value_of(self.inner)->Array_0@;
            assert(doc.nodes@ == doc0.nodes@.update(slot as int, doc.nodes@[slot as int]));
            assert(doc.nodes@[slot as int].value->Array_0@ == cs0.push(child));
            assert(cs0.push(child).drop_last() =~= cs0);
            assert(cs0.push(child).last() == child);
            assert(spec_value_wf(doc0.nodes@, doc0.nodes@[slot as int].value));
            assert(spec_nodes_extend(doc0.nodes@, doc.nodes@));
            lemma_children_wf_extend(doc0.nodes@, doc.nodes@, cs0);
            lemma_child_wf_extend(doc0.nodes@, doc.nodes@, child);
            assert(spec_children_wf(doc.nodes@, cs0.push(child)));
            lemma_wf_after_value_update(doc0, *doc, slot as int);
            assert(cs0.push(child).take(cs0.len() as int) =~= cs0);
        }
    }

    /// Replaces the item at `index`; returns false and changes nothing when
    /// the index is out of range.
    #[verifier::loop_isolation(false)]
    pub fn set(&self, doc: &mut Qpdf, index: usize, val: &QpdfObject) -> (ok: bool)
        requires
            old(doc).wf(),
            old(doc).valid(self.inner),
            old(doc).valid(*val),
            old(doc).value_of(self.inner) is Array,
        ensures
            final(doc).wf(),
            spec_same_meta(*old(doc), *final(doc)),
            final(doc).next_id == old(doc).next_id,
            spec_nodes_extend(old(doc).nodes@, final(doc).nodes@),
            final(doc).nodes@.len() == old(doc).nodes@.len(),
            forall|s: int|
                0 <= s < old(doc).nodes@.len() && s != self.inner.slot
                    ==> final(doc).nodes@[s] == old(doc).nodes@[s],
            old(doc).value_of(self.inner) matches QpdfValue::Array(cs) && (if index >= cs@.len() {
                !ok && *final(doc) == *old(doc)
            } else {
                ok && (final(doc).value_of(self.inner) matches QpdfValue::Array(cs2)
                    && cs2@.len() == cs@.len() && (forall|j: int|
                    0 <= j < cs@.len() && j != index ==> cs2@[j] == cs@[j]) && (if old(
                    doc,
                ).indirect(*val) {
                    cs2@[index as int] == QpdfChild::Ref(val.slot)
                } else {
                    cs2@[index as int] matches QpdfChild::Val(w) && spec_value_like(
                        old(doc).value_of(*val),
                        w,
                    )
                }))
            }),
    {
        let slot = self.inner.slot;
        let in_range = match &doc.nodes[slot].value {
            QpdfValue::Array(cs) => index < cs.len(),
            _ => false,
        };
        if !in_range {
            return false;
        }
        let ghost doc0 = *doc;
        let child = make_child(doc, val);
        let n = &mut doc.nodes[slot];
        match &mut n.value {
            QpdfValue::Array(cs) => {
                let ghost cs0 = cs@;
                cs.remove(index);
                cs.insert(index, child);
                proof {
                    assert(cs@ =~= cs0.update(index as int, child));
                }
            },
            _ => {
                proof {
                    assert(false);
                }
            },
        }
        proof {
            let ghost cs0 = doc0.value_of(self.inner)->Array_0@;
            assert(doc.nodes@ == doc0.nodes@.update(slot as int, doc.nodes@[slot as int]));
            let cs2 = doc.nodes@[slot as int].value->Array_0@;
            assert(cs2 == cs0.update(index as int, child));
            assert(spec_value_wf(doc0.nodes@, doc0.nodes@[slot as int].value));
            assert(spec_children_wf(doc.nodes@, cs2)) by {
                assert forall|j: int| 0 <= j < cs2.len() implies spec_child_wf(
                    doc.nodes@,
                    #[trigger] cs2[j],
                ) by {
                    if j == index {
                        lemma_child_wf_extend(doc0.nodes@, doc.nodes@, child);
                    } else {
                        lemma_children_wf_index(doc0.nodes@, cs0, j);
                        lemma_child_wf_extend(doc0.nodes@, doc.nodes@, cs0[j]);
                    }
                }
                crate::object::lemma_children_wf_build(doc.nodes@, cs2);
            }
            lemma_wf_after_value_update(doc0, *doc, slot as int);
        }
        true
    }

    /// All items in index order, as handles: each position yields the
    /// shared slot for an indirect item and a fresh content-equal snapshot
    /// for a direct one.
    #[verifier::loop_isolation(false)]
    pub fn items(&self, doc: &mut Qpdf) -> (r: Vec<QpdfObject>)
        requires
            old(doc).wf(),
            old(doc).valid(self.inner),
            old(doc).value_of(self.inner) is Array,
        ensures
            final(doc).wf(),
            spec_same_meta(*old(doc), *final(doc)),
            final(doc).next_id == old(doc).next_id,
            spec_nodes_extend(old(doc).nodes@, final(doc).nodes@),
            forall|s: int|
                0 <= s < old(doc).nodes@.len() ==> final(doc).nodes@[s] == old(doc).nodes@[s],
            old(doc).value_of(self.inner) matches QpdfValue::Array(cs) && r@.len() == cs@.len()
                && forall|i: int|
                0 <= i < cs@.len() ==> (final(doc).valid(#[trigger] r@[i]) && (match cs@[i] {
                    QpdfChild::Ref(s) => r@[i].slot == s,
                    QpdfChild::Val(v) => !final(doc).indirect(r@[i]) && spec_value_like(
                        v,
                        final(doc).value_of(r@[i]),
                    ),
                })),
    {
        let ghost cs0 = old(doc).value_of(self.inner)->Array_0@;
        let mut out: Vec<QpdfObject> = Vec::new();
        let mut i: usize = 0;
        let n = self.len(doc);
        while i < n
            invariant
                out@.len() == i,
                i <= n,
                doc.wf(),
                doc.valid(self.inner),
                doc.value_of(self.inner) is Array,
                doc.value_of(self.inner)->Array_0@ == cs0,
                cs0.len() == n,
                spec_same_meta(*old(doc), *doc),
                doc.next_id == old(doc).next_id,
                spec_nodes_extend(old(doc).nodes@, doc.nodes@),
                forall|s: int|
                    0 <= s < old(doc).nodes@.len() ==> doc.nodes@[s] == old(doc).nodes@[s],
                forall|j: int|
                    0 <= j < i ==> (doc.valid(#[trigger] out@[j]) && (match cs0[j] {
                        QpdfChild::Ref(s) => out@[j].slot == s,
                        QpdfChild::Val(v) => !doc.indirect(out@[j]) && spec_value_like(
                            v,
                            doc.value_of(out@[j]),
                        ),
                    })),
            decreases n - i,
        {
            let ghost docl = *doc;
            let h = match self.get(doc, i) {
                Some(h) => h,
                None => {
                    proof {
                        assert(false);
                    }
                    QpdfObject { slot: 0 }
                },
            };
            proof {
                assert forall|j: int|
                    0 <= j < out@.len() implies (doc.valid(#[trigger] out@[j]) && (match cs0[j] {
                    QpdfChild::Ref(s) => out@[j].slot == s,
                    QpdfChild::Val(v) => !doc.indirect(out@[j]) && spec_value_like(
                        v,
                        doc.value_of(out@[j]),
                    ),
                })) by {
                    assert(docl.valid(out@[j]));
                    assert(doc.nodes@[out@[j].slot as int] == docl.nodes@[out@[j].slot as int]);
                }
            }
            out.push(h);
            i = i + 1;
        }
        out
    }
}

/// True when some entry of the list has the given key.
pub open spec fn spec_dict_has(es: Seq<QpdfDictEntry>, key: Seq<char>) -> bool {
    exists|i: int| 0 <= i < es.len() && (#[trigger] es[i]).key@ == key
}

impl QpdfDictionary {
    /// The index of the entry holding `key`, if any.
    #[verifier::loop_isolation(false)]
    fn find(&self, doc: &Qpdf, key: &String) -> (r: Option<usize>)
        requires
            doc.valid(self.inner),
            doc.value_of(self.inner) is Dictionary,
        ensures
            doc.value_of(self.inner) matches QpdfValue::Dictionary(es) && (match r {
                Some(i) => 0 <= i < es@.len() && es@[i as int].key@ == key@,
                None => !spec_dict_has(es@, key@),
            }),
    {
        match &doc.nodes[self.inner.slot].value {
            QpdfValue::Dictionary(es) => {
                let mut i: usize = 0;
                while i < es.len()
                    invariant
                        i <= es@.len(),
                        forall|j: int| 0 <= j < i ==> (#[trigger] es@[j]).key@ != key@,
                    decreases es@.len() - i,
                {
                    if es[i].key == *key {
                        return Some(i);
                    }
                    i = i + 1;
                }
                None
            },
            _ => None,
        }
    }

    /// All keys, in storage order.
    pub fn keys(&self, doc: &Qpdf) -> (r: Vec<String>)
        requires
            doc.valid(self.inner),
            doc.value_of(self.inner) is Dictionary,
        ensures
            doc.value_of(self.inner) matches QpdfValue::Dictionary(es) && r@.len() == es@.len()
                && forall|i: int| 0 <= i < es@.len() ==> (#[trigger] r@[i])@ == es@[i].key@,
    {
        let mut out: Vec<String> = Vec::new();
        match &doc.nodes[self.inner.slot].value {
            QpdfValue::Dictionary(es) => {
                let mut i: usize = 0;
                while i < es.len()
                    invariant
                        i <= es@.len(),
                        out@.len() == i,
                        forall|j: int| 0 <= j < i ==> (#[trigger] out@[j])@ == es@[j].key@,
                    decreases es@.len() - i,
                {
                    out.push(es[i].key.clone());
                    i = i + 1;
                }
            },
            _ => {},
        }
        out
    }

    /// True iff the dictionary holds the key.
    pub fn has(&self, doc: &Qpdf, key: &str) -> (r: bool)
        requires
            doc.valid(self.inner),
            doc.value_of(self.inner) is Dictionary,
        ensures
            doc.value_of(self.inner) matches QpdfValue::Dictionary(es) && r == spec_dict_has(
                es@,
                key@,
            ),
    {
        let k = key.to_owned();
        self.find(doc, &k).is_some()
    }

    /// The value under `key`: absent when the key is missing, the shared
    /// node for an indirect value, a fresh snapshot for a direct one.
    pub fn get(&self, doc: &mut Qpdf, key: &str) -> (r: Option<QpdfObject>)
        requires
            old(doc).wf(),
            old(doc).valid(self.inner),
            old(doc).value_of(self.inner) is Dictionary,
        ensures
            final(doc).wf(),
            spec_same_meta(*old(doc), *final(doc)),
            final(doc).next_id == old(doc).next_id,
            spec_nodes_extend(old(doc).nodes@, final(doc).nodes@),
            forall|s: int|
                0 <= s < old(doc).nodes@.len() ==> final(doc).nodes@[s] == old(doc).nodes@[s],
            old(doc).value_of(self.inner) matches QpdfValue::Dictionary(es) && (if !spec_dict_has(
                es@,
                key@,
            ) {
                r is None && *final(doc) == *old(doc)
            } else {
                r matches Some(h) && final(doc).valid(h) && exists|i: int|
                    0 <= i < es@.len() && (#[trigger] es@[i]).key@ == key@ && (match es@[i].child {
                        QpdfChild::Ref(s) => h.slot == s && *final(doc) == *old(doc),
                        QpdfChild::Val(v) => h.slot == old(doc).nodes@.len()
                            && !final(doc).indirect(h)
                            && spec_value_like(v, final(doc).value_of(h)),
                    })
            }),
    {
        let k = key.to_owned();
        let idx = match self.find(doc, &k) {
            Some(i) => i,
            None => {
                return None;
            },
        };
        let slot = self.inner.slot;
        let w = match &doc.nodes[slot].value {
            QpdfValue::Dictionary(es) => {
                proof {
                    assert(spec_value_wf(doc.nodes@, doc.nodes@[slot as int].value));
                    lemma_entries_wf_index(doc.nodes@, es@, idx as int);
                }
                match &es[idx].child {
                    QpdfChild::Ref(s) => {
                        return Some(QpdfObject { slot: *s });
                    },
                    QpdfChild::Val(v) => {
                        let w = clone_value(v);
                        proof {
                            lemma_value_like_wf(doc.nodes@, *v, w);
                        }
                        w
                    },
                }
            },
            _ => {
                return None;
            },
        };
        Some(doc.alloc_direct(w))
    }

    /// Binds `key` to the given object, overwriting any previous binding;
    /// indirect values are stored shared, direct values as deep snapshots.
    #[verifier::loop_isolation(false)]
    #[verifier::rlimit(60)]
    pub fn set(&self, doc: &mut Qpdf, key: &str, val: &QpdfObject)
        requires
            old(doc).wf(),
            old(doc).valid(self.inner),
            old(doc).valid(*val),
            old(doc).value_of(self.inner) is Dictionary,
        ensures
            final(doc).wf(),
            spec_same_meta(*old(doc), *final(doc)),
            final(doc).next_id == old(doc).next_id,
            spec_nodes_extend(old(doc).nodes@, final(doc).nodes@),
            final(doc).nodes@.len() == old(doc).nodes@.len(),
            forall|s: int|
                0 <= s < old(doc).nodes@.len() && s != self.inner.slot
                    ==> final(doc).nodes@[s] == old(doc).nodes@[s],
            old(doc).value_of(self.inner) matches QpdfValue::Dictionary(es) && (final(doc).value_of(self.inner) matches QpdfValue::Dictionary(es2) && {
                let c_ok = if old(doc).indirect(*val) {
                    es2@.len() > 0 && spec_set_child_is(
                        es2@,
                        key@,
                        QpdfChild::Ref(val.slot),
                        *old(doc),
                        *val,
                    )
                } else {
                    es2@.len() > 0 && spec_set_child_is(
                        es2@,
                        key@,
                        QpdfChild::Ref(0),
                        *old(doc),
                        *val,
                    )
                };
                if spec_dict_has(es@, key@) {
                    &&& es2@.len() == es@.len()
                    &&& forall|j: int|
                        0 <= j < es@.len() ==> (#[trigger] es2@[j]).key@ == es@[j].key@
                    &&& forall|j: int|
                        0 <= j < es@.len() && es@[j].key@ != key@ ==> #[trigger] es2@[j]
                            == es@[j]
                    &&& c_ok
                } else {
                    &&& es2@.len() == es@.len() + 1
                    &&& es2@.take(es@.len() as int) == es@
                    &&& es2@.last().key@ == key@
                    &&& c_ok
                }
            }),
    {
        let k = key.to_owned();
        let found = self.find(doc, &k);
        let ghost doc0 = *doc;
        let child = make_child(doc, val);
        let slot = self.inner.slot;
        let entry = QpdfDictEntry { key: k, child };
        let n = &mut doc.nodes[slot];
        match &mut n.value {
            QpdfValue::Dictionary(es) => {
                let ghost es0 = es@;
                match found {
                    Some(i) => {
                        es.remove(i);
                        es.insert(i, entry);
                        proof {
                            assert(es@ =~= es0.update(i as int, entry));
                        }
                    },
                    None => {
                        es.push(entry);
                    },
                }
            },
            _ => {
                proof {
                    assert(false);
                }
            },
        }
        proof {
            let es0 = doc0.value_of(self.inner)->Dictionary_0@;
            assert(doc.nodes@ == doc0.nodes@.update(slot as int, doc.nodes@[slot as int]));
            let es2 = doc.nodes@[slot as int].value->Dictionary_0@;
            assert(spec_value_wf(doc0.nodes@, doc0.nodes@[slot as int].value));
            assert(spec_nodes_extend(doc0.nodes@, doc.nodes@));
            assert(spec_entries_wf(doc.nodes@, es2)) by {
                assert forall|j: int| 0 <= j < es2.len() implies spec_child_wf(
                    doc.nodes@,
                    (#[trigger] es2[j]).child,
                ) by {
                    if 0 <= j < es0.len() && es2[j] == es0[j] {
                        lemma_entries_wf_index(doc0.nodes@, es0, j);
                        lemma_child_wf_extend(doc0.nodes@, doc.nodes@, es0[j].child);
                    } else {
                        lemma_child_wf_extend(doc0.nodes@, doc.nodes@, entry.child);
                    }
                }
                crate::object::lemma_entries_wf_build(doc.nodes@, es2);
            }
            assert(crate::object::spec_dict_keys_unique(es2)) by {
                match found {
                    Some(i) => {
                        assert(es2 =~= es0.update(i as int, entry));
                    },
                    None => {
                        assert(es2.drop_last() =~= es0);
                        assert(forall|j: int|
                            0 <= j < es0.len() ==> (#[trigger] es0[j]).key@ != k@);
                    },
                }
            }
            lemma_wf_after_value_update(doc0, *doc, slot as int);
            if spec_dict_has(es0, key@) {
                assert(es2.len() == es0.len());
            } else {
                assert(es2.take(es0.len() as int) =~= es0);
            }
        }
    }

    /// Removes the binding of `key`; a no-op when the key is absent.
    pub fn remove(&self, doc: &mut Qpdf, key: &str)
        requires
            old(doc).wf(),
            old(doc).valid(self.inner),
            old(doc).value_of(self.inner) is Dictionary,
        ensures
            final(doc).wf(),
            spec_same_meta(*old(doc), *final(doc)),
            final(doc).next_id == old(doc).next_id,
            spec_nodes_extend(old(doc).nodes@, final(doc).nodes@),
            forall|s: int|
                0 <= s < old(doc).nodes@.len() && s != self.inner.slot
                    ==> final(doc).nodes@[s] == old(doc).nodes@[s],
            old(doc).value_of(self.inner) matches QpdfValue::Dictionary(es) && (if !spec_dict_has(
                es@,
                key@,
            ) {
                *final(doc) == *old(doc)
            } else {
                final(doc).value_of(self.inner) matches QpdfValue::Dictionary(es2) && exists|
                    i: int,
                |
                    0 <= i < es@.len() && (#[trigger] es@[i]).key@ == key@ && es2@ == es@.remove(
                        i,
                    )
            }),
    {
        let k = key.to_owned();
        let found = self.find(doc, &k);
        let idx = match found {
            Some(i) => i,
            None => {
                return ;
            },
        };
        let ghost doc0 = *doc;
        let slot = self.inner.slot;
        let n = &mut doc.nodes[slot];
        match &mut n.value {
            QpdfValue::Dictionary(es) => {
                es.remove(idx);
            },
            _ => {
                proof {
                    assert(false);
                }
            },
        }
        proof {
            let es0 = doc0.value_of(self.inner)->Dictionary_0@;
            assert(doc.nodes@ == doc0.nodes@.update(slot as int, doc.nodes@[slot as int]));
            let es2 = doc.nodes@[slot as int].value->Dictionary_0@;
            assert(es2 == es0.remove(idx as int));
            assert(spec_value_wf(doc0.nodes@, doc0.nodes@[slot as int].value));
            assert(spec_nodes_extend(doc0.nodes@, doc.nodes@));
            assert(spec_entries_wf(doc.nodes@, es2)) by {
                assert forall|j: int| 0 <= j < es2.len() implies spec_child_wf(
                    doc.nodes@,
                    (#[trigger] es2[j]).child,
                ) by {
                    if j < idx {
                        assert(es2[j] == es0[j]);
                        lemma_entries_wf_index(doc0.nodes@, es0, j);
                        lemma_child_wf_extend(doc0.nodes@, doc.nodes@, es0[j].child);
                    } else {
                        assert(es2[j] == es0[j + 1]);
                        lemma_entries_wf_index(doc0.nodes@, es0, j + 1);
                        lemma_child_wf_extend(doc0.nodes@, doc.nodes@, es0[j + 1].child);
                    }
                }
                crate::object::lemma_entries_wf_build(doc.nodes@, es2);
            }
            lemma_wf_after_value_update(doc0, *doc, slot as int);
        }
    }
}

/// The child a source handle maps to when stored: the shared reference
/// for an indirect object, a content-equal snapshot for a direct one.
pub open spec fn spec_child_from(doc: Qpdf, val: QpdfObject, c: QpdfChild) -> bool {
    if doc.node_of(val).id != 0 {
        c == QpdfChild::Ref(val.slot)
    } else {
        c matches QpdfChild::Val(w) && spec_value_like(doc.value_of(val), w)
    }
}

/// The index of the last pair carrying the key, if any.
pub open spec fn spec_pairs_last(pairs: Seq<(&str, QpdfObject)>, k: Seq<char>) -> Option<int>
    decreases pairs.len(),
{
    if pairs.len() == 0 {
        None
    } else if pairs.last().0@ == k {
        Some(pairs.len() - 1)
    } else {
        spec_pairs_last(pairs.drop_last(), k)
    }
}

/// A found last pair lies in range and carries the key.
pub proof fn lemma_pairs_last_range(pairs: Seq<(&str, QpdfObject)>, k: Seq<char>)
    ensures
        spec_pairs_last(pairs, k) matches Some(i) ==> (0 <= i < pairs.len() && pairs[i].0@ == k),
    decreases pairs.len(),
{
    if pairs.len() > 0 && pairs.last().0@ != k {
        lemma_pairs_last_range(pairs.drop_last(), k);
    }
}

/// The entry list a pair list builds: it binds exactly the pairs' keys,
/// each to the child made from the key's last pair — later pairs
/// overwrite earlier bindings.
pub open spec fn spec_entries_from_pairs(
    doc: Qpdf,
    pairs: Seq<(&str, QpdfObject)>,
    es: Seq<QpdfDictEntry>,
) -> bool {
    &&& forall|k: Seq<char>| #[trigger] spec_dict_has(es, k) <==> spec_pairs_last(pairs, k) is Some
    &&& forall|j: int|
        0 <= j < es.len() ==> ((#[trigger] spec_pairs_last(
            pairs,
            es[j].key@,
        )) matches Some(i) && spec_child_from(doc, pairs[i].1, es[j].child))
}

/// Binds every pair in order into an (initially empty) dictionary.
#[verifier::loop_isolation(false)]
#[verifier::rlimit(100)]
pub(crate) fn dict_set_pairs(doc: &mut Qpdf, dict: &QpdfDictionary, pairs: Vec<(&str, QpdfObject)>)
    requires
        old(doc).wf(),
        old(doc).valid(dict.inner),
        old(doc).value_of(dict.inner) matches QpdfValue::Dictionary(es0) && es0@ == Seq::<
            QpdfDictEntry,
        >::empty(),
        forall|i: int|
            0 <= i < pairs@.len() ==> old(doc).valid((#[trigger] pairs@[i]).1) && pairs@[i].1.slot
                != dict.inner.slot,
    ensures
        final(doc).wf(),
        spec_same_meta(*old(doc), *final(doc)),
        final(doc).next_id == old(doc).next_id,
        spec_nodes_extend(old(doc).nodes@, final(doc).nodes@),
        final(doc).nodes@.len() == old(doc).nodes@.len(),
        forall|s: int|
            0 <= s < old(doc).nodes@.len() && s != dict.inner.slot ==> final(doc).nodes@[s] == old(
                doc,
            ).nodes@[s],
        final(doc).value_of(dict.inner) matches QpdfValue::Dictionary(es)
            && spec_entries_from_pairs(*old(doc), pairs@, es@),
{
    let mut i: usize = 0;
    while i < pairs.len()
        invariant
            i <= pairs@.len(),
            doc.wf(),
            spec_same_meta(*old(doc), *doc),
            doc.next_id == old(doc).next_id,
            spec_nodes_extend(old(doc).nodes@, doc.nodes@),
            doc.nodes@.len() == old(doc).nodes@.len(),
            forall|s: int|
                0 <= s < old(doc).nodes@.len() && s != dict.inner.slot ==> doc.nodes@[s] == old(
                    doc,
                ).nodes@[s],
            doc.value_of(dict.inner) matches QpdfValue::Dictionary(es)
                && spec_entries_from_pairs(*old(doc), pairs@.take(i as int), es@),
        decreases pairs@.len() - i,
    {
        let k: &str = pairs[i].0;
        let v = &pairs[i].1;
        let ghost mid = *doc;
        let ghost es_before = doc.value_of(dict.inner)->Dictionary_0@;
        dict.set(doc, k, v);
        proof {
            let p = pairs@[i as int];
            let es_after = doc.value_of(dict.inner)->Dictionary_0@;
            assert(mid.node_of(p.1) == old(doc).node_of(p.1));
            assert(mid.value_of(p.1) == old(doc).value_of(p.1));
            assert(pairs@.take(i + 1).drop_last() =~= pairs@.take(i as int));
            assert(pairs@.take(i + 1).last() == p);
            assert forall|k2: Seq<char>| #[trigger] spec_dict_has(es_after, k2)
                <==> spec_pairs_last(pairs@.take(i + 1), k2) is Some by {
                if k2 == p.0@ {
                    assert(spec_dict_has(es_after, k2)) by {
                        if spec_dict_has(es_before, k2) {
                            let j = choose|j: int|
                                0 <= j < es_before.len() && (#[trigger] es_before[j]).key@ == k2;
                            assert(es_after[j].key@ == k2);
                        } else {
                            assert(es_after.last().key@ == k2);
                        }
                    }
                } else {
                    if spec_dict_has(es_after, k2) {
                        let j = choose|j: int|
                            0 <= j < es_after.len() && (#[trigger] es_after[j]).key@ == k2;
                        if spec_dict_has(es_before, k2) {
                        } else {
                            assert(es_after.take(es_before.len() as int) =~= es_before);
                            assert(j < es_before.len());
                            assert(es_before[j].key@ == k2);
                        }
                    }
                    if spec_dict_has(es_before, k2) {
                        let j = choose|j: int|
                            0 <= j < es_before.len() && (#[trigger] es_before[j]).key@ == k2;
                        if spec_dict_has(es_before, p.0@) {
                            assert(es_after[j].key@ == k2);
                        } else {
                            assert(es_after[j] == es_before[j]);
                        }
                        assert(spec_dict_has(es_after, k2));
                    }
                }
            }
            assert forall|j: int| 0 <= j < es_after.len() implies ((#[trigger] spec_pairs_last(
                pairs@.take(i + 1),
                es_after[j].key@,
            )) matches Some(ix) && spec_child_from(
                *old(doc),
                pairs@.take(i + 1)[ix].1,
                es_after[j].child,
            )) by {
                let k2 = es_after[j].key@;
                if k2 == p.0@ {
                    assert(spec_pairs_last(pairs@.take(i + 1), k2) == Some(i as int));
                    assert(spec_child_from(*old(doc), p.1, es_after[j].child)) by {
                        if old(doc).node_of(p.1).id != 0 {
                            assert(es_after[j].child == QpdfChild::Ref(p.1.slot));
                        }
                    }
                } else {
                    if spec_dict_has(es_before, p.0@) {
                        assert(es_after[j].key@ == es_before[j].key@);
                        assert(es_after[j] == es_before[j]);
                    } else {
                        assert(es_after.take(es_before.len() as int) =~= es_before);
                        assert(es_after.last().key@ == p.0@);
                        assert(j < es_before.len());
                        assert(es_after[j] == es_before[j]);
                    }
                    assert((spec_pairs_last(pairs@.take(i as int), es_before[j].key@)) matches Some(
                        ix0,
                    ) && spec_child_from(
                        *old(doc),
                        pairs@.take(i as int)[ix0].1,
                        es_before[j].child,
                    ));
                    let ix0 = spec_pairs_last(pairs@.take(i as int), k2)->Some_0;
                    lemma_pairs_last_range(pairs@.take(i as int), k2);
                    assert(spec_pairs_last(pairs@.take(i + 1), k2) == spec_pairs_last(
                        pairs@.take(i as int),
                        k2,
                    ));
                    assert(pairs@.take(i + 1)[ix0] == pairs@.take(i as int)[ix0]);
                }
            }
        }
        i = i + 1;
    }
    proof {
        assert(pairs@.take(pairs@.len() as int) =~= pairs@);
    }
}

/// How far stream filters are reversed when stream bytes are extracted;
/// the levels are ordered, each reversing more than the one before.
#[derive(Clone, Copy, Debug, PartialEq, Eq, Structural)]
pub enum StreamDecodeLevel {
    /// Raw bytes, no filter reversal.
    Raw,
    /// Reverse generalized filters.
    Generalized,
    /// Reverse specialized filters too.
    Specialized,
    /// Reverse every filter.
    All,
}

impl QpdfStream {
    /// The stream's metadata dictionary: the same graph node the stream
    /// owns, so mutating it mutates the stream's own metadata.
    pub fn get_stream_dictionary(&self, doc: &Qpdf) -> (d: QpdfDictionary)
        requires
            doc.wf(),
            doc.valid(self.inner),
            doc.value_of(self.inner) is Stream,
        ensures
            doc.value_of(self.inner) matches QpdfValue::Stream { dict_slot, .. } && d.inner.slot
                == dict_slot,
            doc.valid(d.inner),
            doc.value_of(d.inner) is Dictionary,
            !doc.indirect(d.inner),
    {
        proof {
            assert(spec_value_wf(doc.nodes@, doc.nodes@[self.inner.slot as int].value));
        }
        match &doc.nodes[self.inner.slot].value {
            QpdfValue::Stream { dict_slot, .. } => QpdfDictionary {
                inner: QpdfObject { slot: *dict_slot },
            },
            _ => QpdfDictionary { inner: QpdfObject { slot: 0 } },
        }
    }

    /// The stream's payload, decoded to the requested level. This library
    /// stores payloads unfiltered, so any level returns the raw bytes;
    /// when the metadata declares a `/Filter` and reversal is requested,
    /// the filter chain is unsupported and decoding fails.
    pub fn get_stream_data(&self, doc: &Qpdf, level: StreamDecodeLevel) -> (r: Result<
        Vec<u8>,
        QpdfError,
    >)
        requires
            doc.wf(),
            doc.valid(self.inner),
            doc.value_of(self.inner) is Stream,
        ensures
            doc.value_of(self.inner) matches QpdfValue::Stream { dict_slot, data } && (doc.nodes@[dict_slot as int].value matches QpdfValue::Dictionary(es) && (if level
                != StreamDecodeLevel::Raw && spec_dict_has(es@, "/Filter"@) {
                r == Err::<Vec<u8>, QpdfError>(QpdfError::DecodeError)
            } else {
                r matches Ok(b) && b@ == data@
            })),
    {
        proof {
            assert(spec_value_wf(doc.nodes@, doc.nodes@[self.inner.slot as int].value));
        }
        let dict = self.get_stream_dictionary(doc);
        if !matches!(level, StreamDecodeLevel::Raw) && dict.has(doc, "/Filter") {
            return Err(QpdfError::DecodeError);
        }
        match &doc.nodes[self.inner.slot].value {
            QpdfValue::Stream { data, .. } => {
                let b = data.clone();
                proof {
                    assert(b@ =~= data@);
                }
                Ok(b)
            },
            _ => Err(QpdfError::DecodeError),
        }
    }
}

impl Qpdf {
    /// The trailer dictionary of the document.
    pub fn get_trailer(&self) -> (d: QpdfDictionary)
        requires
            self.wf(),
        ensures
            d.inner.slot == self.trailer_slot,
            self.valid(d.inner),
            self.value_of(d.inner) is Dictionary,
    {
        QpdfDictionary { inner: QpdfObject { slot: self.trailer_slot } }
    }

    /// The root (catalog) dictionary of the document.
    pub fn get_root(&self) -> (d: QpdfDictionary)
        requires
            self.wf(),
        ensures
            d.inner.slot == self.root_slot,
            self.valid(d.inner),
            self.value_of(d.inner) is Dictionary,
    {
        QpdfDictionary { inner: QpdfObject { slot: self.root_slot } }
    }
}

/// Holds when, after a `set` of `key`, the entry list binds `key` to the
/// expected child: the given `Ref` when the source was indirect, a snapshot
/// like the source's value when it was direct.
pub open spec fn spec_set_child_is(
    es2: Seq<QpdfDictEntry>,
    key: Seq<char>,
    c: QpdfChild,
    doc: Qpdf,
    val: QpdfObject,
) -> bool {
    forall|j: int|
        0 <= j < es2.len() && (#[trigger] es2[j]).key@ == key ==> (if doc.node_of(val).id != 0 {
            es2[j].child == c
        } else {
            es2[j].child matches QpdfChild::Val(w) && spec_value_like(doc.value_of(val), w)
        })
}

} // verus!
