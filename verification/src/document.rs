use vstd::prelude::*;
use crate::error::QpdfError;
use crate::object::QpdfChild;
use crate::object::QpdfDictEntry;
use crate::object::QpdfNode;
use crate::object::QpdfObject;
use crate::object::QpdfObjectType;
use crate::object::QpdfValue;
use crate::object::clone_value;
use crate::object::lemma_value_like_wf;
use crate::object::lemma_value_wf_extend;
use crate::object::spec_nodes_extend;
use crate::object::spec_value_like;
use crate::object::spec_value_wf;
use crate::object::spec_child_wf;
use crate::object::spec_entries_wf;
use crate::render::render_value;
use crate::render::push_ref_text;
use crate::render::spec_ref_text;
use crate::render::spec_render_value;
use vstd::string::StringSliceAdditionalSpecFns;
use vstd::string::StrSliceExecFns;
use vstd::slice::slice_to_vec;

verus! {

/// A document session: the owner of one object graph.
///
/// The graph is a growing list of nodes; a handle names a node by index.
/// Nodes with `id != 0` are indirect and addressable as `(id, gen)`; nodes
/// with `id == 0` are direct. The fields are public so that specifications
/// can speak about them; treat them as read-only outside this crate.
#[derive(Debug)]
pub struct Qpdf {
    /// The object graph's storage; grows, never shrinks.
    pub nodes: Vec<QpdfNode>,
    /// The next unused object id.
    pub next_id: u32,
    /// The document's format version text.
    pub version: String,
    /// Whether the document was read from linearized bytes.
    pub linearized: bool,
    /// Slot of the trailer dictionary (direct).
    pub trailer_slot: usize,
    /// Slot of the root (catalog) dictionary (indirect).
    pub root_slot: usize,
    /// Slot of the page-tree root dictionary (indirect).
    pub pages_slot: usize,
}

impl Qpdf {
    /// The document invariant: ids are below `next_id` and unique among
    /// indirect nodes, every stored value is well-formed with respect to the
    /// graph, streams are always indirect, and the three distinguished slots
    /// hold what they promise.
    pub open spec fn wf(&self) -> bool {
        &&& 1 <= self.next_id
        &&& forall|i: int|
            0 <= i < self.nodes@.len() ==> (#[trigger] self.nodes@[i]).id < self.next_id
        &&& forall|i: int|
            0 <= i < self.nodes@.len() ==> ((#[trigger] self.nodes@[i]).id == 0
                ==> self.nodes@[i].gen == 0)
        &&& forall|i: int, j: int|
            #![trigger self.nodes@[i], self.nodes@[j]]
            0 <= i < self.nodes@.len() && 0 <= j < self.nodes@.len() && i != j
                && self.nodes@[i].id != 0 && self.nodes@[j].id != 0 ==> !(self.nodes@[i].id
                == self.nodes@[j].id && self.nodes@[i].gen == self.nodes@[j].gen)
        &&& forall|i: int|
            0 <= i < self.nodes@.len() ==> spec_value_wf(
                self.nodes@,
                (#[trigger] self.nodes@[i]).value,
            )
        &&& forall|i: int|
            0 <= i < self.nodes@.len() ==> ((#[trigger] self.nodes@[i]).value is Stream
                ==> self.nodes@[i].id != 0)
        &&& self.trailer_slot < self.nodes@.len()
        &&& self.nodes@[self.trailer_slot as int].value is Dictionary
        &&& self.nodes@[self.trailer_slot as int].id == 0
        &&& self.root_slot < self.nodes@.len()
        &&& self.nodes@[self.root_slot as int].value is Dictionary
        &&& self.nodes@[self.root_slot as int].id != 0
        &&& self.pages_slot < self.nodes@.len()
        &&& self.nodes@[self.pages_slot as int].value is Dictionary
        &&& self.nodes@[self.pages_slot as int].id != 0
    }

    /// A handle is valid for this document when it names one of its nodes.
    pub open spec fn valid(&self, h: QpdfObject) -> bool {
        h.slot < self.nodes@.len()
    }

    /// The node a handle names.
    pub open spec fn node_of(&self, h: QpdfObject) -> QpdfNode {
        self.nodes@[h.slot as int]
    }

    /// The value a handle names.
    pub open spec fn value_of(&self, h: QpdfObject) -> QpdfValue {
        self.node_of(h).value
    }

    /// The type of the object a handle names.
    pub open spec fn type_of(&self, h: QpdfObject) -> QpdfObjectType {
        self.value_of(h).spec_type()
    }

    /// Whether a handle names an indirect node.
    pub open spec fn indirect(&self, h: QpdfObject) -> bool {
        self.node_of(h).id != 0
    }

    /// The text a handle unparses to: an indirect object reads as its
    /// `"id gen R"` reference, a direct object shows its value.
    pub open spec fn spec_unparse(&self, h: QpdfObject, binary: bool) -> Seq<char> {
        if self.node_of(h).id != 0 {
            spec_ref_text(self.node_of(h).id, self.node_of(h).gen)
        } else {
            spec_render_value(self.nodes@, self.value_of(h), binary)
        }
    }
}

/// What every graph operation leaves untouched: the document's metadata and
/// distinguished slots.
pub open spec fn spec_same_meta(a: Qpdf, b: Qpdf) -> bool {
    &&& a.version == b.version
    &&& a.linearized == b.linearized
    &&& a.trailer_slot == b.trailer_slot
    &&& a.root_slot == b.root_slot
    &&& a.pages_slot == b.pages_slot
}

impl Qpdf {
    /// Appends a fresh direct node holding `v` and returns its handle.
    #[verifier::loop_isolation(false)]
    pub(crate) fn alloc_direct(&mut self, v: QpdfValue) -> (h: QpdfObject)
        requires
            old(self).wf(),
            spec_value_wf(old(self).nodes@, v),
            !(v is Stream),
        ensures
            final(self).wf(),
            spec_same_meta(*old(self), *final(self)),
            final(self).next_id == old(self).next_id,
            final(self).nodes@ == old(self).nodes@.push(QpdfNode { id: 0, gen: 0, value: v }),
            h.slot == old(self).nodes@.len(),
            final(self).valid(h),
            !final(self).indirect(h),
            final(self).value_of(h) == v,
            spec_nodes_extend(old(self).nodes@, final(self).nodes@),
    {
        let h = QpdfObject { slot: self.nodes.len() };
        let ghost nodes0 = self.nodes@;
        self.nodes.push(QpdfNode { id: 0, gen: 0, value: v });
        proof {
            assert(spec_nodes_extend(nodes0, self.nodes@));
            assert forall|i: int| 0 <= i < self.nodes@.len() implies spec_value_wf(
                self.nodes@,
                (#[trigger] self.nodes@[i]).value,
            ) by {
                if i < nodes0.len() {
                    lemma_value_wf_extend(nodes0, self.nodes@, nodes0[i].value);
                } else {
                    lemma_value_wf_extend(nodes0, self.nodes@, v);
                }
            }
        }
        h
    }

    /// Appends a fresh indirect node holding `v`, bound to the next unused
    /// `(id, 0)` pair, and returns its handle.
    #[verifier::loop_isolation(false)]
    pub(crate) fn alloc_indirect(&mut self, v: QpdfValue) -> (h: QpdfObject)
        requires
            old(self).wf(),
            spec_value_wf(old(self).nodes@, v),
            old(self).next_id < 0xffff_ffff_u32,
        ensures
            final(self).wf(),
            spec_same_meta(*old(self), *final(self)),
            final(self).next_id == old(self).next_id + 1,
            final(self).nodes@ == old(self).nodes@.push(
                QpdfNode { id: old(self).next_id, gen: 0, value: v },
            ),
            h.slot == old(self).nodes@.len(),
            final(self).valid(h),
            final(self).node_of(h).id == old(self).next_id,
            final(self).node_of(h).gen == 0,
            final(self).value_of(h) == v,
            spec_nodes_extend(old(self).nodes@, final(self).nodes@),
    {
        let h = QpdfObject { slot: self.nodes.len() };
        let ghost nodes0 = self.nodes@;
        let id = self.next_id;
        self.nodes.push(QpdfNode { id, gen: 0, value: v });
        self.next_id = self.next_id + 1;
        proof {
            assert(spec_nodes_extend(nodes0, self.nodes@));
            assert forall|i: int| 0 <= i < self.nodes@.len() implies spec_value_wf(
                self.nodes@,
                (#[trigger] self.nodes@[i]).value,
            ) by {
                if i < nodes0.len() {
                    lemma_value_wf_extend(nodes0, self.nodes@, nodes0[i].value);
                } else {
                    lemma_value_wf_extend(nodes0, self.nodes@, v);
                }
            }
        }
        h
    }

    /// Creates an empty document: a catalog whose `/Pages` names an empty
    /// page tree, and a trailer naming the catalog as `/Root`. The catalog
    /// and the page tree take object ids 1 and 2, so the next unused id
    /// is 3.
    pub fn empty() -> (r: Qpdf)
        ensures
            r.wf(),
            r.version@ == "1.3"@,
            !r.linearized,
            r.next_id == 3,
            r.nodes@.len() == 3,
            r.root_slot == 0,
            r.pages_slot == 1,
            r.trailer_slot == 2,
            r.nodes@[0].id == 1 && r.nodes@[0].gen == 0,
            r.nodes@[1].id == 2 && r.nodes@[1].gen == 0,
            r.nodes@[2].id == 0,
            r.nodes@[2].value matches QpdfValue::Dictionary(es) && es@.len() == 2 && es@[0].key@
                == "/Root"@ && es@[1].key@ == "/Size"@,
    {
        let mut cat: Vec<QpdfDictEntry> = Vec::new();
        cat.push(
            QpdfDictEntry {
                key: "/Type".to_owned(),
                child: QpdfChild::Val(QpdfValue::Name("/Catalog".to_owned())),
            },
        );
        cat.push(QpdfDictEntry { key: "/Pages".to_owned(), child: QpdfChild::Ref(1) });

        let mut pgs: Vec<QpdfDictEntry> = Vec::new();
        pgs.push(
            QpdfDictEntry {
                key: "/Type".to_owned(),
                child: QpdfChild::Val(QpdfValue::Name("/Pages".to_owned())),
            },
        );
        let kids: Vec<QpdfChild> = Vec::new();
        pgs.push(QpdfDictEntry { key: "/Kids".to_owned(), child: QpdfChild::Val(QpdfValue::Array(kids)) });
        pgs.push(QpdfDictEntry { key: "/Count".to_owned(), child: QpdfChild::Val(QpdfValue::Integer(0)) });

        let mut tr: Vec<QpdfDictEntry> = Vec::new();
        tr.push(QpdfDictEntry { key: "/Root".to_owned(), child: QpdfChild::Ref(0) });
        tr.push(QpdfDictEntry { key: "/Size".to_owned(), child: QpdfChild::Val(QpdfValue::Integer(3)) });

        let mut nodes: Vec<QpdfNode> = Vec::new();
        nodes.push(QpdfNode { id: 1, gen: 0, value: QpdfValue::Dictionary(cat) });
        nodes.push(QpdfNode { id: 2, gen: 0, value: QpdfValue::Dictionary(pgs) });
        nodes.push(QpdfNode { id: 0, gen: 0, value: QpdfValue::Dictionary(tr) });
        let r = Qpdf {
            nodes,
            next_id: 3,
            version: "1.3".to_owned(),
            linearized: false,
            trailer_slot: 2,
            root_slot: 0,
            pages_slot: 1,
        };
        proof {
            reveal_strlit("/Type");
            reveal_strlit("/Pages");
            reveal_strlit("/Kids");
            reveal_strlit("/Count");
            reveal_strlit("/Root");
            reveal_strlit("/Size");
            reveal_strlit("/Catalog");
            let ns = r.nodes@;
            assert(ns.len() == 3);
            let cs = cat@;
            assert(cs.drop_last() =~= seq![cs[0]]);
            assert(seq![cs[0]].drop_last() =~= Seq::<QpdfDictEntry>::empty());
            assert(spec_child_wf(ns, cs[0].child));
            assert(spec_child_wf(ns, cs[1].child));
            assert(crate::object::spec_entries_wf(ns, Seq::<QpdfDictEntry>::empty()));
            assert(crate::object::spec_entries_wf(ns, seq![cs[0]]));
            assert(crate::object::spec_entries_wf(ns, cs));
            assert forall|i: int, j: int|
                0 <= i < cs.len() && 0 <= j < cs.len() && i != j implies cs[i].key@
                != cs[j].key@ by {
                assert("/Type"@.len() == 5 && "/Pages"@.len() == 6);
            }
            assert(crate::object::spec_dict_keys_unique(cs));
            assert(spec_value_wf(ns, ns[0].value));
            let ps = pgs@;
            assert(ps.drop_last() =~= seq![ps[0], ps[1]]);
            assert(seq![ps[0], ps[1]].drop_last() =~= seq![ps[0]]);
            assert(seq![ps[0]].drop_last() =~= Seq::<QpdfDictEntry>::empty());
            assert(ps[1].child matches QpdfChild::Val(v) && spec_value_wf(ns, v));
            assert(spec_child_wf(ns, ps[0].child));
            assert(spec_child_wf(ns, ps[1].child));
            assert(spec_child_wf(ns, ps[2].child));
            assert(crate::object::spec_entries_wf(ns, Seq::<QpdfDictEntry>::empty()));
            assert(crate::object::spec_entries_wf(ns, seq![ps[0]]));
            assert(crate::object::spec_entries_wf(ns, seq![ps[0], ps[1]]));
            assert(crate::object::spec_entries_wf(ns, ps));
            assert forall|i: int, j: int|
                0 <= i < ps.len() && 0 <= j < ps.len() && i != j implies ps[i].key@
                != ps[j].key@ by {
                assert("/Type"@[1] == 'T');
                assert("/Kids"@[1] == 'K');
                assert("/Type"@.len() == 5 && "/Kids"@.len() == 5 && "/Count"@.len() == 6);
            }
            assert(crate::object::spec_dict_keys_unique(ps));
            assert(spec_value_wf(ns, ns[1].value));
            let ts = tr@;
            assert(ts.drop_last() =~= seq![ts[0]]);
            assert(seq![ts[0]].drop_last() =~= Seq::<QpdfDictEntry>::empty());
            assert(spec_child_wf(ns, ts[0].child));
            assert(spec_child_wf(ns, ts[1].child));
            assert(crate::object::spec_entries_wf(ns, Seq::<QpdfDictEntry>::empty()));
            assert(crate::object::spec_entries_wf(ns, seq![ts[0]]));
            assert(crate::object::spec_entries_wf(ns, ts));
            assert forall|i: int, j: int|
                0 <= i < ts.len() && 0 <= j < ts.len() && i != j implies ts[i].key@
                != ts[j].key@ by {
                assert("/Root"@[1] == 'R');
                assert("/Size"@[1] == 'S');
            }
            assert(crate::object::spec_dict_keys_unique(ts));
            assert(spec_value_wf(ns, ns[2].value));
            assert(r.wf());
        }
        r
    }

    /// Creates a fresh null object.
    pub fn new_null(&mut self) -> (h: QpdfObject)
        requires
            old(self).wf(),
        ensures
            final(self).wf(),
            spec_same_meta(*old(self), *final(self)),
            final(self).next_id == old(self).next_id,
            final(self).nodes@ == old(self).nodes@.push(
                QpdfNode { id: 0, gen: 0, value: QpdfValue::Null },
            ),
            h.slot == old(self).nodes@.len(),
            final(self).value_of(h) == QpdfValue::Null,
            !final(self).indirect(h),
    {
        self.alloc_direct(QpdfValue::Null)
    }

    /// Creates a fresh boolean object.
    pub fn new_bool(&mut self, value: bool) -> (h: QpdfObject)
        requires
            old(self).wf(),
        ensures
            final(self).wf(),
            spec_same_meta(*old(self), *final(self)),
            final(self).next_id == old(self).next_id,
            final(self).nodes@ == old(self).nodes@.push(
                QpdfNode { id: 0, gen: 0, value: QpdfValue::Boolean(value) },
            ),
            h.slot == old(self).nodes@.len(),
            final(self).value_of(h) == QpdfValue::Boolean(value),
            !final(self).indirect(h),
    {
        self.alloc_direct(QpdfValue::Boolean(value))
    }

    /// Creates a fresh integer object.
    pub fn new_integer(&mut self, value: i64) -> (h: QpdfObject)
        requires
            old(self).wf(),
        ensures
            final(self).wf(),
            spec_same_meta(*old(self), *final(self)),
            final(self).next_id == old(self).next_id,
            final(self).nodes@ == old(self).nodes@.push(
                QpdfNode { id: 0, gen: 0, value: QpdfValue::Integer(value) },
            ),
            h.slot == old(self).nodes@.len(),
            final(self).value_of(h) == QpdfValue::Integer(value),
            !final(self).indirect(h),
    {
        self.alloc_direct(QpdfValue::Integer(value))
    }

    /// Creates a fresh uninitialized object.
    pub fn new_uninitialized(&mut self) -> (h: QpdfObject)
        requires
            old(self).wf(),
        ensures
            final(self).wf(),
            spec_same_meta(*old(self), *final(self)),
            final(self).next_id == old(self).next_id,
            final(self).nodes@ == old(self).nodes@.push(
                QpdfNode { id: 0, gen: 0, value: QpdfValue::Uninitialized },
            ),
            h.slot == old(self).nodes@.len(),
            final(self).valid(h),
            final(self).value_of(h) == QpdfValue::Uninitialized,
            !final(self).indirect(h),
    {
        self.alloc_direct(QpdfValue::Uninitialized)
    }

    /// Creates a fresh name object; the text is kept as given.
    pub fn new_name(&mut self, name: &str) -> (h: QpdfObject)
        requires
            old(self).wf(),
        ensures
            final(self).wf(),
            spec_same_meta(*old(self), *final(self)),
            final(self).next_id == old(self).next_id,
            spec_nodes_extend(old(self).nodes@, final(self).nodes@),
            final(self).nodes@ == old(self).nodes@.push(final(self).node_of(h)),
            final(self).node_of(h).id == 0 && final(self).node_of(h).gen == 0,
            final(self).nodes@.len() == old(self).nodes@.len() + 1,
            h.slot == old(self).nodes@.len(),
            final(self).value_of(h) matches QpdfValue::Name(s) && s@ == name@,
            !final(self).indirect(h),
    {
        self.alloc_direct(QpdfValue::Name(name.to_owned()))
    }

    /// Creates a fresh string object from UTF-8 text, stored as its raw
    /// bytes.
    pub fn new_string(&mut self, value: &str) -> (h: QpdfObject)
        requires
            old(self).wf(),
        ensures
            final(self).wf(),
            spec_same_meta(*old(self), *final(self)),
            final(self).next_id == old(self).next_id,
            spec_nodes_extend(old(self).nodes@, final(self).nodes@),
            final(self).nodes@ == old(self).nodes@.push(final(self).node_of(h)),
            final(self).node_of(h).id == 0 && final(self).node_of(h).gen == 0,
            final(self).nodes@.len() == old(self).nodes@.len() + 1,
            h.slot == old(self).nodes@.len(),
            final(self).value_of(h) matches QpdfValue::Str(b) && b@ == value.spec_bytes(),
            !final(self).indirect(h),
    {
        self.alloc_direct(QpdfValue::Str(value.as_bytes_vec()))
    }

    /// Creates a fresh string object from raw bytes.
    pub fn new_binary_string(&mut self, value: &[u8]) -> (h: QpdfObject)
        requires
            old(self).wf(),
        ensures
            final(self).wf(),
            spec_same_meta(*old(self), *final(self)),
            final(self).next_id == old(self).next_id,
            spec_nodes_extend(old(self).nodes@, final(self).nodes@),
            final(self).nodes@ == old(self).nodes@.push(final(self).node_of(h)),
            final(self).node_of(h).id == 0 && final(self).node_of(h).gen == 0,
            final(self).nodes@.len() == old(self).nodes@.len() + 1,
            h.slot == old(self).nodes@.len(),
            final(self).value_of(h) matches QpdfValue::Str(b) && b@ == value@,
            !final(self).indirect(h),
    {
        self.alloc_direct(QpdfValue::Str(slice_to_vec(value)))
    }

    /// Creates a fresh empty array object.
    pub fn new_array(&mut self) -> (h: QpdfObject)
        requires
            old(self).wf(),
        ensures
            final(self).wf(),
            spec_same_meta(*old(self), *final(self)),
            final(self).next_id == old(self).next_id,
            spec_nodes_extend(old(self).nodes@, final(self).nodes@),
            final(self).nodes@ == old(self).nodes@.push(final(self).node_of(h)),
            final(self).node_of(h).id == 0 && final(self).node_of(h).gen == 0,
            final(self).nodes@.len() == old(self).nodes@.len() + 1,
            h.slot == old(self).nodes@.len(),
            final(self).value_of(h) matches QpdfValue::Array(cs) && cs@ == Seq::<
                QpdfChild,
            >::empty(),
            !final(self).indirect(h),
    {
        let cs: Vec<QpdfChild> = Vec::new();
        self.alloc_direct(QpdfValue::Array(cs))
    }

    /// Creates a fresh empty dictionary object.
    pub fn new_dictionary(&mut self) -> (h: QpdfObject)
        requires
            old(self).wf(),
        ensures
            final(self).wf(),
            spec_same_meta(*old(self), *final(self)),
            final(self).next_id == old(self).next_id,
            spec_nodes_extend(old(self).nodes@, final(self).nodes@),
            final(self).nodes@ == old(self).nodes@.push(final(self).node_of(h)),
            final(self).node_of(h).id == 0 && final(self).node_of(h).gen == 0,
            final(self).nodes@.len() == old(self).nodes@.len() + 1,
            h.slot == old(self).nodes@.len(),
            final(self).value_of(h) matches QpdfValue::Dictionary(es) && es@ == Seq::<
                QpdfDictEntry,
            >::empty(),
            !final(self).indirect(h),
    {
        let es: Vec<QpdfDictEntry> = Vec::new();
        self.alloc_direct(QpdfValue::Dictionary(es))
    }

    /// Creates a fresh stream object with an empty metadata dictionary and
    /// the given payload. A stream is indirect from birth.
    pub fn new_stream(&mut self, data: &[u8]) -> (h: QpdfObject)
        requires
            old(self).wf(),
            old(self).next_id < 0xffff_ffff_u32,
        ensures
            final(self).wf(),
            spec_same_meta(*old(self), *final(self)),
            final(self).next_id == old(self).next_id + 1,
            spec_nodes_extend(old(self).nodes@, final(self).nodes@),
            final(self).nodes@ == old(self).nodes@.push(final(self).nodes@[h.slot - 1]).push(
                final(self).node_of(h),
            ),
            final(self).nodes@[h.slot - 1].id == 0,
            final(self).nodes@[h.slot - 1].value matches QpdfValue::Dictionary(es) && es@
                == Seq::<QpdfDictEntry>::empty(),
            final(self).nodes@.len() == old(self).nodes@.len() + 2,
            h.slot == old(self).nodes@.len() + 1,
            final(self).value_of(h) matches QpdfValue::Stream { dict_slot, data: b } && dict_slot
                == old(self).nodes@.len() && b@ == data@,
            final(self).node_of(h).id == old(self).next_id,
            final(self).node_of(h).gen == 0,
            final(self).indirect(h),
    {
        let es: Vec<QpdfDictEntry> = Vec::new();
        let dict_h = self.alloc_direct(QpdfValue::Dictionary(es));
        self.alloc_indirect(QpdfValue::Stream { dict_slot: dict_h.slot, data: slice_to_vec(data) })
    }

    /// Resolves an indirect reference: the handle of the node addressed as
    /// `(id, gen)`, or `None` when no such object exists. Direct objects
    /// (`id == 0`) are not addressable.
    pub fn get_object_by_id(&self, id: u32, gen: u32) -> (r: Option<QpdfObject>)
        ensures
            match r {
                Some(h) => self.valid(h) && id != 0 && self.node_of(h).id == id && self.node_of(
                    h,
                ).gen == gen,
                None => forall|i: int|
                    0 <= i < self.nodes@.len() ==> !((#[trigger] self.nodes@[i]).id == id
                        && self.nodes@[i].gen == gen && self.nodes@[i].id != 0),
            },
    {
        if id == 0 {
            return None;
        }
        let mut i: usize = 0;
        while i < self.nodes.len()
            invariant
                i <= self.nodes@.len(),
                id != 0,
                forall|j: int|
                    0 <= j < i ==> !((#[trigger] self.nodes@[j]).id == id && self.nodes@[j].gen
                        == gen && self.nodes@[j].id != 0),
            decreases self.nodes@.len() - i,
        {
            let n = &self.nodes[i];
            if n.id == id && n.gen == gen {
                return Some(QpdfObject { slot: i });
            }
            i = i + 1;
        }
        None
    }

    /// The document's format version text.
    pub fn get_pdf_version(&self) -> (r: String)
        ensures
            r@ == self.version@,
    {
        self.version.clone()
    }

    /// Whether the document was read from linearized bytes.
    pub fn is_linearized(&self) -> (r: bool)
        ensures
            r == self.linearized,
    {
        self.linearized
    }
}

impl QpdfObject {
    /// The type of the object this handle names; total, also on
    /// uninitialized objects.
    pub fn get_type(&self, doc: &Qpdf) -> (t: QpdfObjectType)
        requires
            doc.valid(*self),
        ensures
            t == doc.type_of(*self),
    {
        doc.nodes[self.slot].value.type_of()
    }

    /// True iff this is a boolean object.
    pub fn is_bool(&self, doc: &Qpdf) -> (r: bool)
        requires
            doc.valid(*self),
        ensures
            r == (doc.type_of(*self) == QpdfObjectType::Boolean),
    {
        matches!(self.get_type(doc), QpdfObjectType::Boolean)
    }

    /// True iff this is a real object.
    pub fn is_real(&self, doc: &Qpdf) -> (r: bool)
        requires
            doc.valid(*self),
        ensures
            r == (doc.type_of(*self) == QpdfObjectType::Real),
    {
        matches!(self.get_type(doc), QpdfObjectType::Real)
    }

    /// True iff this is an array object.
    pub fn is_array(&self, doc: &Qpdf) -> (r: bool)
        requires
            doc.valid(*self),
        ensures
            r == (doc.type_of(*self) == QpdfObjectType::Array),
    {
        matches!(self.get_type(doc), QpdfObjectType::Array)
    }

    /// True iff this is a name object.
    pub fn is_name(&self, doc: &Qpdf) -> (r: bool)
        requires
            doc.valid(*self),
        ensures
            r == (doc.type_of(*self) == QpdfObjectType::Name),
    {
        matches!(self.get_type(doc), QpdfObjectType::Name)
    }

    /// True iff this is a string object.
    pub fn is_string(&self, doc: &Qpdf) -> (r: bool)
        requires
            doc.valid(*self),
        ensures
            r == (doc.type_of(*self) == QpdfObjectType::String),
    {
        matches!(self.get_type(doc), QpdfObjectType::String)
    }

    /// True iff this is an operator object.
    pub fn is_operator(&self, doc: &Qpdf) -> (r: bool)
        requires
            doc.valid(*self),
        ensures
            r == (doc.type_of(*self) == QpdfObjectType::Operator),
    {
        matches!(self.get_type(doc), QpdfObjectType::Operator)
    }

    /// True iff this is a null object.
    pub fn is_null(&self, doc: &Qpdf) -> (r: bool)
        requires
            doc.valid(*self),
        ensures
            r == (doc.type_of(*self) == QpdfObjectType::Null),
    {
        matches!(self.get_type(doc), QpdfObjectType::Null)
    }

    /// True iff this is a dictionary object.
    pub fn is_dictionary(&self, doc: &Qpdf) -> (r: bool)
        requires
            doc.valid(*self),
        ensures
            r == (doc.type_of(*self) == QpdfObjectType::Dictionary),
    {
        matches!(self.get_type(doc), QpdfObjectType::Dictionary)
    }

    /// True iff this is a stream object.
    pub fn is_stream(&self, doc: &Qpdf) -> (r: bool)
        requires
            doc.valid(*self),
        ensures
            r == (doc.type_of(*self) == QpdfObjectType::Stream),
    {
        matches!(self.get_type(doc), QpdfObjectType::Stream)
    }

    /// True iff this is an inline image object.
    pub fn is_inline_image(&self, doc: &Qpdf) -> (r: bool)
        requires
            doc.valid(*self),
        ensures
            r == (doc.type_of(*self) == QpdfObjectType::InlineImage),
    {
        matches!(self.get_type(doc), QpdfObjectType::InlineImage)
    }

    /// True iff this is a scalar object: boolean, integer, real, string or
    /// name.
    pub fn is_scalar(&self, doc: &Qpdf) -> (r: bool)
        requires
            doc.valid(*self),
        ensures
            r == doc.type_of(*self).spec_is_scalar(),
    {
        let t = self.get_type(doc);
        matches!(
            t,
            QpdfObjectType::Boolean | QpdfObjectType::Integer | QpdfObjectType::Real
                | QpdfObjectType::String | QpdfObjectType::Name
        )
    }

    /// True iff the object is initialized.
    pub fn is_initialized(&self, doc: &Qpdf) -> (r: bool)
        requires
            doc.valid(*self),
        ensures
            r == (doc.type_of(*self) != QpdfObjectType::Uninitialized),
    {
        !matches!(self.get_type(doc), QpdfObjectType::Uninitialized)
    }

    /// True iff this handle names an indirect object.
    pub fn is_indirect(&self, doc: &Qpdf) -> (r: bool)
        requires
            doc.valid(*self),
        ensures
            r == doc.indirect(*self),
    {
        doc.nodes[self.slot].id != 0
    }

    /// The object id; `0` for a direct object.
    pub fn get_id(&self, doc: &Qpdf) -> (r: u32)
        requires
            doc.valid(*self),
        ensures
            r == doc.node_of(*self).id,
    {
        doc.nodes[self.slot].id
    }

    /// The generation number; `0` for a direct object.
    pub fn get_generation(&self, doc: &Qpdf) -> (r: u32)
        requires
            doc.valid(*self),
        ensures
            r == doc.node_of(*self).gen,
    {
        doc.nodes[self.slot].gen
    }

    /// The boolean value; `TypeMismatch` on any other type.
    pub fn as_bool(&self, doc: &Qpdf) -> (r: Result<bool, QpdfError>)
        requires
            doc.valid(*self),
        ensures
            match doc.value_of(*self) {
                QpdfValue::Boolean(b) => r == Ok::<bool, QpdfError>(b),
                _ => r == Err::<bool, QpdfError>(QpdfError::TypeMismatch),
            },
    {
        match &doc.nodes[self.slot].value {
            QpdfValue::Boolean(b) => Ok(*b),
            _ => Err(QpdfError::TypeMismatch),
        }
    }

    /// The integer value; `TypeMismatch` on any other type.
    pub fn as_i64(&self, doc: &Qpdf) -> (r: Result<i64, QpdfError>)
        requires
            doc.valid(*self),
        ensures
            match doc.value_of(*self) {
                QpdfValue::Integer(i) => r == Ok::<i64, QpdfError>(i),
                _ => r == Err::<i64, QpdfError>(QpdfError::TypeMismatch),
            },
    {
        match &doc.nodes[self.slot].value {
            QpdfValue::Integer(i) => Ok(*i),
            _ => Err(QpdfError::TypeMismatch),
        }
    }

    /// The integer value narrowed to 32 bits by truncation; `TypeMismatch`
    /// on any other type.
    pub fn as_i32(&self, doc: &Qpdf) -> (r: Result<i32, QpdfError>)
        requires
            doc.valid(*self),
        ensures
            match doc.value_of(*self) {
                QpdfValue::Integer(i) => r == Ok::<i32, QpdfError>(i as i32),
                _ => r == Err::<i32, QpdfError>(QpdfError::TypeMismatch),
            },
    {
        match &doc.nodes[self.slot].value {
            QpdfValue::Integer(i) => Ok(#[verifier::truncate] (*i as i32)),
            _ => Err(QpdfError::TypeMismatch),
        }
    }

    /// The name's text; `TypeMismatch` on any other type.
    pub fn as_name(&self, doc: &Qpdf) -> (r: Result<String, QpdfError>)
        requires
            doc.valid(*self),
        ensures
            match doc.value_of(*self) {
                QpdfValue::Name(s) => r matches Ok(t) && t@ == s@,
                _ => r == Err::<String, QpdfError>(QpdfError::TypeMismatch),
            },
    {
        match &doc.nodes[self.slot].value {
            QpdfValue::Name(s) => Ok(s.clone()),
            _ => Err(QpdfError::TypeMismatch),
        }
    }

    /// The string's raw bytes, with explicit length; `TypeMismatch` on any
    /// other type.
    pub fn as_binary_string(&self, doc: &Qpdf) -> (r: Result<Vec<u8>, QpdfError>)
        requires
            doc.valid(*self),
        ensures
            match doc.value_of(*self) {
                QpdfValue::Str(b) => r matches Ok(v) && v@ == b@,
                _ => r == Err::<Vec<u8>, QpdfError>(QpdfError::TypeMismatch),
            },
    {
        match &doc.nodes[self.slot].value {
            QpdfValue::Str(b) => {
                let v = b.clone();
                proof {
                    assert(v@ =~= b@);
                }
                Ok(v)
            },
            _ => Err(QpdfError::TypeMismatch),
        }
    }


    /// The real's formatted decimal text; an integer widens to its decimal
    /// text; `TypeMismatch` on any other type.
    pub fn as_real(&self, doc: &Qpdf) -> (r: Result<String, QpdfError>)
        requires
            doc.valid(*self),
        ensures
            match doc.value_of(*self) {
                QpdfValue::Real(s) => r matches Ok(t) && t@ == s@,
                QpdfValue::Integer(i) => r matches Ok(t) && t@ == crate::render::spec_int_text(
                    i as int,
                ),
                _ => r == Err::<String, QpdfError>(QpdfError::TypeMismatch),
            },
    {
        match &doc.nodes[self.slot].value {
            QpdfValue::Real(s) => Ok(s.clone()),
            QpdfValue::Integer(i) => {
                let mut t = String::new();
                crate::render::push_i64_dec(&mut t, *i);
                Ok(t)
            },
            _ => Err(QpdfError::TypeMismatch),
        }
    }

    /// The string's decoded text: UTF-16BE behind a byte-order mark, each
    /// byte as the character with its code otherwise; `TypeMismatch` on any
    /// other type.
    pub fn as_string(&self, doc: &Qpdf) -> (r: Result<String, QpdfError>)
        requires
            doc.valid(*self),
        ensures
            match doc.value_of(*self) {
                QpdfValue::Str(b) => r matches Ok(t) && t@ == crate::render::spec_string_chars(b@),
                _ => r == Err::<String, QpdfError>(QpdfError::TypeMismatch),
            },
    {
        match &doc.nodes[self.slot].value {
            QpdfValue::Str(b) => Ok(crate::render::string_chars_decode(b.as_slice())),
            _ => Err(QpdfError::TypeMismatch),
        }
    }

    /// The page content bytes reachable from this page dictionary through
    /// its `/Contents` entry; `TypeMismatch` when the object is no page
    /// dictionary or `/Contents` does not lead to streams.
    #[verifier::loop_isolation(false)]
    #[verifier::rlimit(100)]
    pub fn get_page_content_data(&self, doc: &Qpdf) -> (r: Result<Vec<u8>, QpdfError>)
        requires
            doc.wf(),
            doc.valid(*self),
        ensures
            match spec_page_content(*doc, *self) {
                Some(b) => r matches Ok(v) && v@ == b,
                None => r == Err::<Vec<u8>, QpdfError>(QpdfError::TypeMismatch),
            },
    {
        let contents_key = "/Contents".to_owned();
        match &doc.nodes[self.slot].value {
            QpdfValue::Dictionary(es) => {
                let mut i: usize = 0;
                while i < es.len()
                    invariant
                        i <= es@.len(),
                        forall|j: int| 0 <= j < i ==> (#[trigger] es@[j]).key@ != "/Contents"@,
                        doc.value_of(*self) matches QpdfValue::Dictionary(es1) && es1@ == es@,
                    decreases es@.len() - i,
                {
                    if es[i].key == contents_key {
                        proof {
                            let es2 = es@;
                            let c = choose|c: int|
                                0 <= c < es2.len() && (#[trigger] es2[c]).key@ == "/Contents"@;
                            assert(spec_value_wf(doc.nodes@, doc.nodes@[self.slot as int].value));
                            assert(crate::object::spec_dict_keys_unique(es2));
                            assert(c == i);
                            crate::object::lemma_entries_wf_index(doc.nodes@, es@, i as int);
                        }
                        match &es[i].child {
                            QpdfChild::Ref(s) => {
                                match &doc.nodes[*s].value {
                                    QpdfValue::Stream { data, .. } => {
                                        let v = data.clone();
                                        proof {
                                            assert(v@ =~= data@);
                                        }
                                        return Ok(v);
                                    },
                                    QpdfValue::Array(cs) => {
                                        proof {
                                            assert(spec_value_wf(
                                                doc.nodes@,
                                                doc.nodes@[*s as int].value,
                                            ));
                                        }
                                        return concat_stream_children(doc, cs);
                                    },
                                    _ => {
                                        return Err(QpdfError::TypeMismatch);
                                    },
                                }
                            },
                            QpdfChild::Val(v) => {
                                match v {
                                    QpdfValue::Array(cs) => {
                                        proof {
                                            assert(crate::object::spec_child_wf(
                                                doc.nodes@,
                                                es@[i as int].child,
                                            ));
                                        }
                                        return concat_stream_children(doc, cs);
                                    },
                                    _ => {
                                        return Err(QpdfError::TypeMismatch);
                                    },
                                }
                            },
                        }
                    }
                    i = i + 1;
                }
                Err(QpdfError::TypeMismatch)
            },
            _ => Err(QpdfError::TypeMismatch),
        }
    }

    /// Unparses the object to its textual form: `"id gen R"` for an
    /// indirect object, the PDF object literal syntax for a direct one.
    pub fn to_string(&self, doc: &Qpdf) -> (r: String)
        requires
            doc.wf(),
            doc.valid(*self),
        ensures
            r@ == doc.spec_unparse(*self, false),
    {
        let mut out = String::new();
        let n = &doc.nodes[self.slot];
        if n.id != 0 {
            push_ref_text(&mut out, n.id, n.gen);
        } else {
            proof {
                assert(spec_value_wf(doc.nodes@, doc.nodes@[self.slot as int].value));
            }
            render_value(&doc.nodes, &n.value, false, &mut out);
        }
        out
    }

    /// Unparses the object to its binary textual form, in which strings
    /// always use the hexadecimal notation.
    pub fn to_binary(&self, doc: &Qpdf) -> (r: String)
        requires
            doc.wf(),
            doc.valid(*self),
        ensures
            r@ == doc.spec_unparse(*self, true),
    {
        let mut out = String::new();
        let n = &doc.nodes[self.slot];
        if n.id != 0 {
            push_ref_text(&mut out, n.id, n.gen);
        } else {
            proof {
                assert(spec_value_wf(doc.nodes@, doc.nodes@[self.slot as int].value));
            }
            render_value(&doc.nodes, &n.value, true, &mut out);
        }
        out
    }

    /// Makes the object indirect. On an already-indirect handle this is a
    /// no-op returning an equivalent handle, so the operation is idempotent;
    /// on a direct handle it copies the value into a fresh slot bound to the
    /// next unused `(id, 0)` pair. The original direct handle stays usable
    /// and is not linked to the copy.
    pub fn make_indirect(&self, doc: &mut Qpdf) -> (r: QpdfObject)
        requires
            old(doc).wf(),
            old(doc).valid(*self),
            old(doc).next_id < 0xffff_ffff_u32,
        ensures
            final(doc).wf(),
            spec_same_meta(*old(doc), *final(doc)),
            spec_nodes_extend(old(doc).nodes@, final(doc).nodes@),
            forall|s: int|
                0 <= s < old(doc).nodes@.len() ==> final(doc).nodes@[s] == old(doc).nodes@[s],
            final(doc).valid(r),
            final(doc).indirect(r),
            old(doc).indirect(*self) ==> *final(doc) == *old(doc) && r == *self,
            !old(doc).indirect(*self) ==> {
                &&& final(doc).nodes@.len() == old(doc).nodes@.len() + 1
                &&& r.slot == old(doc).nodes@.len()
                &&& final(doc).node_of(r).id == old(doc).next_id
                &&& final(doc).node_of(r).gen == 0
                &&& spec_value_like(old(doc).value_of(*self), final(doc).value_of(r))
                &&& final(doc).next_id == old(doc).next_id + 1
            },
    {
        if doc.nodes[self.slot].id != 0 {
            proof {
                crate::object::lemma_value_like_refl(doc.value_of(*self));
            }
            return QpdfObject { slot: self.slot };
        }
        let v = clone_value(&doc.nodes[self.slot].value);
        proof {
            assert(spec_value_wf(doc.nodes@, doc.nodes@[self.slot as int].value));
            lemma_value_like_wf(doc.nodes@, doc.nodes@[self.slot as int].value, v);
        }
        doc.alloc_indirect(v)
    }

    /// The handle-cloning operation: an indirect handle shares its node, so
    /// mutation through either handle is visible to the other; a direct
    /// handle gets an independent deep snapshot in a fresh slot.
    pub fn duplicate(&self, doc: &mut Qpdf) -> (r: QpdfObject)
        requires
            old(doc).wf(),
            old(doc).valid(*self),
        ensures
            final(doc).wf(),
            spec_same_meta(*old(doc), *final(doc)),
            final(doc).next_id == old(doc).next_id,
            spec_nodes_extend(old(doc).nodes@, final(doc).nodes@),
            forall|s: int|
                0 <= s < old(doc).nodes@.len() ==> final(doc).nodes@[s] == old(doc).nodes@[s],
            final(doc).valid(r),
            old(doc).indirect(*self) ==> *final(doc) == *old(doc) && r == *self,
            !old(doc).indirect(*self) ==> {
                &&& final(doc).nodes@.len() == old(doc).nodes@.len() + 1
                &&& r.slot == old(doc).nodes@.len()
                &&& r != *self
                &&& !final(doc).indirect(r)
                &&& spec_value_like(old(doc).value_of(*self), final(doc).value_of(r))
            },
    {
        if doc.nodes[self.slot].id != 0 {
            return QpdfObject { slot: self.slot };
        }
        let v = clone_value(&doc.nodes[self.slot].value);
        proof {
            assert(spec_value_wf(doc.nodes@, doc.nodes@[self.slot as int].value));
            lemma_value_like_wf(doc.nodes@, doc.nodes@[self.slot as int].value, v);
            assert(!(doc.nodes@[self.slot as int].value is Stream));
        }
        doc.alloc_direct(v)
    }
}

impl Qpdf {
    /// The kid list of the page tree: the children of the `/Kids` array of
    /// the page-tree root, when it has the expected shape.
    pub open spec fn spec_kids(&self) -> Option<Seq<QpdfChild>> {
        match self.nodes@[self.pages_slot as int].value {
            QpdfValue::Dictionary(es) => {
                if crate::views::spec_dict_has(es@, "/Kids"@) {
                    let i = choose|i: int|
                        0 <= i < es@.len() && (#[trigger] es@[i]).key@ == "/Kids"@;
                    match es@[i].child {
                        QpdfChild::Val(QpdfValue::Array(cs)) => Some(cs@),
                        _ => None,
                    }
                } else {
                    None
                }
            },
            _ => None,
        }
    }

    /// Creates a fresh real object whose value is `scaled / 10^decimals`,
    /// stored as formatted decimal text with exactly `decimals` fractional
    /// digits.
    pub fn new_real(&mut self, scaled: i64, decimals: u32) -> (h: QpdfObject)
        requires
            old(self).wf(),
            decimals <= 18,
        ensures
            final(self).wf(),
            spec_same_meta(*old(self), *final(self)),
            final(self).next_id == old(self).next_id,
            spec_nodes_extend(old(self).nodes@, final(self).nodes@),
            final(self).nodes@ == old(self).nodes@.push(final(self).node_of(h)),
            final(self).node_of(h).id == 0 && final(self).node_of(h).gen == 0,
            final(self).nodes@.len() == old(self).nodes@.len() + 1,
            h.slot == old(self).nodes@.len(),
            final(self).value_of(h) matches QpdfValue::Real(s) && s@ == crate::render::spec_real_text(
                scaled as int,
                decimals as nat,
            ),
            !final(self).indirect(h),
    {
        let text = crate::render::real_text(scaled, decimals);
        self.alloc_direct(QpdfValue::Real(text))
    }

    /// Creates a fresh string object from UTF-8 text, stored in UTF-16BE
    /// with a leading byte-order mark; reading it back as a binary string
    /// yields those bytes, not the UTF-8 bytes.
    pub fn new_utf8_string(&mut self, value: &str) -> (h: QpdfObject)
        requires
            old(self).wf(),
        ensures
            final(self).wf(),
            spec_same_meta(*old(self), *final(self)),
            final(self).next_id == old(self).next_id,
            spec_nodes_extend(old(self).nodes@, final(self).nodes@),
            final(self).nodes@ == old(self).nodes@.push(final(self).node_of(h)),
            final(self).node_of(h).id == 0 && final(self).node_of(h).gen == 0,
            final(self).nodes@.len() == old(self).nodes@.len() + 1,
            h.slot == old(self).nodes@.len(),
            final(self).value_of(h) matches QpdfValue::Str(b) && b@
                == crate::render::spec_utf16_bom(value@),
            !final(self).indirect(h),
    {
        self.alloc_direct(QpdfValue::Str(crate::render::utf16_bom_encode(value)))
    }

    /// Creates a fresh dictionary from key/value pairs; a later pair with
    /// the same key overwrites the earlier binding. Indirect values are
    /// stored shared, direct values as deep snapshots.
    pub fn new_dictionary_from(&mut self, pairs: Vec<(&str, QpdfObject)>) -> (d:
        crate::views::QpdfDictionary)
        requires
            old(self).wf(),
            forall|i: int| 0 <= i < pairs@.len() ==> old(self).valid((#[trigger] pairs@[i]).1),
        ensures
            final(self).wf(),
            spec_same_meta(*old(self), *final(self)),
            final(self).next_id == old(self).next_id,
            spec_nodes_extend(old(self).nodes@, final(self).nodes@),
            final(self).nodes@.len() == old(self).nodes@.len() + 1,
            forall|s: int|
                0 <= s < old(self).nodes@.len() ==> final(self).nodes@[s] == old(self).nodes@[s],
            d.inner.slot == old(self).nodes@.len(),
            !final(self).indirect(d.inner),
            final(self).value_of(d.inner) matches QpdfValue::Dictionary(es)
                && crate::views::spec_entries_from_pairs(*old(self), pairs@, es@),
    {
        let h = self.new_dictionary();
        let d = crate::views::QpdfDictionary { inner: h };
        let ghost mid = *self;
        crate::views::dict_set_pairs(self, &d, pairs);
        proof {
            assert forall|i: int|
                0 <= i < pairs@.len() implies crate::views::spec_child_from(
                mid,
                (#[trigger] pairs@[i]).1,
                QpdfChild::Ref(pairs@[i].1.slot),
            ) == crate::views::spec_child_from(
                *old(self),
                pairs@[i].1,
                QpdfChild::Ref(pairs@[i].1.slot),
            ) by {
                assert(mid.node_of(pairs@[i].1) == old(self).node_of(pairs@[i].1));
            }
            let es = self.value_of(d.inner)->Dictionary_0@;
            assert forall|j: int| 0 <= j < es.len() implies ((#[trigger] crate::views::spec_pairs_last(
                pairs@,
                es[j].key@,
            )) matches Some(i) && crate::views::spec_child_from(
                *old(self),
                pairs@[i].1,
                es[j].child,
            )) by {
                crate::views::lemma_pairs_last_range(pairs@, es[j].key@);
                let i = crate::views::spec_pairs_last(pairs@, es[j].key@)->Some_0;
                assert(mid.node_of(pairs@[i].1) == old(self).node_of(pairs@[i].1));
                assert(mid.value_of(pairs@[i].1) == old(self).value_of(pairs@[i].1));
            }
        }
        d
    }

    /// Creates a fresh stream with the given metadata entries and payload;
    /// the entries follow the same rules as `new_dictionary_from`.
    pub fn new_stream_with_dictionary(&mut self, pairs: Vec<(&str, QpdfObject)>, data: &[u8]) -> (h:
        QpdfObject)
        requires
            old(self).wf(),
            old(self).next_id < 0xffff_ffff_u32,
            forall|i: int| 0 <= i < pairs@.len() ==> old(self).valid((#[trigger] pairs@[i]).1),
        ensures
            final(self).wf(),
            spec_same_meta(*old(self), *final(self)),
            final(self).next_id == old(self).next_id + 1,
            spec_nodes_extend(old(self).nodes@, final(self).nodes@),
            final(self).nodes@.len() == old(self).nodes@.len() + 2,
            forall|s: int|
                0 <= s < old(self).nodes@.len() ==> final(self).nodes@[s] == old(self).nodes@[s],
            h.slot == old(self).nodes@.len() + 1,
            final(self).value_of(h) matches QpdfValue::Stream { dict_slot, data: b } && dict_slot
                == old(self).nodes@.len() && b@ == data@,
            final(self).indirect(h),
            final(self).node_of(h).id == old(self).next_id,
            final(self).node_of(h).gen == 0,
            final(self).nodes@[h.slot - 1].id == 0,
            final(self).nodes@[h.slot - 1].value matches QpdfValue::Dictionary(es)
                && crate::views::spec_entries_from_pairs(*old(self), pairs@, es@),
    {
        let h = self.new_stream(data);
        let dict = crate::views::QpdfDictionary { inner: QpdfObject { slot: h.slot - 1 } };
        let ghost mid = *self;
        crate::views::dict_set_pairs(self, &dict, pairs);
        proof {
            assert(self.nodes@[h.slot as int] == mid.nodes@[h.slot as int]);
            let es = self.nodes@[h.slot - 1].value->Dictionary_0@;
            assert forall|j: int| 0 <= j < es.len() implies ((#[trigger] crate::views::spec_pairs_last(
                pairs@,
                es[j].key@,
            )) matches Some(i) && crate::views::spec_child_from(
                *old(self),
                pairs@[i].1,
                es[j].child,
            )) by {
                crate::views::lemma_pairs_last_range(pairs@, es[j].key@);
                let i = crate::views::spec_pairs_last(pairs@, es[j].key@)->Some_0;
                assert(mid.node_of(pairs@[i].1) == old(self).node_of(pairs@[i].1));
                assert(mid.value_of(pairs@[i].1) == old(self).value_of(pairs@[i].1));
            }
        }
        h
    }


    /// Appends (or, with `first`, prepends) a page to the page tree's kid
    /// list. A direct page dictionary is made indirect first, as only
    /// indirect objects can be referenced from the tree.
    #[verifier::loop_isolation(false)]
    #[verifier::rlimit(100)]
    pub fn add_page(&mut self, page: &QpdfObject, first: bool) -> (r: Result<(), QpdfError>)
        requires
            old(self).wf(),
            old(self).valid(*page),
            old(self).next_id < 0xffff_ffff_u32,
        ensures
            final(self).wf(),
            spec_same_meta(*old(self), *final(self)),
            spec_nodes_extend(old(self).nodes@, final(self).nodes@),
            old(self).type_of(*page) != QpdfObjectType::Dictionary ==> (r == Err::<(), QpdfError>(
                QpdfError::TypeMismatch,
            ) && *final(self) == *old(self)),
            (old(self).type_of(*page) == QpdfObjectType::Dictionary && old(self).spec_kids()
                is None) ==> r == Err::<(), QpdfError>(QpdfError::TypeMismatch),
            (old(self).type_of(*page) == QpdfObjectType::Dictionary && old(self).spec_kids()
                is Some) ==> (r == Ok::<(), QpdfError>(()) && final(self).spec_kids() is Some && {
                let cs = old(self).spec_kids()->Some_0;
                let cs2 = final(self).spec_kids()->Some_0;
                let added = if first {
                    cs2[0]
                } else {
                    cs2.last()
                };
                &&& cs2.len() == cs.len() + 1
                &&& (if first {
                    cs2.skip(1) == cs
                } else {
                    cs2.take(cs.len() as int) == cs
                })
                &&& (if old(self).indirect(*page) {
                    added == QpdfChild::Ref(page.slot)
                } else {
                    added matches QpdfChild::Ref(s) && s == old(self).nodes@.len()
                })
            }),
    {
        if !page.is_dictionary(self) {
            return Err(QpdfError::TypeMismatch);
        }
        let ph = page.make_indirect(self);
        let ghost doc0 = *self;
        let kids_key = "/Kids".to_owned();
        let pslot = self.pages_slot;
        let idx = {
            let mut found: Option<usize> = None;
            match &self.nodes[pslot].value {
                QpdfValue::Dictionary(es) => {
                    let mut i: usize = 0;
                    while i < es.len()
                        invariant
                            i <= es@.len(),
                            forall|j: int| 0 <= j < i ==> (#[trigger] es@[j]).key@ != "/Kids"@,
                            found is None,
                            self.value_of(QpdfObject { slot: pslot }) matches
                                QpdfValue::Dictionary(es1) && es1@ == es@,
                        decreases es@.len() - i,
                    {
                        if es[i].key == kids_key {
                            proof {
                                let es2 = es@;
                                let c = choose|c: int|
                                    0 <= c < es2.len() && (#[trigger] es2[c]).key@ == "/Kids"@;
                                assert(spec_value_wf(
                                    self.nodes@,
                                    self.nodes@[pslot as int].value,
                                ));
                                assert(crate::object::spec_dict_keys_unique(es2));
                                assert(c == i);
                            }
                            found = Some(i);
                            break ;
                        }
                        i = i + 1;
                    }
                },
                _ => {
                    proof {
                        assert(false);
                    }
                },
            }
            match found {
                Some(i) => i,
                None => {
                    assert(!crate::views::spec_dict_has(
                        self.value_of(QpdfObject { slot: pslot })->Dictionary_0@,
                        "/Kids"@,
                    ));
                    return Err(QpdfError::TypeMismatch);
                },
            }
        };
        let shape_ok = match &self.nodes[pslot].value {
            QpdfValue::Dictionary(es) => matches!(
                &es[idx].child,
                QpdfChild::Val(QpdfValue::Array(..))
            ),
            _ => false,
        };
        if !shape_ok {
            proof {
                let es = self.value_of(QpdfObject { slot: pslot })->Dictionary_0@;
                let c = choose|c: int| 0 <= c < es.len() && (#[trigger] es[c]).key@ == "/Kids"@;
                assert(spec_value_wf(self.nodes@, self.nodes@[pslot as int].value));
                assert(crate::object::spec_dict_keys_unique(es));
                assert(c == idx);
            }
            return Err(QpdfError::TypeMismatch);
        }
        let n = &mut self.nodes[pslot];
        match &mut n.value {
            QpdfValue::Dictionary(es) => {
                let e = &mut es[idx];
                match &mut e.child {
                    QpdfChild::Val(v) => {
                        match v {
                            QpdfValue::Array(cs) => {
                                if first {
                                    cs.insert(0, QpdfChild::Ref(ph.slot));
                                } else {
                                    cs.push(QpdfChild::Ref(ph.slot));
                                }
                            },
                            _ => {
                                proof {
                                    assert(false);
                                }
                            },
                        }
                    },
                    _ => {
                        proof {
                            assert(false);
                        }
                    },
                }
            },
            _ => {
                proof {
                    assert(false);
                }
            },
        }
        proof {
            let es0 = doc0.value_of(QpdfObject { slot: pslot })->Dictionary_0@;
            let cs0 = es0[idx as int].child->Val_0->Array_0@;
            assert(self.nodes@ == doc0.nodes@.update(pslot as int, self.nodes@[pslot as int]));
            let es2 = self.nodes@[pslot as int].value->Dictionary_0@;
            let cs2 = es2[idx as int].child->Val_0->Array_0@;
            assert(es2 =~= es0.update(
                idx as int,
                QpdfDictEntry { key: es0[idx as int].key, child: es2[idx as int].child },
            ));
            assert(cs2 == if first {
                cs0.insert(0, QpdfChild::Ref(ph.slot))
            } else {
                cs0.push(QpdfChild::Ref(ph.slot))
            });
            assert(spec_value_wf(doc0.nodes@, doc0.nodes@[pslot as int].value));
            assert(spec_nodes_extend(doc0.nodes@, self.nodes@));
            crate::object::lemma_entries_wf_index(doc0.nodes@, es0, idx as int);
            assert(spec_child_wf(doc0.nodes@, es0[idx as int].child));
            assert(crate::object::spec_children_wf(doc0.nodes@, cs0));
            assert(crate::object::spec_children_wf(self.nodes@, cs2)) by {
                assert forall|j: int| 0 <= j < cs2.len() implies spec_child_wf(
                    self.nodes@,
                    #[trigger] cs2[j],
                ) by {
                    let j0 = if first {
                        j - 1
                    } else {
                        j
                    };
                    if (first && j == 0) || (!first && j == cs2.len() - 1) {
                        assert(cs2[j] == QpdfChild::Ref(ph.slot));
                    } else {
                        assert(cs2[j] == cs0[j0]);
                        crate::object::lemma_children_wf_index(doc0.nodes@, cs0, j0);
                        crate::object::lemma_child_wf_extend(doc0.nodes@, self.nodes@, cs0[j0]);
                    }
                }
                crate::object::lemma_children_wf_build(self.nodes@, cs2);
            }
            assert(spec_value_wf(self.nodes@, es2[idx as int].child->Val_0));
            assert(spec_entries_wf(self.nodes@, es2)) by {
                assert forall|j: int| 0 <= j < es2.len() implies spec_child_wf(
                    self.nodes@,
                    (#[trigger] es2[j]).child,
                ) by {
                    if j != idx {
                        crate::object::lemma_entries_wf_index(doc0.nodes@, es0, j);
                        crate::object::lemma_child_wf_extend(
                            doc0.nodes@,
                            self.nodes@,
                            es0[j].child,
                        );
                    }
                }
                crate::object::lemma_entries_wf_build(self.nodes@, es2);
            }
            lemma_wf_after_value_update(doc0, *self, pslot as int);
            if first {
                assert(cs2.skip(1) =~= cs0);
            } else {
                assert(cs2.take(cs0.len() as int) =~= cs0);
            }
            let cfin = choose|c: int|
                0 <= c < es2.len() && (#[trigger] es2[c]).key@ == "/Kids"@;
            assert(es2[idx as int].key@ == "/Kids"@);
            assert(crate::object::spec_dict_keys_unique(es2));
            assert(cfin == idx);
            let c0 = choose|c: int| 0 <= c < es0.len() && (#[trigger] es0[c]).key@ == "/Kids"@;
            assert(crate::object::spec_dict_keys_unique(es0));
            assert(c0 == idx);
        }
        Ok(())
    }

    /// The number of pages: the length of the page tree's kid list.
    #[verifier::loop_isolation(false)]
    pub fn get_num_pages(&self) -> (r: Result<usize, QpdfError>)
        requires
            self.wf(),
        ensures
            match self.spec_kids() {
                Some(cs) => r == Ok::<usize, QpdfError>(cs.len() as usize),
                None => r == Err::<usize, QpdfError>(QpdfError::TypeMismatch),
            },
    {
        let kids_key = "/Kids".to_owned();
        match &self.nodes[self.pages_slot].value {
            QpdfValue::Dictionary(es) => {
                let mut i: usize = 0;
                while i < es.len()
                    invariant
                        i <= es@.len(),
                        forall|j: int| 0 <= j < i ==> (#[trigger] es@[j]).key@ != "/Kids"@,
                        self.wf(),
                        self.value_of(QpdfObject { slot: self.pages_slot }) matches
                            QpdfValue::Dictionary(es1) && es1@ == es@,
                    decreases es@.len() - i,
                {
                    if es[i].key == kids_key {
                        proof {
                            let es2 = es@;
                            let c = choose|c: int|
                                0 <= c < es2.len() && (#[trigger] es2[c]).key@ == "/Kids"@;
                            assert(spec_value_wf(self.nodes@, self.nodes@[self.pages_slot as int].value));
                            assert(crate::object::spec_dict_keys_unique(es2));
                            assert(c == i);
                        }
                        match &es[i].child {
                            QpdfChild::Val(QpdfValue::Array(cs)) => {
                                return Ok(cs.len());
                            },
                            _ => {
                                return Err(QpdfError::TypeMismatch);
                            },
                        }
                    }
                    i = i + 1;
                }
                Err(QpdfError::TypeMismatch)
            },
            _ => Err(QpdfError::TypeMismatch),
        }
    }

    /// The page at `index` in the page tree's kid list: absent when the
    /// index is out of range or the kid is not an indirect reference.
    #[verifier::loop_isolation(false)]
    pub fn get_page(&self, index: usize) -> (r: Option<QpdfObject>)
        requires
            self.wf(),
        ensures
            match self.spec_kids() {
                Some(cs) => (if index < cs.len() && (cs[index as int] matches QpdfChild::Ref(s)) {
                    r matches Some(h) && cs[index as int] == QpdfChild::Ref(h.slot) && self.valid(h)
                } else {
                    r is None
                }),
                None => r is None,
            },
    {
        let kids_key = "/Kids".to_owned();
        match &self.nodes[self.pages_slot].value {
            QpdfValue::Dictionary(es) => {
                let mut i: usize = 0;
                while i < es.len()
                    invariant
                        i <= es@.len(),
                        forall|j: int| 0 <= j < i ==> (#[trigger] es@[j]).key@ != "/Kids"@,
                        self.wf(),
                        self.value_of(QpdfObject { slot: self.pages_slot }) matches
                            QpdfValue::Dictionary(es1) && es1@ == es@,
                    decreases es@.len() - i,
                {
                    if es[i].key == kids_key {
                        proof {
                            let es2 = es@;
                            let c = choose|c: int|
                                0 <= c < es2.len() && (#[trigger] es2[c]).key@ == "/Kids"@;
                            assert(spec_value_wf(self.nodes@, self.nodes@[self.pages_slot as int].value));
                            assert(crate::object::spec_dict_keys_unique(es2));
                            assert(c == i);
                            assert(spec_value_wf(self.nodes@, self.nodes@[self.pages_slot as int].value));
                        }
                        match &es[i].child {
                            QpdfChild::Val(QpdfValue::Array(cs)) => {
                                if index < cs.len() {
                                    proof {
                                        crate::object::lemma_entries_wf_index(self.nodes@, es@, i as int);
                                        crate::object::lemma_children_wf_index(self.nodes@, cs@, index as int);
                                    }
                                    match &cs[index] {
                                        QpdfChild::Ref(slot) => {
                                            return Some(QpdfObject { slot: *slot });
                                        },
                                        _ => {
                                            return None;
                                        },
                                    }
                                } else {
                                    return None;
                                }
                            },
                            _ => {
                                return None;
                            },
                        }
                    }
                    i = i + 1;
                }
                None
            },
            _ => None,
        }
    }
}

/// Concatenated payloads of a child list, when every child is an indirect
/// reference to a stream; `None` otherwise.
pub open spec fn spec_streams_concat(nodes: Seq<QpdfNode>, cs: Seq<QpdfChild>) -> Option<Seq<u8>>
    decreases cs.len(),
{
    if cs.len() == 0 {
        Some(Seq::empty())
    } else {
        match spec_streams_concat(nodes, cs.drop_last()) {
            Option::None => None,
            Some(pre) => match cs.last() {
                QpdfChild::Ref(s) => {
                    if s < nodes.len() && (nodes[s as int].value matches QpdfValue::Stream { .. }) {
                        match nodes[s as int].value {
                            QpdfValue::Stream { data, .. } => Some(pre + data@),
                            _ => None,
                        }
                    } else {
                        None
                    }
                },
                _ => None,
            },
        }
    }
}

/// A bad child at any position makes the whole concatenation undefined.
pub proof fn lemma_streams_concat_bad(nodes: Seq<QpdfNode>, cs: Seq<QpdfChild>, j: int)
    requires
        0 <= j < cs.len(),
        !(cs[j] matches QpdfChild::Ref(s) && s < nodes.len() && (nodes[s as int].value matches QpdfValue::Stream { .. })),
    ensures
        spec_streams_concat(nodes, cs) is None,
    decreases cs.len(),
{
    if j == cs.len() - 1 {
    } else {
        assert(cs.drop_last()[j] == cs[j]);
        lemma_streams_concat_bad(nodes, cs.drop_last(), j);
    }
}

/// The decoded page content of a page dictionary: the payload of the
/// stream its `/Contents` references, or the concatenation of the payloads
/// when `/Contents` is an array of stream references.
pub open spec fn spec_page_content(doc: Qpdf, h: QpdfObject) -> Option<Seq<u8>> {
    match doc.value_of(h) {
        QpdfValue::Dictionary(es) => {
            if crate::views::spec_dict_has(es@, "/Contents"@) {
                let i = choose|i: int|
                    0 <= i < es@.len() && (#[trigger] es@[i]).key@ == "/Contents"@;
                match es@[i].child {
                    QpdfChild::Ref(s) => {
                        if s < doc.nodes@.len() {
                            match doc.nodes@[s as int].value {
                                QpdfValue::Stream { data, .. } => Some(data@),
                                QpdfValue::Array(cs) => spec_streams_concat(doc.nodes@, cs@),
                                _ => None,
                            }
                        } else {
                            None
                        }
                    },
                    QpdfChild::Val(QpdfValue::Array(cs)) => spec_streams_concat(doc.nodes@, cs@),
                    _ => None,
                }
            } else {
                None
            }
        },
        _ => None,
    }
}

/// Concatenates the payloads of a list of stream references;
/// `TypeMismatch` when some child is not an indirect stream reference.
#[verifier::loop_isolation(false)]
fn concat_stream_children(doc: &Qpdf, cs: &Vec<QpdfChild>) -> (r: Result<Vec<u8>, QpdfError>)
    requires
        doc.wf(),
    ensures
        match spec_streams_concat(doc.nodes@, cs@) {
            Some(b) => r matches Ok(v) && v@ == b,
            None => r == Err::<Vec<u8>, QpdfError>(QpdfError::TypeMismatch),
        },
{
    let mut acc: Vec<u8> = Vec::new();
    let mut i: usize = 0;
    while i < cs.len()
        invariant
            i <= cs@.len(),
            spec_streams_concat(doc.nodes@, cs@.take(i as int)) == Some(acc@),
        decreases cs@.len() - i,
    {
        let bad = match &cs[i] {
            QpdfChild::Ref(s) => {
                if *s < doc.nodes.len() {
                    match &doc.nodes[*s].value {
                        QpdfValue::Stream { data, .. } => {
                            acc.extend_from_slice(data.as_slice());
                            false
                        },
                        _ => true,
                    }
                } else {
                    true
                }
            },
            _ => true,
        };
        if bad {
            proof {
                lemma_streams_concat_bad(doc.nodes@, cs@, i as int);
            }
            return Err(QpdfError::TypeMismatch);
        }
        proof {
            assert(cs@.take(i + 1).drop_last() =~= cs@.take(i as int));
            assert(cs@.take(i + 1).last() == cs@[i as int]);
        }
        i = i + 1;
    }
    proof {
        assert(cs@.take(cs@.len() as int) =~= cs@);
    }
    Ok(acc)
}

/// Re-establishes the document invariant after one node's value is
/// replaced in place by a well-formed value of the same type.
pub proof fn lemma_wf_after_value_update(doc0: Qpdf, doc1: Qpdf, slot: int)
    requires
        doc0.wf(),
        0 <= slot < doc0.nodes@.len(),
        doc1.nodes@ == doc0.nodes@.update(slot, doc1.nodes@[slot]),
        doc1.nodes@[slot].id == doc0.nodes@[slot].id,
        doc1.nodes@[slot].gen == doc0.nodes@[slot].gen,
        doc1.nodes@[slot].value.spec_type() == doc0.nodes@[slot].value.spec_type(),
        spec_value_wf(doc1.nodes@, doc1.nodes@[slot].value),
        doc1.next_id == doc0.next_id,
        doc1.trailer_slot == doc0.trailer_slot,
        doc1.root_slot == doc0.root_slot,
        doc1.pages_slot == doc0.pages_slot,
    ensures
        doc1.wf(),
        spec_nodes_extend(doc0.nodes@, doc1.nodes@),
{
    assert(doc1.nodes@.len() == doc0.nodes@.len());
    assert(spec_nodes_extend(doc0.nodes@, doc1.nodes@));
    assert forall|i: int| 0 <= i < doc1.nodes@.len() implies spec_value_wf(
        doc1.nodes@,
        (#[trigger] doc1.nodes@[i]).value,
    ) by {
        if i != slot {
            assert(doc1.nodes@[i] == doc0.nodes@[i]);
            lemma_value_wf_extend(doc0.nodes@, doc1.nodes@, doc0.nodes@[i].value);
        }
    }
}

} // verus!
