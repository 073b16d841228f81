use vstd::prelude::*;

verus! {

/// The closed set of object types a graph node can have.
///
/// `Uninitialized` and `Reserved` are placeholder states for objects
/// referenced before their value is known; operations other than type and
/// initialization queries fail on such a handle.
#[derive(Clone, Copy, Debug, PartialEq, Eq, Structural, Hash)]
pub enum QpdfObjectType {
    Uninitialized,
    Reserved,
    Null,
    Boolean,
    Integer,
    Real,
    String,
    Name,
    Array,
    Dictionary,
    Stream,
    Operator,
    InlineImage,
}

impl QpdfObjectType {
    /// The numeric code conventionally attached to each object type,
    /// counting the variants in declaration order from zero.
    pub open spec fn spec_code(self) -> u32 {
        match self {
            QpdfObjectType::Uninitialized => 0,
            QpdfObjectType::Reserved => 1,
            QpdfObjectType::Null => 2,
            QpdfObjectType::Boolean => 3,
            QpdfObjectType::Integer => 4,
            QpdfObjectType::Real => 5,
            QpdfObjectType::String => 6,
            QpdfObjectType::Name => 7,
            QpdfObjectType::Array => 8,
            QpdfObjectType::Dictionary => 9,
            QpdfObjectType::Stream => 10,
            QpdfObjectType::Operator => 11,
            QpdfObjectType::InlineImage => 12,
        }
    }

    /// Maps a numeric type code back to the object type it stands for;
    /// `None` for a code outside the closed set.
    pub fn from_qpdf_enum(code: u32) -> (r: Option<QpdfObjectType>)
        ensures
            match r {
                Some(t) => t.spec_code() == code,
                None => code > 12,
            },
    {
        match code {
            0 => Some(QpdfObjectType::Uninitialized),
            1 => Some(QpdfObjectType::Reserved),
            2 => Some(QpdfObjectType::Null),
            3 => Some(QpdfObjectType::Boolean),
            4 => Some(QpdfObjectType::Integer),
            5 => Some(QpdfObjectType::Real),
            6 => Some(QpdfObjectType::String),
            7 => Some(QpdfObjectType::Name),
            8 => Some(QpdfObjectType::Array),
            9 => Some(QpdfObjectType::Dictionary),
            10 => Some(QpdfObjectType::Stream),
            11 => Some(QpdfObjectType::Operator),
            12 => Some(QpdfObjectType::InlineImage),
            _ => None,
        }
    }

    /// True exactly for the five scalar types.
    pub open spec fn spec_is_scalar(self) -> bool {
        self == QpdfObjectType::Boolean || self == QpdfObjectType::Integer
            || self == QpdfObjectType::Real || self == QpdfObjectType::String
            || self == QpdfObjectType::Name
    }
}

/// A handle to one node of a document's object graph.
///
/// Two handles are equal iff they reference the same storage slot; distinct
/// handles can decode to the same printable value and still compare unequal.
#[derive(Debug, PartialEq, Eq, Structural, PartialOrd, Ord, Hash)]
pub struct QpdfObject {
    /// Index of the graph node this handle references.
    pub slot: usize,
}

/// A child position inside an array, dictionary, or stream dictionary.
///
/// An indirect child is stored as a reference to its graph slot, so mutation
/// through any handle resolving the same `(id, generation)` is visible here;
/// a direct child is stored as an inline snapshot value of its own.
#[derive(Debug)]
pub enum QpdfChild {
    /// Shared reference to an indirect node, by slot.
    Ref(usize),
    /// Inline snapshot of a direct value.
    Val(QpdfValue),
}

/// One key/value entry of a dictionary.
#[derive(Debug)]
pub struct QpdfDictEntry {
    /// The name key, including its leading `/`.
    pub key: String,
    /// The value stored under the key.
    pub child: QpdfChild,
}

/// The value stored in a graph node.
#[derive(Debug)]
pub enum QpdfValue {
    /// Placeholder for an object whose value is not yet known.
    Uninitialized,
    /// Placeholder for a reserved forward reference.
    Reserved,
    /// The null object.
    Null,
    /// A boolean.
    Boolean(bool),
    /// A signed integer.
    Integer(i64),
    /// A real number, kept as its formatted decimal text.
    Real(String),
    /// A string: raw bytes.
    Str(Vec<u8>),
    /// A name, kept as its text including the leading `/` when present.
    Name(String),
    /// An ordered sequence of children.
    Array(Vec<QpdfChild>),
    /// A mapping from unique name keys to children.
    Dictionary(Vec<QpdfDictEntry>),
    /// A stream: the slot of its metadata dictionary plus its raw payload.
    Stream { dict_slot: usize, data: Vec<u8> },
    /// A content-stream operator, kept as its text.
    Operator(String),
    /// An inline image's raw bytes.
    InlineImage(Vec<u8>),
}

impl QpdfValue {
    /// The object type of this value.
    pub open spec fn spec_type(&self) -> QpdfObjectType {
        match self {
            QpdfValue::Uninitialized => QpdfObjectType::Uninitialized,
            QpdfValue::Reserved => QpdfObjectType::Reserved,
            QpdfValue::Null => QpdfObjectType::Null,
            QpdfValue::Boolean(_) => QpdfObjectType::Boolean,
            QpdfValue::Integer(_) => QpdfObjectType::Integer,
            QpdfValue::Real(_) => QpdfObjectType::Real,
            QpdfValue::Str(_) => QpdfObjectType::String,
            QpdfValue::Name(_) => QpdfObjectType::Name,
            QpdfValue::Array(_) => QpdfObjectType::Array,
            QpdfValue::Dictionary(_) => QpdfObjectType::Dictionary,
            QpdfValue::Stream { .. } => QpdfObjectType::Stream,
            QpdfValue::Operator(_) => QpdfObjectType::Operator,
            QpdfValue::InlineImage(_) => QpdfObjectType::InlineImage,
        }
    }

    /// Executable type dispatch, equal to `spec_type`.
    pub fn type_of(&self) -> (t: QpdfObjectType)
        ensures
            t == self.spec_type(),
    {
        match self {
            QpdfValue::Uninitialized => QpdfObjectType::Uninitialized,
            QpdfValue::Reserved => QpdfObjectType::Reserved,
            QpdfValue::Null => QpdfObjectType::Null,
            QpdfValue::Boolean(_) => QpdfObjectType::Boolean,
            QpdfValue::Integer(_) => QpdfObjectType::Integer,
            QpdfValue::Real(_) => QpdfObjectType::Real,
            QpdfValue::Str(_) => QpdfObjectType::String,
            QpdfValue::Name(_) => QpdfObjectType::Name,
            QpdfValue::Array(_) => QpdfObjectType::Array,
            QpdfValue::Dictionary(_) => QpdfObjectType::Dictionary,
            QpdfValue::Stream { .. } => QpdfObjectType::Stream,
            QpdfValue::Operator(_) => QpdfObjectType::Operator,
            QpdfValue::InlineImage(_) => QpdfObjectType::InlineImage,
        }
    }
}

/// One node of the object graph: a value together with its indirection key.
/// `id == 0` means the node is direct; an indirect node has `id != 0` and is
/// addressable as `(id, gen)`.
#[derive(Debug)]
pub struct QpdfNode {
    /// Object id; zero for a direct node.
    pub id: u32,
    /// Generation number; zero for a direct node.
    pub gen: u32,
    /// The node's value.
    pub value: QpdfValue,
}

/// A dictionary entry list is well-formed when its keys are pairwise
/// distinct.
pub open spec fn spec_dict_keys_unique(entries: Seq<QpdfDictEntry>) -> bool {
    forall|i: int, j: int|
        0 <= i < entries.len() && 0 <= j < entries.len() && i != j
            ==> entries[i].key@ != entries[j].key@
}

/// Well-formedness of a value with respect to the graph it lives in: every
/// `Ref` child names a valid indirect slot, every nested dictionary has
/// unique keys, and a stream's metadata slot holds a direct dictionary.
pub open spec fn spec_value_wf(nodes: Seq<QpdfNode>, v: QpdfValue) -> bool
    decreases v,
{
    match v {
        QpdfValue::Array(cs) => spec_children_wf(nodes, cs@),
        QpdfValue::Dictionary(es) => spec_dict_keys_unique(es@) && spec_entries_wf(nodes, es@),
        QpdfValue::Stream { dict_slot, .. } => dict_slot < nodes.len()
            && nodes[dict_slot as int].id == 0
            && nodes[dict_slot as int].value is Dictionary,
        _ => true,
    }
}

/// Well-formedness of every child of an array, by recursion over the list.
pub open spec fn spec_children_wf(nodes: Seq<QpdfNode>, cs: Seq<QpdfChild>) -> bool
    decreases cs,
{
    cs.len() == 0 || (spec_children_wf(nodes, cs.drop_last()) && spec_child_wf(nodes, cs.last()))
}

/// Well-formedness of every entry value of a dictionary, by recursion over
/// the list.
pub open spec fn spec_entries_wf(nodes: Seq<QpdfNode>, es: Seq<QpdfDictEntry>) -> bool
    decreases es,
{
    es.len() == 0 || (spec_entries_wf(nodes, es.drop_last()) && spec_child_wf(
        nodes,
        es.last().child,
    ))
}

/// Well-formedness of one child position: a `Ref` names a valid indirect
/// slot; a `Val` snapshot is itself well-formed and is never a stream.
pub open spec fn spec_child_wf(nodes: Seq<QpdfNode>, c: QpdfChild) -> bool
    decreases c,
{
    match c {
        QpdfChild::Ref(s) => s < nodes.len() && nodes[s as int].id != 0,
        QpdfChild::Val(v) => !(v is Stream) && spec_value_wf(nodes, v),
    }
}

/// A well-formed child list is well-formed at every index.
pub proof fn lemma_children_wf_index(nodes: Seq<QpdfNode>, cs: Seq<QpdfChild>, k: int)
    requires
        spec_children_wf(nodes, cs),
        0 <= k < cs.len(),
    ensures
        spec_child_wf(nodes, cs[k]),
    decreases cs.len(),
{
    if k < cs.len() - 1 {
        assert(cs.drop_last()[k] == cs[k]);
        lemma_children_wf_index(nodes, cs.drop_last(), k);
    }
}

/// A child list every member of which is well-formed is well-formed.
pub proof fn lemma_children_wf_build(nodes: Seq<QpdfNode>, cs: Seq<QpdfChild>)
    requires
        forall|i: int| 0 <= i < cs.len() ==> spec_child_wf(nodes, #[trigger] cs[i]),
    ensures
        spec_children_wf(nodes, cs),
    decreases cs.len(),
{
    if cs.len() > 0 {
        lemma_children_wf_build(nodes, cs.drop_last());
    }
}

/// A well-formed entry list is well-formed at every index.
pub proof fn lemma_entries_wf_index(nodes: Seq<QpdfNode>, es: Seq<QpdfDictEntry>, k: int)
    requires
        spec_entries_wf(nodes, es),
        0 <= k < es.len(),
    ensures
        spec_child_wf(nodes, es[k].child),
    decreases es.len(),
{
    if k < es.len() - 1 {
        assert(es.drop_last()[k] == es[k]);
        lemma_entries_wf_index(nodes, es.drop_last(), k);
    }
}

/// An entry list every value of which is well-formed is well-formed.
pub proof fn lemma_entries_wf_build(nodes: Seq<QpdfNode>, es: Seq<QpdfDictEntry>)
    requires
        forall|i: int| 0 <= i < es.len() ==> spec_child_wf(nodes, (#[trigger] es[i]).child),
    ensures
        spec_entries_wf(nodes, es),
    decreases es.len(),
{
    if es.len() > 0 {
        lemma_entries_wf_build(nodes, es.drop_last());
    }
}

/// One node list extends another when it keeps every old node's indirection
/// key and keeps dictionaries dictionaries; well-formedness of values only
/// depends on what an extension preserves.
pub open spec fn spec_nodes_extend(a: Seq<QpdfNode>, b: Seq<QpdfNode>) -> bool {
    &&& a.len() <= b.len()
    &&& forall|i: int|
        0 <= i < a.len() ==> ((#[trigger] b[i]).id == a[i].id && b[i].gen == a[i].gen
            && b[i].value.spec_type() == a[i].value.spec_type())
}

/// Extending the node list preserves well-formedness of a value.
pub proof fn lemma_value_wf_extend(a: Seq<QpdfNode>, b: Seq<QpdfNode>, v: QpdfValue)
    requires
        spec_nodes_extend(a, b),
        spec_value_wf(a, v),
    ensures
        spec_value_wf(b, v),
    decreases v,
{
    match v {
        QpdfValue::Array(cs) => lemma_children_wf_extend(a, b, cs@),
        QpdfValue::Dictionary(es) => lemma_entries_wf_extend(a, b, es@),
        _ => {},
    }
}

/// Extending the node list preserves well-formedness of a child list.
pub proof fn lemma_children_wf_extend(a: Seq<QpdfNode>, b: Seq<QpdfNode>, cs: Seq<QpdfChild>)
    requires
        spec_nodes_extend(a, b),
        spec_children_wf(a, cs),
    ensures
        spec_children_wf(b, cs),
    decreases cs,
{
    if cs.len() > 0 {
        lemma_children_wf_extend(a, b, cs.drop_last());
        lemma_child_wf_extend(a, b, cs.last());
    }
}

/// Extending the node list preserves well-formedness of an entry list.
pub proof fn lemma_entries_wf_extend(a: Seq<QpdfNode>, b: Seq<QpdfNode>, es: Seq<QpdfDictEntry>)
    requires
        spec_nodes_extend(a, b),
        spec_entries_wf(a, es),
    ensures
        spec_entries_wf(b, es),
    decreases es,
{
    if es.len() > 0 {
        lemma_entries_wf_extend(a, b, es.drop_last());
        lemma_child_wf_extend(a, b, es.last().child);
    }
}

/// Extending the node list preserves well-formedness of one child.
pub proof fn lemma_child_wf_extend(a: Seq<QpdfNode>, b: Seq<QpdfNode>, c: QpdfChild)
    requires
        spec_nodes_extend(a, b),
        spec_child_wf(a, c),
    ensures
        spec_child_wf(b, c),
    decreases c,
{
    match c {
        QpdfChild::Val(v) => lemma_value_wf_extend(a, b, v),
        QpdfChild::Ref(_) => {},
    }
}

/// Deep content equality of two values: same structure, same scalar
/// content, same shared references. Two like values are indistinguishable
/// to every operation of the library, though their handles may differ.
pub open spec fn spec_value_like(a: QpdfValue, b: QpdfValue) -> bool
    decreases a,
{
    match (a, b) {
        (QpdfValue::Uninitialized, QpdfValue::Uninitialized) => true,
        (QpdfValue::Reserved, QpdfValue::Reserved) => true,
        (QpdfValue::Null, QpdfValue::Null) => true,
        (QpdfValue::Boolean(x), QpdfValue::Boolean(y)) => x == y,
        (QpdfValue::Integer(x), QpdfValue::Integer(y)) => x == y,
        (QpdfValue::Real(x), QpdfValue::Real(y)) => x@ == y@,
        (QpdfValue::Str(x), QpdfValue::Str(y)) => x@ == y@,
        (QpdfValue::Name(x), QpdfValue::Name(y)) => x@ == y@,
        (QpdfValue::Operator(x), QpdfValue::Operator(y)) => x@ == y@,
        (QpdfValue::Array(x), QpdfValue::Array(y)) => spec_children_like(x@, y@),
        (QpdfValue::Dictionary(x), QpdfValue::Dictionary(y)) => spec_entries_like(x@, y@),
        (
            QpdfValue::Stream { dict_slot: d1, data: b1 },
            QpdfValue::Stream { dict_slot: d2, data: b2 },
        ) => d1 == d2 && b1@ == b2@,
        (QpdfValue::InlineImage(x), QpdfValue::InlineImage(y)) => x@ == y@,
        _ => false,
    }
}

/// Deep content equality of two child lists.
pub open spec fn spec_children_like(x: Seq<QpdfChild>, y: Seq<QpdfChild>) -> bool
    decreases x,
{
    x.len() == y.len() && (x.len() == 0 || (spec_children_like(x.drop_last(), y.drop_last())
        && spec_child_like(x.last(), y.last())))
}

/// Deep content equality of two entry lists: keys and values agree
/// position by position.
pub open spec fn spec_entries_like(x: Seq<QpdfDictEntry>, y: Seq<QpdfDictEntry>) -> bool
    decreases x,
{
    x.len() == y.len() && (x.len() == 0 || (spec_entries_like(x.drop_last(), y.drop_last())
        && x.last().key@ == y.last().key@ && spec_child_like(x.last().child, y.last().child)))
}

/// Deep content equality of two children.
pub open spec fn spec_child_like(a: QpdfChild, b: QpdfChild) -> bool
    decreases a,
{
    match (a, b) {
        (QpdfChild::Ref(s1), QpdfChild::Ref(s2)) => s1 == s2,
        (QpdfChild::Val(v1), QpdfChild::Val(v2)) => spec_value_like(v1, v2),
        _ => false,
    }
}

/// Content equality is reflexive.
pub proof fn lemma_value_like_refl(v: QpdfValue)
    ensures
        spec_value_like(v, v),
    decreases v,
{
    match v {
        QpdfValue::Array(cs) => lemma_children_like_refl(cs@),
        QpdfValue::Dictionary(es) => lemma_entries_like_refl(es@),
        _ => {},
    }
}

/// Content equality of child lists is reflexive.
pub proof fn lemma_children_like_refl(cs: Seq<QpdfChild>)
    ensures
        spec_children_like(cs, cs),
    decreases cs,
{
    if cs.len() > 0 {
        lemma_children_like_refl(cs.drop_last());
        lemma_child_like_refl(cs.last());
    }
}

/// Content equality of entry lists is reflexive.
pub proof fn lemma_entries_like_refl(es: Seq<QpdfDictEntry>)
    ensures
        spec_entries_like(es, es),
    decreases es,
{
    if es.len() > 0 {
        lemma_entries_like_refl(es.drop_last());
        lemma_child_like_refl(es.last().child);
    }
}

/// Content equality of children is reflexive.
pub proof fn lemma_child_like_refl(c: QpdfChild)
    ensures
        spec_child_like(c, c),
    decreases c,
{
    match c {
        QpdfChild::Val(v) => lemma_value_like_refl(v),
        QpdfChild::Ref(_) => {},
    }
}

/// Two like entry lists agree position by position.
pub proof fn lemma_entries_like_index(x: Seq<QpdfDictEntry>, y: Seq<QpdfDictEntry>, k: int)
    requires
        spec_entries_like(x, y),
        0 <= k < x.len(),
    ensures
        x[k].key@ == y[k].key@,
        spec_child_like(x[k].child, y[k].child),
    decreases x.len(),
{
    if k < x.len() - 1 {
        assert(x.drop_last()[k] == x[k]);
        assert(y.drop_last()[k] == y[k]);
        lemma_entries_like_index(x.drop_last(), y.drop_last(), k);
    }
}

/// A value like a well-formed value is itself well-formed.
pub proof fn lemma_value_like_wf(nodes: Seq<QpdfNode>, a: QpdfValue, b: QpdfValue)
    requires
        spec_value_like(a, b),
        spec_value_wf(nodes, a),
    ensures
        spec_value_wf(nodes, b),
    decreases a,
{
    match (a, b) {
        (QpdfValue::Array(x), QpdfValue::Array(y)) => {
            lemma_children_like_wf(nodes, x@, y@);
        },
        (QpdfValue::Dictionary(x), QpdfValue::Dictionary(y)) => {
            lemma_entries_like_wf(nodes, x@, y@);
            assert forall|i: int, j: int|
                0 <= i < y@.len() && 0 <= j < y@.len() && i != j implies y@[i].key@
                != y@[j].key@ by {
                lemma_entries_like_index(x@, y@, i);
                lemma_entries_like_index(x@, y@, j);
            }
        },
        _ => {},
    }
}

/// A child list like a well-formed child list is itself well-formed.
pub proof fn lemma_children_like_wf(nodes: Seq<QpdfNode>, x: Seq<QpdfChild>, y: Seq<QpdfChild>)
    requires
        spec_children_like(x, y),
        spec_children_wf(nodes, x),
    ensures
        spec_children_wf(nodes, y),
    decreases x,
{
    if x.len() > 0 {
        lemma_children_like_wf(nodes, x.drop_last(), y.drop_last());
        lemma_child_like_wf(nodes, x.last(), y.last());
    }
}

/// An entry list like a well-formed entry list is itself well-formed.
pub proof fn lemma_entries_like_wf(nodes: Seq<QpdfNode>, x: Seq<QpdfDictEntry>, y: Seq<
    QpdfDictEntry,
>)
    requires
        spec_entries_like(x, y),
        spec_entries_wf(nodes, x),
    ensures
        spec_entries_wf(nodes, y),
    decreases x,
{
    if x.len() > 0 {
        lemma_entries_like_wf(nodes, x.drop_last(), y.drop_last());
        lemma_child_like_wf(nodes, x.last().child, y.last().child);
    }
}

/// A child like a well-formed child is itself well-formed.
pub proof fn lemma_child_like_wf(nodes: Seq<QpdfNode>, a: QpdfChild, b: QpdfChild)
    requires
        spec_child_like(a, b),
        spec_child_wf(nodes, a),
    ensures
        spec_child_wf(nodes, b),
    decreases a,
{
    match (a, b) {
        (QpdfChild::Val(v1), QpdfChild::Val(v2)) => lemma_value_like_wf(nodes, v1, v2),
        _ => {},
    }
}

/// Deep copy of one child position.
pub(crate) fn clone_child(c: &QpdfChild) -> (r: QpdfChild)
    ensures
        spec_child_like(*c, r),
    decreases *c,
{
    match c {
        QpdfChild::Ref(s) => QpdfChild::Ref(*s),
        QpdfChild::Val(v) => QpdfChild::Val(clone_value(v)),
    }
}

/// Deep copy of a value: the snapshot a container stores or hands out in
/// place of a direct object.
#[verifier::loop_isolation(false)]
#[verifier::rlimit(60)]
pub(crate) fn clone_value(v: &QpdfValue) -> (r: QpdfValue)
    ensures
        spec_value_like(*v, r),
    decreases *v,
{
    match v {
        QpdfValue::Uninitialized => QpdfValue::Uninitialized,
        QpdfValue::Reserved => QpdfValue::Reserved,
        QpdfValue::Null => QpdfValue::Null,
        QpdfValue::Boolean(b) => QpdfValue::Boolean(*b),
        QpdfValue::Integer(i) => QpdfValue::Integer(*i),
        QpdfValue::Real(s) => QpdfValue::Real(s.clone()),
        QpdfValue::Str(b) => {
            let b2 = b.clone();
            proof {
                assert(b2@ =~= b@);
            }
            QpdfValue::Str(b2)
        },
        QpdfValue::Name(s) => QpdfValue::Name(s.clone()),
        QpdfValue::Operator(s) => QpdfValue::Operator(s.clone()),
        QpdfValue::Array(cs) => {
            let mut out: Vec<QpdfChild> = Vec::new();
            let mut i: usize = 0;
            while i < cs.len()
                invariant
                    i <= cs@.len(),
                    out@.len() == i,
                    spec_children_like(cs@.take(i as int), out@),
                decreases cs@.len() - i,
            {
                proof {
                    assert(decreases_to!(*v => cs@[i as int]));
                }
                let ghost out0 = out@;
                out.push(clone_child(&cs[i]));
                proof {
                    assert(out@.drop_last() =~= out0);
                    assert(cs@.take(i + 1).drop_last() =~= cs@.take(i as int));
                    assert(cs@.take(i + 1).last() == cs@[i as int]);
                }
                i = i + 1;
            }
            proof {
                assert(cs@.take(cs@.len() as int) =~= cs@);
            }
            QpdfValue::Array(out)
        },
        QpdfValue::Dictionary(es) => {
            let mut out: Vec<QpdfDictEntry> = Vec::new();
            let mut i: usize = 0;
            while i < es.len()
                invariant
                    i <= es@.len(),
                    out@.len() == i,
                    spec_entries_like(es@.take(i as int), out@),
                decreases es@.len() - i,
            {
                proof {
                    assert(decreases_to!(*v => es@[i as int].child));
                }
                let e = &es[i];
                let ghost out0 = out@;
                out.push(QpdfDictEntry { key: e.key.clone(), child: clone_child(&e.child) });
                proof {
                    assert(out@.drop_last() =~= out0);
                    assert(es@.take(i + 1).drop_last() =~= es@.take(i as int));
                    assert(es@.take(i + 1).last() == es@[i as int]);
                }
                i = i + 1;
            }
            proof {
                assert(es@.take(es@.len() as int) =~= es@);
            }
            QpdfValue::Dictionary(out)
        },
        QpdfValue::Stream { dict_slot, data } => {
            let d2 = data.clone();
            proof {
                assert(d2@ =~= data@);
            }
            QpdfValue::Stream { dict_slot: *dict_slot, data: d2 }
        },
        QpdfValue::InlineImage(b) => {
            let b2 = b.clone();
            proof {
                assert(b2@ =~= b@);
            }
            QpdfValue::InlineImage(b2)
        },
    }
}

} // verus!
