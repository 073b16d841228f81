use vstd::prelude::*;
use crate::document::Qpdf;
use crate::document::spec_same_meta;
use crate::error::QpdfError;
use crate::object::QpdfChild;
use crate::object::QpdfDictEntry;
use crate::object::QpdfNode;
use crate::object::QpdfObject;
use crate::object::QpdfObjectType;
use crate::object::QpdfValue;
use crate::object::spec_child_wf;
use crate::object::spec_children_wf;
use crate::object::spec_dict_keys_unique;
use crate::object::spec_entries_wf;
use crate::object::spec_nodes_extend;
use crate::render::push_char;
use vstd::string::StrSliceExecFns;

verus! {


/// The whitespace characters of the object syntax.
pub open spec fn spec_is_ws(c: char) -> bool {
    c == ' ' || c == '\t' || c == '\r' || c == '\n' || c == '\x0c' || c == '\0'
}

/// The delimiter characters that end a name or number token.
pub open spec fn spec_is_delim(c: char) -> bool {
    c == '(' || c == ')' || c == '<' || c == '>' || c == '[' || c == ']' || c == '{' || c == '}'
        || c == '/' || c == '%'
}

/// The position of the first non-whitespace character at or after `p`.
pub open spec fn spec_skip_ws(chars: Seq<char>, p: int) -> int
    decreases chars.len() - p,
{
    if p < 0 || p >= chars.len() || !spec_is_ws(chars[p]) {
        p
    } else {
        spec_skip_ws(chars, p + 1)
    }
}

/// The value of a decimal digit character, if it is one.
pub open spec fn spec_digit(c: char) -> Option<u64> {
    if 48 <= c as u32 && c as u32 <= 57 {
        Some((c as u32 - 48) as u64)
    } else {
        None
    }
}

/// The value of a hexadecimal digit character, if it is one.
pub open spec fn spec_hex_digit(c: char) -> Option<u8> {
    if 48 <= c as u32 && c as u32 <= 57 {
        Some((c as u32 - 48) as u8)
    } else if 97 <= c as u32 && c as u32 <= 102 {
        Some((c as u32 - 87) as u8)
    } else if 65 <= c as u32 && c as u32 <= 70 {
        Some((c as u32 - 55) as u8)
    } else {
        None
    }
}

/// The end of a name token started just before `q`.
pub open spec fn spec_name_end(chars: Seq<char>, q: int) -> int
    decreases chars.len() - q,
{
    if q < 0 || q >= chars.len() || spec_is_ws(chars[q]) || spec_is_delim(chars[q]) {
        q
    } else {
        spec_name_end(chars, q + 1)
    }
}

/// Scans a hexadecimal string body from `p`: the position after the
/// closing `>`, or the position of the offending character.
pub open spec fn spec_hex_end(chars: Seq<char>, p: int) -> Result<int, int>
    decreases chars.len() - p,
{
    if p < 0 || p >= chars.len() {
        Err(p)
    } else if chars[p] == '>' {
        Ok(p + 1)
    } else if spec_is_ws(chars[p]) || spec_hex_digit(chars[p]) is Some {
        spec_hex_end(chars, p + 1)
    } else {
        Err(p)
    }
}

/// Scans a parenthesized string body from `p` at nesting `depth`: the
/// position after the closing parenthesis, or where scanning stopped.
pub open spec fn spec_lit_end(chars: Seq<char>, p: int, depth: int) -> Result<int, int>
    decreases chars.len() - p,
{
    if depth <= 0 {
        Ok(p)
    } else if p < 0 || p >= chars.len() {
        Err(p)
    } else if chars[p] == '\\' {
        if p + 1 >= chars.len() {
            Err(p)
        } else {
            let e = chars[p + 1];
            if e == 'n' || e == 'r' || e == 't' || e == 'b' || e == 'f' || (e as u32) < 256 {
                spec_lit_end(chars, p + 2, depth)
            } else {
                Err(p + 1)
            }
        }
    } else if chars[p] == '(' {
        spec_lit_end(chars, p + 1, depth + 1)
    } else if chars[p] == ')' {
        spec_lit_end(chars, p + 1, depth - 1)
    } else if (chars[p] as u32) < 256 {
        spec_lit_end(chars, p + 1, depth)
    } else {
        Err(p)
    }
}

/// Scans a number token: the position after it, whether a point was seen,
/// how many digits were read, and the accumulated integer magnitude; stops
/// with the position on a second point or a magnitude beyond `i64`.
pub open spec fn spec_num_scan(chars: Seq<char>, p: int, isreal: bool, nd: int, acc: int) -> Result<
    (int, bool, int, int),
    int,
>
    decreases chars.len() - p,
{
    if p < 0 || p >= chars.len() {
        Ok((p, isreal, nd, acc))
    } else if chars[p] == '.' {
        if isreal {
            Err(p)
        } else {
            spec_num_scan(chars, p + 1, true, nd, acc)
        }
    } else {
        match spec_digit(chars[p]) {
            Some(d) => {
                if !isreal && (acc > 922_337_203_685_477_580 || (acc == 922_337_203_685_477_580
                    && d > 7)) {
                    Err(p)
                } else {
                    spec_num_scan(
                        chars,
                        p + 1,
                        isreal,
                        nd + 1,
                        if isreal {
                            acc
                        } else {
                            acc * 10 + d
                        },
                    )
                }
            },
            None => Ok((p, isreal, nd, acc)),
        }
    }
}

/// Scans a candidate generation number, capped in width and magnitude.
pub open spec fn spec_gen_scan(chars: Seq<char>, q: int, gen: int, gd: int) -> (int, int, int)
    decreases chars.len() - q,
{
    if q < 0 || q >= chars.len() || gd >= 9 {
        (q, gen, gd)
    } else {
        match spec_digit(chars[q]) {
            Some(d) => {
                if gen >= 0x0fff_ffff {
                    (q, gen, gd)
                } else {
                    spec_gen_scan(chars, q + 1, gen * 10 + d, gd + 1)
                }
            },
            None => (q, gen, gd),
        }
    }
}

/// The slot of the indirect node addressed as `(id, gen)`, if one exists.
pub open spec fn spec_lookup_slot(nodes: Seq<QpdfNode>, id: int, gen: int) -> Option<int> {
    if exists|s: int|
        0 <= s < nodes.len() && (#[trigger] nodes[s]).id == id && nodes[s].gen == gen
            && nodes[s].id != 0 {
        Some(
            choose|s: int|
                0 <= s < nodes.len() && (#[trigger] nodes[s]).id == id && nodes[s].gen == gen
                    && nodes[s].id != 0,
        )
    } else {
        None
    }
}

/// The grammar of one object of the textual syntax, from `pos`: the type
/// of the object it denotes and the position after it, or the position
/// where parsing stops. This is the specification `parse_value` is held
/// to, branch for branch.
pub open spec fn spec_parse(nodes: Seq<QpdfNode>, chars: Seq<char>, pos: int) -> Result<
    (QpdfObjectType, int),
    int,
>
    decreases chars.len() - pos, 0int,
{
    let start0 = spec_skip_ws(chars, pos);
    let start = if start0 < pos {
        pos
    } else {
        start0
    };
    if start >= chars.len() || start < 0 {
        Err(start)
    } else {
        let c = chars[start];
        if c == '<' {
            if start + 1 < chars.len() && chars[start + 1] == '<' {
                match spec_dict_items(nodes, chars, start + 2) {
                    Ok(end) => Ok((QpdfObjectType::Dictionary, end)),
                    Err(e) => Err(e),
                }
            } else {
                match spec_hex_end(chars, start + 1) {
                    Ok(end) => Ok((QpdfObjectType::String, end)),
                    Err(e) => Err(e),
                }
            }
        } else if c == '[' {
            match spec_arr_items(nodes, chars, start + 1) {
                Ok(end) => Ok((QpdfObjectType::Array, end)),
                Err(e) => Err(e),
            }
        } else if c == '(' {
            match spec_lit_end(chars, start + 1, 1) {
                Ok(end) => Ok((QpdfObjectType::String, end)),
                Err(e) => Err(e),
            }
        } else if c == '/' {
            Ok((QpdfObjectType::Name, spec_name_end(chars, start + 1)))
        } else if c == 't' {
            if chars.len() - start >= 4 && chars[start + 1] == 'r' && chars[start + 2] == 'u'
                && chars[start + 3] == 'e' {
                Ok((QpdfObjectType::Boolean, start + 4))
            } else {
                Err(start)
            }
        } else if c == 'f' {
            if chars.len() - start >= 5 && chars[start + 1] == 'a' && chars[start + 2] == 'l'
                && chars[start + 3] == 's' && chars[start + 4] == 'e' {
                Ok((QpdfObjectType::Boolean, start + 5))
            } else {
                Err(start)
            }
        } else if c == 'n' {
            if chars.len() - start >= 4 && chars[start + 1] == 'u' && chars[start + 2] == 'l'
                && chars[start + 3] == 'l' {
                Ok((QpdfObjectType::Null, start + 4))
            } else {
                Err(start)
            }
        } else {
            let neg = c == '-';
            let p0 = if c == '-' || c == '+' {
                start + 1
            } else {
                start
            };
            match spec_num_scan(chars, p0, false, 0, 0) {
                Err(e) => Err(e),
                Ok((p, isreal, nd, acc)) => {
                    if nd == 0 {
                        Err(start)
                    } else if isreal {
                        Ok((QpdfObjectType::Real, p))
                    } else if !neg && p < chars.len() {
                        let q0 = spec_skip_ws(chars, p);
                        let (q, gen, gd) = spec_gen_scan(chars, q0, 0, 0);
                        if gd > 0 && gd < 9 {
                            let q2 = spec_skip_ws(chars, q);
                            if q2 < chars.len() && chars[q2] == 'R' && acc <= 0xffff_ffff {
                                match spec_lookup_slot(nodes, acc, gen) {
                                    Some(sl) => Ok((nodes[sl].value.spec_type(), q2 + 1)),
                                    None => Ok((QpdfObjectType::Null, q2 + 1)),
                                }
                            } else {
                                Ok((QpdfObjectType::Integer, p))
                            }
                        } else {
                            Ok((QpdfObjectType::Integer, p))
                        }
                    } else {
                        Ok((QpdfObjectType::Integer, p))
                    }
                },
            }
        }
    }
}

/// The grammar of a dictionary body: entries until `>>`, each a name key
/// followed by one object.
pub open spec fn spec_dict_items(nodes: Seq<QpdfNode>, chars: Seq<char>, p: int) -> Result<
    int,
    int,
>
    decreases chars.len() - p, 1int,
{
    let q0 = spec_skip_ws(chars, p);
    let q = if q0 < p {
        p
    } else {
        q0
    };
    if q < 0 {
        Err(q)
    } else if chars.len() - q >= 2 && chars[q] == '>' && chars[q + 1] == '>' {
        Ok(q + 2)
    } else if q >= chars.len() || chars[q] != '/' {
        Err(q)
    } else {
        let k_end0 = spec_name_end(chars, q + 1);
        let k_end = if k_end0 < q + 1 {
            q + 1
        } else if k_end0 > chars.len() {
            chars.len() as int
        } else {
            k_end0
        };
        match spec_parse(nodes, chars, k_end) {
            Err(e) => Err(e),
            Ok((_, p3)) => {
                if p3 <= q {
                    Err(p3)
                } else {
                    spec_dict_items(
                        nodes,
                        chars,
                        if p3 > chars.len() {
                            chars.len() as int
                        } else {
                            p3
                        },
                    )
                }
            },
        }
    }
}

/// The grammar of an array body: objects until `]`.
pub open spec fn spec_arr_items(nodes: Seq<QpdfNode>, chars: Seq<char>, p: int) -> Result<int, int>
    decreases chars.len() - p, 1int,
{
    let q0 = spec_skip_ws(chars, p);
    let q = if q0 < p {
        p
    } else {
        q0
    };
    if q < 0 {
        Err(q)
    } else if q < chars.len() && chars[q] == ']' {
        Ok(q + 1)
    } else if q >= chars.len() {
        Err(q)
    } else {
        match spec_parse(nodes, chars, q) {
            Err(e) => Err(e),
            Ok((_, p3)) => {
                if p3 <= q {
                    Err(p3)
                } else {
                    spec_arr_items(
                        nodes,
                        chars,
                        if p3 > chars.len() {
                            chars.len() as int
                        } else {
                            p3
                        },
                    )
                }
            },
        }
    }
}

/// True for the whitespace characters of the object syntax.
fn is_ws(c: char) -> (r: bool)
    ensures
        r == spec_is_ws(c),
{
    c == ' ' || c == '\t' || c == '\r' || c == '\n' || c == '\x0c' || c == '\0'
}

/// True for the delimiter characters that end a name or number token.
fn is_delim(c: char) -> (r: bool)
    ensures
        r == spec_is_delim(c),
{
    c == '(' || c == ')' || c == '<' || c == '>' || c == '[' || c == ']' || c == '{' || c == '}'
        || c == '/' || c == '%'
}

/// Advances past whitespace.
#[verifier::loop_isolation(false)]
fn skip_ws(chars: &Vec<char>, pos: usize) -> (r: usize)
    requires
        pos <= chars@.len(),
    ensures
        pos <= r <= chars@.len(),
        r == spec_skip_ws(chars@, pos as int),
{
    let mut i = pos;
    while i < chars.len()
        invariant
            pos <= i <= chars@.len(),
            spec_skip_ws(chars@, pos as int) == spec_skip_ws(chars@, i as int),
        decreases chars@.len() - i,
    {
        if !is_ws(chars[i]) {
            return i;
        }
        i = i + 1;
    }
    i
}

/// The numeric value of a decimal digit character, if it is one.
fn digit_val(c: char) -> (r: Option<u64>)
    ensures
        r matches Some(d) ==> d < 10,
        r == spec_digit(c),
{
    let u = c as u32;
    if 48 <= u && u <= 57 {
        Some((u - 48) as u64)
    } else {
        None
    }
}

/// The numeric value of a hexadecimal digit character, if it is one.
fn hex_val(c: char) -> (r: Option<u8>)
    ensures
        r matches Some(d) ==> d < 16,
        r == spec_hex_digit(c),
{
    let u = c as u32;
    if 48 <= u && u <= 57 {
        Some((u - 48) as u8)
    } else if 97 <= u && u <= 102 {
        Some((u - 87) as u8)
    } else if 65 <= u && u <= 70 {
        Some((u - 55) as u8)
    } else {
        None
    }
}

/// Inserts an entry into a dictionary under construction, overwriting an
/// earlier entry with the same key so that keys stay unique.
#[verifier::loop_isolation(false)]
fn put_entry(es: &mut Vec<QpdfDictEntry>, key: String, child: QpdfChild, doc: &Qpdf)
    requires
        spec_dict_keys_unique(old(es)@),
        spec_entries_wf(doc.nodes@, old(es)@),
        spec_child_wf(doc.nodes@, child),
    ensures
        spec_dict_keys_unique(final(es)@),
        spec_entries_wf(doc.nodes@, final(es)@),
{
    let mut i: usize = 0;
    let n = es.len();
    while i < n
        invariant
            i <= n,
            n == es@.len(),
            spec_dict_keys_unique(es@),
            spec_entries_wf(doc.nodes@, es@),
            forall|j: int| 0 <= j < i ==> (#[trigger] es@[j]).key@ != key@,
        decreases n - i,
    {
        if es[i].key == key {
            let ghost es0 = es@;
            es.remove(i);
            es.insert(i, QpdfDictEntry { key, child });
            proof {
                assert(es@ =~= es0.update(i as int, es@[i as int]));
                assert forall|j: int| 0 <= j < es@.len() implies spec_child_wf(
                    doc.nodes@,
                    (#[trigger] es@[j]).child,
                ) by {
                    if j != i {
                        crate::object::lemma_entries_wf_index(doc.nodes@, es0, j);
                    }
                }
                crate::object::lemma_entries_wf_build(doc.nodes@, es@);
            }
            return ;
        }
        i = i + 1;
    }
    let ghost es0 = es@;
    es.push(QpdfDictEntry { key, child });
    proof {
        assert(es@.drop_last() =~= es0);
    }
}


/// Success and positions of the grammar do not depend on the node list:
/// nodes only choose the reported type of a top-level indirect reference.
pub open spec fn spec_parse_pos_eq(
    a: Seq<QpdfNode>,
    b: Seq<QpdfNode>,
    chars: Seq<char>,
    pos: int,
) -> bool {
    match (spec_parse(a, chars, pos), spec_parse(b, chars, pos)) {
        (Ok((t1, p1)), Ok((t2, p2))) => p1 == p2,
        (Err(e1), Err(e2)) => e1 == e2,
        _ => false,
    }
}

/// Proves `spec_parse_pos_eq` for all node lists.
pub proof fn lemma_parse_pos_indep(a: Seq<QpdfNode>, b: Seq<QpdfNode>, chars: Seq<char>, pos: int)
    ensures
        spec_parse_pos_eq(a, b, chars, pos),
    decreases chars.len() - pos, 0int,
{
    let start0 = spec_skip_ws(chars, pos);
    let start = if start0 < pos {
        pos
    } else {
        start0
    };
    if 0 <= start < chars.len() {
        let c = chars[start];
        if c == '<' {
            if start + 1 < chars.len() && chars[start + 1] == '<' {
                lemma_dict_items_pos_indep(a, b, chars, start + 2);
            }
        } else if c == '[' {
            lemma_arr_items_pos_indep(a, b, chars, start + 1);
        }
    }
}

/// Dictionary bodies scan identically for all node lists.
pub proof fn lemma_dict_items_pos_indep(
    a: Seq<QpdfNode>,
    b: Seq<QpdfNode>,
    chars: Seq<char>,
    p: int,
)
    ensures
        match (spec_dict_items(a, chars, p), spec_dict_items(b, chars, p)) {
            (Ok(e1), Ok(e2)) => e1 == e2,
            (Err(e1), Err(e2)) => e1 == e2,
            _ => false,
        },
    decreases chars.len() - p, 1int,
{
    let q0 = spec_skip_ws(chars, p);
    let q = if q0 < p {
        p
    } else {
        q0
    };
    if q >= 0 && !(chars.len() - q >= 2 && chars[q] == '>' && chars[q + 1] == '>') && q
        < chars.len() && chars[q] == '/' {
        let k_end0 = spec_name_end(chars, q + 1);
        let k_end = if k_end0 < q + 1 {
            q + 1
        } else if k_end0 > chars.len() {
            chars.len() as int
        } else {
            k_end0
        };
        lemma_parse_pos_indep(a, b, chars, k_end);
        match spec_parse(a, chars, k_end) {
            Ok((_, p3)) => {
                if p3 > q {
                    lemma_dict_items_pos_indep(
                        a,
                        b,
                        chars,
                        if p3 > chars.len() {
                            chars.len() as int
                        } else {
                            p3
                        },
                    );
                }
            },
            Err(_) => {},
        }
    }
}

/// Array bodies scan identically for all node lists.
pub proof fn lemma_arr_items_pos_indep(
    a: Seq<QpdfNode>,
    b: Seq<QpdfNode>,
    chars: Seq<char>,
    p: int,
)
    ensures
        match (spec_arr_items(a, chars, p), spec_arr_items(b, chars, p)) {
            (Ok(e1), Ok(e2)) => e1 == e2,
            (Err(e1), Err(e2)) => e1 == e2,
            _ => false,
        },
    decreases chars.len() - p, 1int,
{
    let q0 = spec_skip_ws(chars, p);
    let q = if q0 < p {
        p
    } else {
        q0
    };
    if q >= 0 && !(q < chars.len() && chars[q] == ']') && q < chars.len() {
        lemma_parse_pos_indep(a, b, chars, q);
        match spec_parse(a, chars, q) {
            Ok((_, p3)) => {
                if p3 > q {
                    lemma_arr_items_pos_indep(
                        a,
                        b,
                        chars,
                        if p3 > chars.len() {
                            chars.len() as int
                        } else {
                            p3
                        },
                    );
                }
            },
            Err(_) => {},
        }
    }
}

/// The verdict of the grammar on a whole text: the type of the one object
/// it holds, or the position where parsing stops, counting trailing
/// garbage after the object as an error.
pub open spec fn spec_object_outcome(nodes: Seq<QpdfNode>, text: Seq<char>) -> Result<
    QpdfObjectType,
    int,
> {
    match spec_parse(nodes, text, 0) {
        Ok((t, p)) => {
            let rest = spec_skip_ws(text, p);
            if rest < text.len() {
                Err(rest)
            } else {
                Ok(t)
            }
        },
        Err(e) => Err(e),
    }
}

/// One parsed child and the position after it, or the position where
/// parsing stopped.
type ParseStep = Result<(QpdfChild, usize), usize>;

/// Parses one object of the textual syntax starting at `pos`, after
/// leading whitespace. Indirect references `id gen R` resolve against the
/// document: a reference to an existing object becomes a shared reference,
/// one to an unknown object becomes null.
#[verifier::loop_isolation(false)]
#[verifier::rlimit(100)]
fn parse_value(doc: &Qpdf, chars: &Vec<char>, pos: usize) -> (r: ParseStep)
    requires
        doc.wf(),
        pos <= chars@.len(),
    ensures
        r matches Ok((c, p2)) ==> (pos < p2 <= chars@.len() && spec_child_wf(doc.nodes@, c) && (
        c matches QpdfChild::Val(v) ==> !(v is Stream))),
        r matches Err(ep) ==> ep <= chars@.len(),
        match spec_parse(doc.nodes@, chars@, pos as int) {
            Ok((t, p2)) => r matches Ok((c, q)) && q as int == p2 && (match c {
                QpdfChild::Ref(s) => s < doc.nodes@.len() && doc.nodes@[s as int].value.spec_type()
                    == t,
                QpdfChild::Val(v) => v.spec_type() == t,
            }),
            Err(e) => r matches Err(e2) && e2 as int == e,
        },
    decreases chars@.len() - pos,
{
    let start = skip_ws(chars, pos);
    if start >= chars.len() {
        return Err(start);
    }
    let c = chars[start];
    if c == '<' {
        if start + 1 < chars.len() && chars[start + 1] == '<' {
            // dictionary
            let mut es: Vec<QpdfDictEntry> = Vec::new();
            let mut p = start + 2;
            loop
                invariant
                    start < p <= chars@.len(),
                    spec_dict_keys_unique(es@),
                    spec_entries_wf(doc.nodes@, es@),
                    spec_dict_items(doc.nodes@, chars@, (start + 2) as int) == spec_dict_items(
                        doc.nodes@,
                        chars@,
                        p as int,
                    ),
                decreases chars@.len() - p,
            {
                let ghost p_in = p as int;
                p = skip_ws(chars, p);
                proof {
                    assert(spec_skip_ws(chars@, p_in) >= p_in);
                }
                if chars.len() - p >= 2 && chars[p] == '>' && chars[p + 1] == '>' {
                    return Ok((QpdfChild::Val(QpdfValue::Dictionary(es)), p + 2));
                }
                if p >= chars.len() || chars[p] != '/' {
                    return Err(p);
                }
                let mut key = String::new();
                push_char(&mut key, '/');
                let mut q = p + 1;
                while q < chars.len() && !is_ws(chars[q]) && !is_delim(chars[q])
                    invariant
                        p < q <= chars@.len(),
                        spec_name_end(chars@, (p + 1) as int) == spec_name_end(chars@, q as int),
                    decreases chars@.len() - q,
                {
                    push_char(&mut key, chars[q]);
                    q = q + 1;
                }
                proof {
                    assert(spec_name_end(chars@, (p + 1) as int) == q as int);
                }
                let (child, p3) = match parse_value(doc, chars, q) {
                    Ok(x) => x,
                    Err(e) => {
                        return Err(e);
                    },
                };
                put_entry(&mut es, key, child, doc);
                if p3 <= p {
                    return Err(p3);
                }
                p = p3;
            }
        } else {
            // hexadecimal string
            let mut bytes: Vec<u8> = Vec::new();
            let mut p = start + 1;
            let mut hi: Option<u8> = None;
            while p < chars.len() && chars[p] != '>'
                invariant
                    start < p <= chars@.len(),
                    hi matches Some(h) ==> h < 16,
                    spec_hex_end(chars@, (start + 1) as int) == spec_hex_end(chars@, p as int),
                decreases chars@.len() - p,
            {
                let ch = chars[p];
                if is_ws(ch) {
                    p = p + 1;
                } else {
                    match hex_val(ch) {
                        Some(d) => {
                            match hi {
                                Option::None => {
                                    hi = Some(d);
                                },
                                Some(h) => {
                                    bytes.push(16 * h + d);
                                    hi = None;
                                },
                            }
                            p = p + 1;
                        },
                        Option::None => {
                            return Err(p);
                        },
                    }
                }
            }
            if p >= chars.len() {
                return Err(p);
            }
            if let Some(h) = hi {
                bytes.push(16 * h);
            }
            return Ok((QpdfChild::Val(QpdfValue::Str(bytes)), p + 1));
        }
    } else if c == '[' {
        let mut cs: Vec<QpdfChild> = Vec::new();
        let mut p = start + 1;
        loop
            invariant
                start < p <= chars@.len(),
                spec_children_wf(doc.nodes@, cs@),
                spec_arr_items(doc.nodes@, chars@, (start + 1) as int) == spec_arr_items(
                    doc.nodes@,
                    chars@,
                    p as int,
                ),
            decreases chars@.len() - p,
        {
            let ghost p_in = p as int;
            p = skip_ws(chars, p);
            proof {
                assert(spec_skip_ws(chars@, p_in) >= p_in);
            }
            if p < chars.len() && chars[p] == ']' {
                return Ok((QpdfChild::Val(QpdfValue::Array(cs)), p + 1));
            }
            if p >= chars.len() {
                return Err(p);
            }
            let (child, p3) = match parse_value(doc, chars, p) {
                Ok(x) => x,
                Err(e) => {
                    return Err(e);
                },
            };
            let ghost cs0 = cs@;
            cs.push(child);
            proof {
                assert(cs@.drop_last() =~= cs0);
            }
            if p3 <= p {
                return Err(p3);
            }
            p = p3;
        }
    } else if c == '(' {
        let mut bytes: Vec<u8> = Vec::new();
        let mut depth: usize = 1;
        let mut p = start + 1;
        while p < chars.len() && depth > 0
            invariant
                start < p <= chars@.len(),
                depth <= p,
                spec_lit_end(chars@, (start + 1) as int, 1) == spec_lit_end(
                    chars@,
                    p as int,
                    depth as int,
                ),
            decreases chars@.len() - p,
        {
            let ch = chars[p];
            if ch == '\\' {
                if p + 1 >= chars.len() {
                    return Err(p);
                }
                let e = chars[p + 1];
                let b: u8 = if e == 'n' {
                    10
                } else if e == 'r' {
                    13
                } else if e == 't' {
                    9
                } else if e == 'b' {
                    8
                } else if e == 'f' {
                    12
                } else {
                    let u = e as u32;
                    if u < 256 {
                        u as u8
                    } else {
                        return Err(p + 1);
                    }
                };
                bytes.push(b);
                p = p + 2;
            } else if ch == '(' {
                depth = depth + 1;
                bytes.push(40);
                p = p + 1;
            } else if ch == ')' {
                depth = depth - 1;
                if depth > 0 {
                    bytes.push(41);
                }
                p = p + 1;
            } else {
                let u = ch as u32;
                if u < 256 {
                    bytes.push(u as u8);
                } else {
                    return Err(p);
                }
                p = p + 1;
            }
        }
        if depth > 0 {
            return Err(p);
        }
        return Ok((QpdfChild::Val(QpdfValue::Str(bytes)), p));
    } else if c == '/' {
        let mut name = String::new();
        push_char(&mut name, '/');
        let mut q = start + 1;
        while q < chars.len() && !is_ws(chars[q]) && !is_delim(chars[q])
            invariant
                start < q <= chars@.len(),
                spec_name_end(chars@, (start + 1) as int) == spec_name_end(chars@, q as int),
            decreases chars@.len() - q,
        {
            push_char(&mut name, chars[q]);
            q = q + 1;
        }
        return Ok((QpdfChild::Val(QpdfValue::Name(name)), q));
    } else if c == 't' {
        if chars.len() - start >= 4 && chars[start + 1] == 'r' && chars[start + 2] == 'u'
            && chars[start + 3] == 'e' {
            return Ok((QpdfChild::Val(QpdfValue::Boolean(true)), start + 4));
        }
        return Err(start);
    } else if c == 'f' {
        if chars.len() - start >= 5 && chars[start + 1] == 'a' && chars[start + 2] == 'l'
            && chars[start + 3] == 's' && chars[start + 4] == 'e' {
            return Ok((QpdfChild::Val(QpdfValue::Boolean(false)), start + 5));
        }
        return Err(start);
    } else if c == 'n' {
        if chars.len() - start >= 4 && chars[start + 1] == 'u' && chars[start + 2] == 'l'
            && chars[start + 3] == 'l' {
            return Ok((QpdfChild::Val(QpdfValue::Null), start + 4));
        }
        return Err(start);
    } else {
        // number, or indirect reference
        let mut p = start;
        let neg = if c == '-' {
            p = p + 1;
            true
        } else if c == '+' {
            p = p + 1;
            false
        } else {
            false
        };
        let ghost p0 = p as int;
        let mut acc: u64 = 0;
        let mut ndigits: usize = 0;
        let mut isreal = false;
        while p < chars.len()
            invariant
                start <= p <= chars@.len(),
                p0 <= p,
                acc <= 0x7fff_ffff_ffff_ffffu64,
                ndigits <= p,
                start + ndigits <= p,
                spec_num_scan(chars@, p0, false, 0, 0) == spec_num_scan(
                    chars@,
                    p as int,
                    isreal,
                    ndigits as int,
                    acc as int,
                ),
            decreases chars@.len() - p,
        {
            let ch = chars[p];
            if ch == '.' {
                if isreal {
                    return Err(p);
                }
                isreal = true;
                p = p + 1;
            } else {
                match digit_val(ch) {
                    Some(d) => {
                        if !isreal {
                            if acc > 922_337_203_685_477_580u64 || (acc
                                == 922_337_203_685_477_580u64 && d > 7) {
                                return Err(p);
                            }
                            acc = acc * 10 + d;
                        }
                        ndigits = ndigits + 1;
                        p = p + 1;
                    },
                    Option::None => {
                        break ;
                    },
                }
            }
        }
        if ndigits == 0 {
            return Err(start);
        }
        if isreal {
            let mut text = String::new();
            let mut q = start;
            while q < p
                invariant
                    start <= q <= p <= chars@.len(),
                decreases p - q,
            {
                push_char(&mut text, chars[q]);
                q = q + 1;
            }
            return Ok((QpdfChild::Val(QpdfValue::Real(text)), p));
        }
        let value: i64 = if neg {
            (-(acc as i128)) as i64
        } else {
            acc as i64
        };
        // try `gen R`, making this an indirect reference
        if !neg && p < chars.len() {
            let q0 = skip_ws(chars, p);
            let mut q = q0;
            let mut gen: u64 = 0;
            let mut gdigits: usize = 0;
            while q < chars.len() && gdigits < 9
                invariant
                    q0 <= q <= chars@.len(),
                    gen <= 0xffff_ffffu64,
                    gdigits <= q,
                    spec_gen_scan(chars@, q0 as int, 0, 0) == spec_gen_scan(
                        chars@,
                        q as int,
                        gen as int,
                        gdigits as int,
                    ),
                decreases chars@.len() - q,
            {
                match digit_val(chars[q]) {
                    Some(d) => {
                        if gen >= 0x0fff_ffffu64 {
                            break ;
                        }
                        gen = gen * 10 + d;
                        gdigits = gdigits + 1;
                        q = q + 1;
                    },
                    Option::None => {
                        break ;
                    },
                }
            }
            if gdigits > 0 && gdigits < 9 {
                let q2 = skip_ws(chars, q);
                if q2 < chars.len() && chars[q2] == 'R' && acc <= 0xffff_ffffu64 {
                    let id = acc as u32;
                    let g = gen as u32;
                    match doc.get_object_by_id(id, g) {
                        Some(h) => {
                            proof {
                                let sl = spec_lookup_slot(doc.nodes@, acc as int, gen as int);
                                assert(sl matches Some(s2) && s2 == h.slot as int) by {
                                    assert(doc.nodes@[h.slot as int].id == id
                                        && doc.nodes@[h.slot as int].gen == g
                                        && doc.nodes@[h.slot as int].id != 0);
                                    let s2 = sl->Some_0;
                                    assert(doc.nodes@[s2] == doc.nodes@[s2]);
                                    assert(doc.nodes@[h.slot as int] == doc.nodes@[h.slot as int]);
                                }
                            }
                            return Ok((QpdfChild::Ref(h.slot), q2 + 1));
                        },
                        Option::None => {
                            proof {
                                assert(spec_lookup_slot(doc.nodes@, acc as int, gen as int)
                                    is None);
                            }
                            return Ok((QpdfChild::Val(QpdfValue::Null), q2 + 1));
                        },
                    }
                }
            }
        }
        return Ok((QpdfChild::Val(QpdfValue::Integer(value)), p));
    }
}

impl Qpdf {
    /// Parses one object from its textual syntax and adds it to the graph.
    /// The grammar decides the outcome: text it accepts yields a handle of
    /// the type it denotes, text it rejects (including trailing garbage) is
    /// refused with a `ParseError` naming the position where parsing
    /// stopped, leaving the document unchanged.
    #[verifier::loop_isolation(false)]
    pub fn parse_object(&mut self, text: &str) -> (r: Result<QpdfObject, QpdfError>)
        requires
            old(self).wf(),
        ensures
            final(self).wf(),
            spec_same_meta(*old(self), *final(self)),
            final(self).next_id == old(self).next_id,
            spec_nodes_extend(old(self).nodes@, final(self).nodes@),
            forall|s: int|
                0 <= s < old(self).nodes@.len() ==> final(self).nodes@[s] == old(self).nodes@[s],
            match spec_object_outcome(old(self).nodes@, text@) {
                Ok(t) => r matches Ok(h) && final(self).valid(h) && final(self).type_of(h) == t,
                Err(p) => r matches Err(e) && (e matches QpdfError::ParseError { position }
                    && position as int == p) && *final(self) == *old(self),
            },
    {
        let mut chars: Vec<char> = Vec::new();
        let n = text.unicode_len();
        let mut i: usize = 0;
        while i < n
            invariant
                i <= n,
                n == text@.len(),
                chars@ == text@.take(i as int),
            decreases n - i,
        {
            chars.push(text.get_char(i));
            proof {
                assert(chars@ =~= text@.take(i + 1));
            }
            i = i + 1;
        }
        proof {
            assert(chars@ =~= text@);
        }
        match parse_value(self, &chars, 0) {
            Ok((child, p)) => {
                let rest = skip_ws(&chars, p);
                if rest < chars.len() {
                    return Err(QpdfError::ParseError { position: rest });
                }
                match child {
                    QpdfChild::Ref(s) => Ok(QpdfObject { slot: s }),
                    QpdfChild::Val(v) => Ok(self.alloc_direct(v)),
                }
            },
            Err(p) => Err(QpdfError::ParseError { position: p }),
        }
    }
}

} // verus!
