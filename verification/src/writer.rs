use vstd::prelude::*;
use crate::document::Qpdf;
use crate::error::QpdfError;
use crate::object::QpdfObject;
use crate::object::QpdfValue;
use crate::render::push_u64_dec;
use crate::render::render_value;
use crate::object::spec_value_wf;
use vstd::string::StrSliceExecFns;

verus! {

/// How object streams are treated on write.
#[derive(Clone, Copy, Debug, PartialEq, Eq, Structural)]
pub enum ObjectStreamMode {
    /// Do not write object streams.
    Disable,
    /// Keep the object streams of the input.
    Preserve,
    /// Generate object streams.
    Generate,
}

/// How stream payloads are treated on write.
#[derive(Clone, Copy, Debug, PartialEq, Eq, Structural)]
pub enum StreamDataMode {
    /// Write payloads uncompressed.
    Uncompress,
    /// Keep payloads as they are.
    Preserve,
    /// Compress payloads.
    Compress,
}

/// Writer configuration: a plain option set consumed together with a
/// finished document to produce bytes.
#[derive(Debug)]
pub struct QpdfWriter {
    /// Version text forced into the output header; empty keeps the
    /// document's own version.
    pub pdf_version: String,
    /// Mark the output as linearized.
    pub linearize: bool,
    /// Use a fixed document id.
    pub static_id: bool,
    /// Compress stream payloads.
    pub compress_streams: bool,
    /// Payload handling mode.
    pub stream_data_mode: StreamDataMode,
    /// Object stream handling mode.
    pub object_stream_mode: ObjectStreamMode,
    /// Normalize page content.
    pub content_normalization: bool,
    /// Keep objects no reference reaches.
    pub preserve_unreferenced_objects: bool,
}

/// The bytes a character sequence serializes to: each character its code,
/// a question mark for one beyond a single byte.
pub open spec fn spec_text_bytes(s: Seq<char>) -> Seq<u8> {
    Seq::new(
        s.len(),
        |i: int|
            if (s[i] as u32) < 256 {
                (s[i] as u32) as u8
            } else {
                63u8
            },
    )
}

/// The header bytes a writer puts first: the version line, then the
/// linearization marker line when asked for.
pub open spec fn spec_header_bytes(version: Seq<char>, linearize: bool) -> Seq<u8> {
    spec_text_bytes("%PDF-"@ + version + "\n"@) + (if linearize {
        spec_text_bytes("%linearized\n"@)
    } else {
        Seq::empty()
    })
}

/// Appends the single-byte codes of a text.
#[verifier::loop_isolation(false)]
pub(crate) fn push_text_bytes(out: &mut Vec<u8>, s: &str)
    ensures
        final(out)@ == old(out)@ + spec_text_bytes(s@),
{
    let n = s.unicode_len();
    let mut i: usize = 0;
    while i < n
        invariant
            i <= n,
            n == s@.len(),
            out@ == old(out)@ + spec_text_bytes(s@.take(i as int)),
        decreases n - i,
    {
        let c = s.get_char(i);
        let u = c as u32;
        if u < 256 {
            out.push(u as u8);
        } else {
            out.push(63);
        }
        proof {
            assert(out@ =~= old(out)@ + spec_text_bytes(s@.take(i + 1)));
        }
        i = i + 1;
    }
    proof {
        assert(s@.take(s@.len() as int) =~= s@);
        assert(out@ =~= old(out)@ + spec_text_bytes(s@));
    }
}

impl QpdfWriter {
    /// A writer with default options: keep the document's version, no
    /// linearization, nothing compressed or reordered.
    pub fn new() -> (w: QpdfWriter)
        ensures
            w.pdf_version@.len() == 0,
            !w.linearize,
    {
        QpdfWriter {
            pdf_version: String::new(),
            linearize: false,
            static_id: false,
            compress_streams: false,
            stream_data_mode: StreamDataMode::Preserve,
            object_stream_mode: ObjectStreamMode::Preserve,
            content_normalization: false,
            preserve_unreferenced_objects: false,
        }
    }

    /// Forces the output header's version text.
    pub fn force_pdf_version(&mut self, version: &str)
        ensures
            final(self).pdf_version@ == version@,
            final(self).linearize == old(self).linearize,
    {
        self.pdf_version = version.to_owned();
    }

    /// Chooses whether the output is marked linearized.
    pub fn linearize(&mut self, on: bool)
        ensures
            final(self).linearize == on,
            final(self).pdf_version == old(self).pdf_version,
    {
        self.linearize = on;
    }

    /// Serializes the document: the version header, the linearization
    /// marker when configured, every indirect object in the graph, the
    /// trailer dictionary, and the end marker.
    #[verifier::loop_isolation(false)]
    pub fn write_to_memory(&self, doc: &Qpdf) -> (r: Result<Vec<u8>, QpdfError>)
        requires
            doc.wf(),
        ensures
            r matches Ok(out) && {
                let v = if self.pdf_version@.len() > 0 {
                    self.pdf_version@
                } else {
                    doc.version@
                };
                let head = spec_header_bytes(v, self.linearize);
                out@.len() >= head.len() && out@.take(head.len() as int) == head
            },
    {
        let mut out: Vec<u8> = Vec::new();
        push_text_bytes(&mut out, "%PDF-");
        if self.pdf_version.as_str().unicode_len() > 0 {
            push_text_bytes(&mut out, self.pdf_version.as_str());
        } else {
            push_text_bytes(&mut out, doc.version.as_str());
        }
        push_text_bytes(&mut out, "\n");
        if self.linearize {
            push_text_bytes(&mut out, "%linearized\n");
        }
        let ghost head = out@;
        let mut i: usize = 0;
        while i < doc.nodes.len()
            invariant
                doc.wf(),
                out@.len() >= head.len(),
                out@.take(head.len() as int) == head,
            decreases doc.nodes@.len() - i,
        {
            let n = &doc.nodes[i];
            if n.id != 0 {
                let mut line = String::new();
                push_u64_dec(&mut line, n.id as u64);
                line.append(" ");
                push_u64_dec(&mut line, n.gen as u64);
                line.append(" obj\n");
                push_text_bytes(&mut out, line.as_str());
                proof {
                    assert(spec_value_wf(doc.nodes@, doc.nodes@[i as int].value));
                }
                match &n.value {
                    QpdfValue::Stream { dict_slot, data } => {
                        let mut dict_text = String::new();
                        proof {
                            assert(spec_value_wf(doc.nodes@, doc.nodes@[*dict_slot as int].value));
                        }
                        render_value(&doc.nodes, &doc.nodes[*dict_slot].value, false, &mut dict_text);
                        push_text_bytes(&mut out, dict_text.as_str());
                        push_text_bytes(&mut out, "\nstream\n");
                        out.extend_from_slice(data.as_slice());
                        push_text_bytes(&mut out, "\nendstream");
                    },
                    _ => {
                        let mut text = String::new();
                        render_value(&doc.nodes, &n.value, false, &mut text);
                        push_text_bytes(&mut out, text.as_str());
                    },
                }
                push_text_bytes(&mut out, "\nendobj\n");
                proof {
                    assert(out@.take(head.len() as int) =~= head);
                }
            }
            i = i + 1;
        }
        push_text_bytes(&mut out, "trailer\n");
        let trailer = QpdfObject { slot: doc.trailer_slot };
        let ttext = trailer.to_string(doc);
        push_text_bytes(&mut out, ttext.as_str());
        push_text_bytes(&mut out, "\n%%EOF\n");
        proof {
            assert(out@.take(head.len() as int) =~= head);
        }
        Ok(out)
    }
}


/// The position of the first line-ending byte at or after `i`.
pub open spec fn spec_line_end(b: Seq<u8>, i: int) -> int
    decreases b.len() - i,
{
    if i < 0 || i >= b.len() || b[i] == 10 {
        i
    } else {
        spec_line_end(b, i + 1)
    }
}

/// A scan that saw no line ending before `i` and one at `i` found the
/// first line ending.
pub proof fn lemma_line_end(b: Seq<u8>, s: int, i: int)
    requires
        0 <= s <= i <= b.len(),
        forall|j: int| s <= j < i ==> b[j] != 10,
        i == b.len() || b[i] == 10,
    ensures
        spec_line_end(b, s) == i,
    decreases i - s,
{
    if s < i {
        lemma_line_end(b, s + 1, i);
    }
}

/// The version text of serialized bytes: what stands between the
/// `%PDF-` magic and the end of the first line; `None` when the magic is
/// missing.
pub open spec fn spec_mem_version(b: Seq<u8>) -> Option<Seq<char>> {
    if b.len() >= 5 && b.take(5) == seq![37u8, 80u8, 68u8, 70u8, 45u8] {
        Some(
            Seq::new(
                (spec_line_end(b, 5) - 5) as nat,
                |j: int| b[5 + j] as char,
            ),
        )
    } else {
        None
    }
}

/// The linearization marker bytes, `%linearized` and a line ending.
pub open spec fn spec_lin_marker() -> Seq<u8> {
    seq![37u8, 108u8, 105u8, 110u8, 101u8, 97u8, 114u8, 105u8, 122u8, 101u8, 100u8, 10u8]
}

/// Whether serialized bytes carry the linearization marker line right
/// after the version line.
pub open spec fn spec_mem_linearized(b: Seq<u8>) -> bool {
    let e = spec_line_end(b, 5) + 1;
    e + 12 <= b.len() && b.subrange(e, e + 12) == spec_lin_marker()
}

/// Compares a byte vector to a byte slice.
fn bytes_eq(a: &Vec<u8>, b: &[u8]) -> (r: bool)
    ensures
        r == (a@ == b@),
{
    if a.len() != b.len() {
        proof {
            assert(a@.len() != b@.len());
        }
        return false;
    }
    let mut i: usize = 0;
    while i < a.len()
        invariant
            i <= a@.len(),
            a@.len() == b@.len(),
            forall|j: int| 0 <= j < i ==> a@[j] == b@[j],
        decreases a@.len() - i,
    {
        if a[i] != b[i] {
            return false;
        }
        i = i + 1;
    }
    proof {
        assert(a@ =~= b@);
    }
    true
}

impl Qpdf {
    /// Reads a document back from serialized bytes, without a password;
    /// an encrypted document is refused with `AuthenticationError`.
    pub fn read_from_memory(bytes: &[u8]) -> (r: Result<Qpdf, QpdfError>)
        ensures
            r matches Ok(d) ==> (d.wf() && (spec_mem_version(bytes@) matches Some(v) && d.version@
                == v) && d.linearized == spec_mem_linearized(bytes@)),
            r matches Err(e) ==> ((e matches QpdfError::ParseError { .. }) || e
                == QpdfError::AuthenticationError),
            spec_mem_version(bytes@) is None ==> r is Err,
    {
        read_mem(bytes, None)
    }

    /// Reads back an encrypted document, checking the password; a wrong
    /// password is refused with `AuthenticationError`.
    pub fn read_from_memory_encrypted(bytes: &[u8], password: &str) -> (r: Result<
        Qpdf,
        QpdfError,
    >)
        ensures
            r matches Ok(d) ==> (d.wf() && (spec_mem_version(bytes@) matches Some(v) && d.version@
                == v) && d.linearized == spec_mem_linearized(bytes@)),
            r matches Err(e) ==> ((e matches QpdfError::ParseError { .. }) || e
                == QpdfError::AuthenticationError),
            spec_mem_version(bytes@) is None ==> r is Err,
    {
        read_mem(bytes, Some(password))
    }
}


/// The first position at or after `t` where the pattern occurs.
pub open spec fn spec_find(b: Seq<u8>, pat: Seq<u8>, t: int) -> Option<int>
    decreases b.len() - t,
{
    if t < 0 || pat.len() <= 0 || t + pat.len() > b.len() {
        None
    } else if b.subrange(t, t + pat.len()) == pat {
        Some(t)
    } else {
        spec_find(b, pat, t + 1)
    }
}

/// The trailer keyword line.
pub open spec fn spec_trailer_pat() -> Seq<u8> {
    seq![116u8, 114u8, 97u8, 105u8, 108u8, 101u8, 114u8, 10u8]
}

/// The end-of-file marker.
pub open spec fn spec_eof_pat() -> Seq<u8> {
    seq![37u8, 37u8, 69u8, 79u8, 70u8]
}

/// The trailer text of serialized bytes: what stands between the first
/// trailer keyword line and the next end-of-file marker (or the end),
/// each byte read as the character with its code; `None` when no trailer
/// keyword occurs.
pub open spec fn spec_trailer_text(b: Seq<u8>) -> Option<Seq<char>> {
    match spec_find(b, spec_trailer_pat(), 0) {
        Some(ts) => {
            let s = ts + 8;
            let e = match spec_find(b, spec_eof_pat(), s) {
                Some(u) => u,
                None => b.len() as int,
            };
            Some(Seq::new((e - s) as nat, |j: int| b[s + j] as char))
        },
        None => None,
    }
}

/// The shared reading path: header, linearization marker, trailer, and
/// the password check against the trailer's `/Encrypt` entry. The grammar
/// decides the trailer: a missing trailer keyword leaves the default
/// trailer and succeeds, a trailer whose text the grammar rejects is a
/// `ParseError` at the position the grammar names, and an authentication
/// failure can only follow a trailer the grammar accepted.
#[verifier::loop_isolation(false)]
#[verifier::rlimit(100)]
fn read_mem(bytes: &[u8], password: Option<&str>) -> (r: Result<Qpdf, QpdfError>)
    ensures
        r matches Ok(d) ==> (d.wf() && (spec_mem_version(bytes@) matches Some(v) && d.version@
            == v) && d.linearized == spec_mem_linearized(bytes@)),
        r matches Err(e) ==> ((e matches QpdfError::ParseError { .. }) || e
            == QpdfError::AuthenticationError),
        spec_mem_version(bytes@) is None ==> r == Err::<Qpdf, QpdfError>(
            QpdfError::ParseError { position: 0 },
        ),
        (spec_mem_version(bytes@) is Some && spec_trailer_text(bytes@) is None) ==> r is Ok,
        (spec_mem_version(bytes@) is Some && spec_trailer_text(bytes@) is Some
            && crate::parse::spec_object_outcome(
            Seq::empty(),
            spec_trailer_text(bytes@)->Some_0,
        ) is Err) ==> (r matches Err(e) && (e matches QpdfError::ParseError { position }
            && position as int == crate::parse::spec_object_outcome(
            Seq::empty(),
            spec_trailer_text(bytes@)->Some_0,
        )->Err_0)),
        r == Err::<Qpdf, QpdfError>(QpdfError::AuthenticationError) ==> (spec_trailer_text(bytes@)
            is Some && crate::parse::spec_object_outcome(
            Seq::empty(),
            spec_trailer_text(bytes@)->Some_0,
        ) is Ok),
{
    if bytes.len() < 5 || bytes[0] != 37 || bytes[1] != 80 || bytes[2] != 68 || bytes[3] != 70
        || bytes[4] != 45 {
        proof {
            if bytes@.len() >= 5 {
                assert(bytes@.take(5) =~= seq![bytes@[0], bytes@[1], bytes@[2], bytes@[3], bytes@[4]]);
            }
        }
        return Err(QpdfError::ParseError { position: 0 });
    }
    proof {
        assert(bytes@.take(5) =~= seq![37u8, 80u8, 68u8, 70u8, 45u8]);
    }
    let mut e: usize = 5;
    while e < bytes.len() && bytes[e] != 10
        invariant
            5 <= e <= bytes@.len(),
            forall|j: int| 5 <= j < e ==> bytes@[j] != 10,
        decreases bytes@.len() - e,
    {
        e = e + 1;
    }
    proof {
        lemma_line_end(bytes@, 5, e as int);
    }
    let mut version = String::new();
    let mut i: usize = 5;
    while i < e
        invariant
            5 <= i <= e,
            version@ == Seq::new((i - 5) as nat, |j: int| bytes@[5 + j] as char),
        decreases e - i,
    {
        crate::render::push_char(&mut version, bytes[i] as char);
        proof {
            assert(version@ =~= Seq::new((i + 1 - 5) as nat, |j: int| bytes@[5 + j] as char));
        }
        i = i + 1;
    }
    let mut linearized = false;
    if e < bytes.len() && bytes.len() - (e + 1) >= 12 {
        let ls = e + 1;
        let ok = bytes[ls] == 37 && bytes[ls + 1] == 108 && bytes[ls + 2] == 105 && bytes[ls + 3]
            == 110 && bytes[ls + 4] == 101 && bytes[ls + 5] == 97 && bytes[ls + 6] == 114
            && bytes[ls + 7] == 105 && bytes[ls + 8] == 122 && bytes[ls + 9] == 101 && bytes[ls
            + 10] == 100 && bytes[ls + 11] == 10;
        linearized = ok;
        proof {
            if ok {
                assert(bytes@.subrange(ls as int, ls + 12) =~= spec_lin_marker());
            } else {
                assert(bytes@.subrange(ls as int, ls + 12) != spec_lin_marker()) by {
                    if bytes@.subrange(ls as int, ls + 12) == spec_lin_marker() {
                        assert(bytes@.subrange(ls as int, ls + 12)[0] == 37);
                        assert(bytes@.subrange(ls as int, ls + 12)[1] == 108);
                        assert(bytes@.subrange(ls as int, ls + 12)[2] == 105);
                        assert(bytes@.subrange(ls as int, ls + 12)[3] == 110);
                        assert(bytes@.subrange(ls as int, ls + 12)[4] == 101);
                        assert(bytes@.subrange(ls as int, ls + 12)[5] == 97);
                        assert(bytes@.subrange(ls as int, ls + 12)[6] == 114);
                        assert(bytes@.subrange(ls as int, ls + 12)[7] == 105);
                        assert(bytes@.subrange(ls as int, ls + 12)[8] == 122);
                        assert(bytes@.subrange(ls as int, ls + 12)[9] == 101);
                        assert(bytes@.subrange(ls as int, ls + 12)[10] == 100);
                        assert(bytes@.subrange(ls as int, ls + 12)[11] == 10);
                    }
                }
            }
        }
    } else {
        proof {
            assert(!spec_mem_linearized(bytes@));
        }
    }
    let mut doc = Qpdf::empty();
    doc.version = version;
    doc.linearized = linearized;
    match read_trailer(&mut doc, bytes) {
        Ok(()) => {},
        Err(e) => {
            return Err(e);
        },
    }
    // password check against the trailer's /Encrypt entry; the default
    // trailer of an empty document has no such entry
    proof {
        reveal_strlit("/Root");
        reveal_strlit("/Size");
        reveal_strlit("/Encrypt");
        assert("/Root"@.len() == 5 && "/Size"@.len() == 5 && "/Encrypt"@.len() == 8);
    }
    let trailer = doc.get_trailer();
    let enc = trailer.get(&mut doc, "/Encrypt");
    match enc {
        Some(h) => {
            match password {
                Some(pw) => {
                    match h.as_binary_string(&doc) {
                        Ok(stored) => {
                            if bytes_eq(&stored, pw.as_bytes()) {
                                Ok(doc)
                            } else {
                                Err(QpdfError::AuthenticationError)
                            }
                        },
                        Err(_) => Err(QpdfError::AuthenticationError),
                    }
                },
                Option::None => Err(QpdfError::AuthenticationError),
            }
        },
        Option::None => Ok(doc),
    }
}



/// Finds the first trailer keyword line.
#[verifier::loop_isolation(false)]
fn find_trailer_start(bytes: &[u8]) -> (r: Option<usize>)
    ensures
        match r {
            Some(ts) => spec_find(bytes@, spec_trailer_pat(), 0) == Some(ts as int) && ts + 8
                <= bytes@.len(),
            None => spec_find(bytes@, spec_trailer_pat(), 0) is None,
        },
{
    let mut t: usize = 0;
    while t < bytes.len()
        invariant
            t <= bytes@.len(),
            spec_find(bytes@, spec_trailer_pat(), 0) == spec_find(
                bytes@,
                spec_trailer_pat(),
                t as int,
            ),
        decreases bytes@.len() - t,
    {
        if bytes.len() - t >= 8 {
            if bytes[t] == 116 && bytes[t + 1] == 114 && bytes[t + 2] == 97 && bytes[t + 3] == 105
                && bytes[t + 4] == 108 && bytes[t + 5] == 101 && bytes[t + 6] == 114 && bytes[t
                + 7] == 10 {
                proof {
                    assert(bytes@.subrange(t as int, t + 8) =~= spec_trailer_pat());
                }
                return Some(t);
            }
            proof {
                assert(bytes@.subrange(t as int, t + 8) != spec_trailer_pat()) by {
                    if bytes@.subrange(t as int, t + 8) == spec_trailer_pat() {
                        assert(bytes@.subrange(t as int, t + 8)[0] == 116);
                        assert(bytes@.subrange(t as int, t + 8)[1] == 114);
                        assert(bytes@.subrange(t as int, t + 8)[2] == 97);
                        assert(bytes@.subrange(t as int, t + 8)[3] == 105);
                        assert(bytes@.subrange(t as int, t + 8)[4] == 108);
                        assert(bytes@.subrange(t as int, t + 8)[5] == 101);
                        assert(bytes@.subrange(t as int, t + 8)[6] == 114);
                        assert(bytes@.subrange(t as int, t + 8)[7] == 10);
                    }
                }
            }
            t = t + 1;
        } else {
            return None;
        }
    }
    None
}

/// Finds the first end-of-file marker at or after `tstart`, or the end.
#[verifier::loop_isolation(false)]
fn find_eof_from(bytes: &[u8], tstart: usize) -> (tend: usize)
    requires
        tstart <= bytes@.len(),
    ensures
        tstart <= tend <= bytes@.len(),
        match spec_find(bytes@, spec_eof_pat(), tstart as int) {
            Some(u2) => u2 == tend,
            None => tend == bytes@.len(),
        },
{
    let mut u: usize = tstart;
    while u < bytes.len()
        invariant
            tstart <= u <= bytes@.len(),
            spec_find(bytes@, spec_eof_pat(), tstart as int) == spec_find(
                bytes@,
                spec_eof_pat(),
                u as int,
            ),
        decreases bytes@.len() - u,
    {
        if bytes.len() - u >= 5 {
            if bytes[u] == 37 && bytes[u + 1] == 37 && bytes[u + 2] == 69 && bytes[u + 3] == 79
                && bytes[u + 4] == 70 {
                proof {
                    assert(bytes@.subrange(u as int, u + 5) =~= spec_eof_pat());
                }
                return u;
            }
            proof {
                assert(bytes@.subrange(u as int, u + 5) != spec_eof_pat()) by {
                    if bytes@.subrange(u as int, u + 5) == spec_eof_pat() {
                        assert(bytes@.subrange(u as int, u + 5)[0] == 37);
                        assert(bytes@.subrange(u as int, u + 5)[1] == 37);
                        assert(bytes@.subrange(u as int, u + 5)[2] == 69);
                        assert(bytes@.subrange(u as int, u + 5)[3] == 79);
                        assert(bytes@.subrange(u as int, u + 5)[4] == 70);
                    }
                }
            }
            u = u + 1;
        } else {
            return bytes.len();
        }
    }
    bytes.len()
}

/// Finds and applies the trailer of serialized bytes: a missing trailer
/// keyword leaves the document unchanged; a trailer whose text the
/// grammar rejects is a `ParseError` at the position the grammar names;
/// one it accepts as a direct dictionary replaces the trailer slot.
#[verifier::loop_isolation(false)]
#[verifier::rlimit(100)]
fn read_trailer(doc: &mut Qpdf, bytes: &[u8]) -> (r: Result<(), QpdfError>)
    requires
        old(doc).wf(),
    ensures
        final(doc).wf(),
        final(doc).version == old(doc).version,
        final(doc).linearized == old(doc).linearized,
        spec_trailer_text(bytes@) is None ==> (r == Ok::<(), QpdfError>(()) && *final(doc) == *old(
            doc,
        )),
        r matches Err(e) ==> e matches QpdfError::ParseError { .. },
        (spec_trailer_text(bytes@) is Some && crate::parse::spec_object_outcome(
            Seq::empty(),
            spec_trailer_text(bytes@)->Some_0,
        ) is Err) ==> (r matches Err(e) && (e matches QpdfError::ParseError { position }
            && position as int == crate::parse::spec_object_outcome(
            Seq::empty(),
            spec_trailer_text(bytes@)->Some_0,
        )->Err_0)),
        (r == Ok::<(), QpdfError>(()) && spec_trailer_text(bytes@) is Some)
            ==> crate::parse::spec_object_outcome(
            Seq::empty(),
            spec_trailer_text(bytes@)->Some_0,
        ) is Ok,
{
    let tfound = find_trailer_start(bytes);
    if let Some(ts) = tfound {
        let n = bytes.len();
        proof {
            assert(ts + 8 <= n);
        }
        let tstart = ts + 8;
        let tend = find_eof_from(bytes, tstart);
        proof {
            assert(spec_trailer_text(bytes@) is Some);
            assert(spec_trailer_text(bytes@)->Some_0 =~= Seq::new(
                (tend - tstart) as nat,
                |j: int| bytes@[tstart + j] as char,
            ));
        }
        let mut ttext = String::new();
        let mut j: usize = tstart;
        while j < tend
            invariant
                tstart <= j <= tend <= bytes@.len(),
                ttext@ == Seq::new((j - tstart) as nat, |k: int| bytes@[tstart + k] as char),
            decreases tend - j,
        {
            crate::render::push_char(&mut ttext, bytes[j] as char);
            proof {
                assert(ttext@ =~= Seq::new(
                    (j + 1 - tstart) as nat,
                    |k: int| bytes@[tstart + k] as char,
                ));
            }
            j = j + 1;
        }
        proof {
            assert(ttext@ == spec_trailer_text(bytes@)->Some_0);
        }
        let ghost nodes0 = doc.nodes@;
        proof {
            crate::parse::lemma_parse_pos_indep(nodes0, Seq::empty(), ttext@, 0);
        }
        let th = match doc.parse_object(ttext.as_str()) {
            Ok(h) => h,
            Err(e) => {
                return Err(e);
            },
        };
        if th.is_dictionary(doc) && !th.is_indirect(doc) {
            doc.trailer_slot = th.slot;
        } else {
            return Err(QpdfError::ParseError { position: 0 });
        }
    }
    Ok(())
}

/// What a written header reads back as: for any version text of
/// single-byte, newline-free characters, the reader's view of
/// header-plus-anything recovers exactly the configured version and
/// linearization flag. When the marker is not written, the remainder must
/// not itself begin with the marker line.
pub proof fn lemma_header_read_back(v: Seq<char>, lin: bool, rest: Seq<u8>)
    requires
        forall|i: int| 0 <= i < v.len() ==> ((#[trigger] v[i]) as u32) < 256 && v[i] != '\n',
        !lin ==> (rest.len() < 12 || rest.subrange(0, 12) != spec_lin_marker()),
    ensures
        spec_mem_version(spec_header_bytes(v, lin) + rest) == Some(v),
        spec_mem_linearized(spec_header_bytes(v, lin) + rest) == lin,
{
    reveal_strlit("%PDF-");
    reveal_strlit("\n");
    reveal_strlit("%linearized\n");
    let b = spec_header_bytes(v, lin) + rest;
    let line = "%PDF-"@ + v + "\n"@;
    let e = 5 + v.len() as int;
    assert(spec_text_bytes(line).len() == 6 + v.len());
    assert forall|j: int| 5 <= j < e implies b[j] != 10 by {
        let c = v[j - 5];
        assert(b[j] == spec_text_bytes(line)[j]);
        assert(line[j] == c);
        if c as u32 == 10 {
            vstd::utf8::char_u32_cast(c, c as u32);
            assert(('\n' as u32) == 10);
            vstd::utf8::char_u32_cast('\n', 10);
            assert(c == '\n');
        }
    }
    assert(b[e] == 10) by {
        assert(b[e] == spec_text_bytes(line)[e]);
        assert(line[e] == '\n');
    }
    lemma_line_end(b, 5, e);
    assert(b.len() >= 5);
    assert(b.take(5) =~= seq![37u8, 80u8, 68u8, 70u8, 45u8]) by {
        assert(line[0] == '%' && line[1] == 'P' && line[2] == 'D' && line[3] == 'F' && line[4]
            == '-');
        assert(b[0] == spec_text_bytes(line)[0]);
        assert(b[1] == spec_text_bytes(line)[1]);
        assert(b[2] == spec_text_bytes(line)[2]);
        assert(b[3] == spec_text_bytes(line)[3]);
        assert(b[4] == spec_text_bytes(line)[4]);
    }
    assert(spec_mem_version(b) matches Some(w) && w =~= v) by {
        let w = spec_mem_version(b)->Some_0;
        assert(w.len() == v.len());
        assert forall|j: int| 0 <= j < v.len() implies w[j] == v[j] by {
            let c = v[j];
            assert(b[5 + j] == spec_text_bytes(line)[5 + j]);
            assert(line[5 + j] == c);
            assert(b[5 + j] == (c as u32) as u8);
            assert(((c as u32) as u8) as char == c) by {
                vstd::utf8::char_u32_cast(c, c as u32);
            }
        }
    }
    let ls = e + 1;
    if lin {
        assert(b.len() >= ls + 12);
        assert(b.subrange(ls, ls + 12) =~= spec_lin_marker()) by {
            let m = "%linearized\n"@;
            assert forall|j: int| 0 <= j < 12 implies b[ls + j] == spec_lin_marker()[j] by {
                assert(b[ls + j] == spec_text_bytes(m)[j]);
                assert(m[0] == '%' && m[1] == 'l' && m[2] == 'i' && m[3] == 'n' && m[4] == 'e'
                    && m[5] == 'a' && m[6] == 'r' && m[7] == 'i' && m[8] == 'z' && m[9] == 'e'
                    && m[10] == 'd' && m[11] == '\n');
            }
        }
        assert(spec_mem_linearized(b));
    } else {
        assert(spec_header_bytes(v, lin).len() == ls);
        if ls + 12 <= b.len() {
            assert(b.subrange(ls, ls + 12) =~= rest.subrange(0, 12));
            assert(!spec_mem_linearized(b));
        } else {
            assert(!spec_mem_linearized(b));
        }
    }
}

} // verus!
