use vstd::prelude::*;
use vstd::string::StringSliceAdditionalSpecFns;
use crate::document::Qpdf;
use crate::error::QpdfError;
use crate::object::QpdfObject;
use crate::render::spec_dec_digits;
use crate::render::spec_hex_text;
use crate::render::spec_int_text;
use crate::render::spec_real_text;
use crate::render::spec_utf16_bom;

verus! {

// Each function here states one law of the library: its body composes
// public operations, and its contract pins the observable outcome for
// every input, so the law holds exactly when this module verifies.

/// A boolean built by its constructor reads back as itself, and a
/// mismatched scalar accessor on it reports a type mismatch.
pub fn law_bool_round_trip(doc: &mut Qpdf, v: bool) -> (r: (Result<bool, QpdfError>, Result<
    i64,
    QpdfError,
>))
    requires
        old(doc).wf(),
    ensures
        r.0 == Ok::<bool, QpdfError>(v),
        r.1 == Err::<i64, QpdfError>(QpdfError::TypeMismatch),
{
    let h = doc.new_bool(v);
    (h.as_bool(doc), h.as_i64(doc))
}

/// An integer built by its constructor reads back as itself, both at full
/// width and truncated to 32 bits, and a mismatched accessor reports a
/// type mismatch.
pub fn law_integer_round_trip(doc: &mut Qpdf, v: i64) -> (r: (Result<i64, QpdfError>, Result<
    i32,
    QpdfError,
>, Result<bool, QpdfError>))
    requires
        old(doc).wf(),
    ensures
        r.0 == Ok::<i64, QpdfError>(v),
        r.1 == Ok::<i32, QpdfError>(v as i32),
        r.2 == Err::<bool, QpdfError>(QpdfError::TypeMismatch),
{
    let h = doc.new_integer(v);
    (h.as_i64(doc), h.as_i32(doc), h.as_bool(doc))
}

/// A name built by its constructor reads back as the same text.
pub fn law_name_round_trip(doc: &mut Qpdf, name: &str) -> (r: Result<String, QpdfError>)
    requires
        old(doc).wf(),
    ensures
        r matches Ok(t) && t@ == name@,
{
    let h = doc.new_name(name);
    h.as_name(doc)
}

/// A real built by its constructor reads back as its formatted decimal
/// text.
pub fn law_real_round_trip(doc: &mut Qpdf, scaled: i64, decimals: u32) -> (r: Result<
    String,
    QpdfError,
>)
    requires
        old(doc).wf(),
        decimals <= 18,
    ensures
        r matches Ok(t) && t@ == spec_real_text(scaled as int, decimals as nat),
{
    let h = doc.new_real(scaled, decimals);
    h.as_real(doc)
}

/// A plain string built from ASCII text reads back as the same text;
/// text beyond ASCII is stored re-encoded, so it is excluded here.
pub fn law_string_round_trip(doc: &mut Qpdf, text: &str) -> (r: Result<String, QpdfError>)
    requires
        old(doc).wf(),
        text.is_ascii(),
    ensures
        r matches Ok(t) && t@ == text@,
{
    proof {
        vstd::string::is_ascii_spec_bytes(text);
    }
    let h = doc.new_string(text);
    let r = h.as_string(doc);
    proof {
        let b = text.spec_bytes();
        assert(forall|i: int| 0 <= i < b.len() ==> #[trigger] b[i] == text@[i] as u8);
        assert(forall|i: int|
            0 <= i < text@.len() ==> (text@[i] as u32) < 128) by {
            assert(vstd::string::is_ascii(text));
        }
        if b.len() >= 2 {
            assert(b[0] != 0xfe);
        }
        assert(crate::render::spec_string_chars(b) =~= text@) by {
            assert forall|i: int| 0 <= i < b.len() implies b[i] as char == text@[i] by {
                let c = text@[i];
                vstd::utf8::char_is_scalar(c);
                vstd::utf8::char_u32_cast(c, c as u32);
                assert(b[i] == c as u8);
            }
        }
    }
    r
}

/// A binary string built from bytes reads back as exactly those bytes.
pub fn law_binary_string_round_trip(doc: &mut Qpdf, bytes: &[u8]) -> (r: Result<Vec<u8>, QpdfError>)
    requires
        old(doc).wf(),
    ensures
        r matches Ok(b) && b@ == bytes@,
{
    let h = doc.new_binary_string(bytes);
    h.as_binary_string(doc)
}

/// Making an object indirect is idempotent: a second application returns
/// the same handle with the same `(id, generation)`, and a freshly
/// indirected object has generation zero and a nonzero id, unlike the
/// direct original whose id reads zero.
pub fn law_make_indirect_idempotent(doc: &mut Qpdf, h: &QpdfObject) -> (r: (QpdfObject, QpdfObject))
    requires
        old(doc).wf(),
        old(doc).valid(*h),
        old(doc).next_id < 0xffff_fffe_u32,
    ensures
        r.1 == r.0,
        final(doc).node_of(r.0).id == final(doc).node_of(r.1).id,
        final(doc).node_of(r.0).gen == final(doc).node_of(r.1).gen,
        final(doc).node_of(r.0).id != 0,
        !old(doc).indirect(*h) ==> (final(doc).node_of(r.0).gen == 0 && final(doc).node_of(
            *h,
        ).id == 0 && final(doc).node_of(r.0).id != final(doc).node_of(*h).id),
{
    let a = h.make_indirect(doc);
    let b = a.make_indirect(doc);
    (a, b)
}

/// A string built from UTF-8 text stores the UTF-16BE bytes behind a
/// byte-order mark: its binary unparse is the hexadecimal form of those
/// bytes, not of the UTF-8 bytes.
pub fn law_utf8_binary_encoding(doc: &mut Qpdf, text: &str) -> (r: String)
    requires
        old(doc).wf(),
    ensures
        r@ == seq!['<'] + spec_hex_text(spec_utf16_bom(text@)) + seq!['>'],
        final(doc).wf(),
{
    let h = doc.new_utf8_string(text);
    h.to_binary(doc)
}

/// A string built from UTF-8 text reads back, as a binary string, as the
/// UTF-16BE-with-byte-order-mark bytes.
pub fn law_utf8_string_bytes(doc: &mut Qpdf, text: &str) -> (r: Result<Vec<u8>, QpdfError>)
    requires
        old(doc).wf(),
    ensures
        r matches Ok(b) && b@ == spec_utf16_bom(text@),
{
    let h = doc.new_utf8_string(text);
    h.as_binary_string(doc)
}

/// The printed form of every integer object is its decimal text; the
/// printed forms of the boolean and null objects are the words `true`,
/// `false` and `null`.
pub fn law_scalar_text(doc: &mut Qpdf, v: i64, b: bool) -> (r: (String, String, String))
    requires
        old(doc).wf(),
    ensures
        r.0@ == spec_int_text(v as int),
        r.1@ == (if b {
            "true"@
        } else {
            "false"@
        }),
        r.2@ == "null"@,
{
    let hi = doc.new_integer(v);
    let hb = doc.new_bool(b);
    let hn = doc.new_null();
    (hi.to_string(doc), hb.to_string(doc), hn.to_string(doc))
}


/// Pushing onto an array appends at the end: the new last item reads back
/// as the pushed value, and the length grows by one.
pub fn law_array_push_appends(doc: &mut Qpdf, v: i64) -> (r: (usize, Result<i64, QpdfError>))
    requires
        old(doc).wf(),
    ensures
        r.0 == 1,
        r.1 == Ok::<i64, QpdfError>(v),
{
    let a = doc.new_array();
    let arr = a.into_array(doc).unwrap();
    let h = doc.new_integer(v);
    arr.push(doc, &h);
    let n = arr.len(doc);
    let got = match arr.get(doc, 0) {
        Some(g) => g.as_i64(doc),
        None => Err(QpdfError::TypeMismatch),
    };
    (n, got)
}

/// Replacing one array item leaves every other item in place: after a
/// set, an untouched index still reads back its old value.
pub fn law_array_set_keeps_others(doc: &mut Qpdf, v0: i64, v1: i64, w: i64) -> (r: (Result<
    i64,
    QpdfError,
>, Result<i64, QpdfError>))
    requires
        old(doc).wf(),
    ensures
        r.0 == Ok::<i64, QpdfError>(v0),
        r.1 == Ok::<i64, QpdfError>(w),
{
    let a = doc.new_array();
    let arr = a.into_array(doc).unwrap();
    let h0 = doc.new_integer(v0);
    arr.push(doc, &h0);
    let h1 = doc.new_integer(v1);
    arr.push(doc, &h1);
    let hw = doc.new_integer(w);
    arr.set(doc, 1, &hw);
    let g0 = match arr.get(doc, 0) {
        Some(g) => g.as_i64(doc),
        None => Err(QpdfError::TypeMismatch),
    };
    let g1 = match arr.get(doc, 1) {
        Some(g) => g.as_i64(doc),
        None => Err(QpdfError::TypeMismatch),
    };
    (g0, g1)
}

/// Binding a direct scalar in a dictionary stores a snapshot: reading it
/// back yields the same value through a different handle.
pub fn law_dict_set_get_scalar(doc: &mut Qpdf, v: i64) -> (r: (Result<i64, QpdfError>, bool))
    requires
        old(doc).wf(),
    ensures
        r.0 == Ok::<i64, QpdfError>(v),
        r.1,
{
    let d = doc.new_dictionary();
    let dict = d.into_dictionary(doc).unwrap();
    let h = doc.new_integer(v);
    dict.set(doc, "/Key", &h);
    match dict.get(doc, "/Key") {
        Some(g) => (g.as_i64(doc), g != h),
        None => (Err(QpdfError::TypeMismatch), false),
    }
}

/// Binding an indirect object in a dictionary stores the shared node:
/// reading it back yields the identical handle.
pub fn law_dict_set_get_indirect(doc: &mut Qpdf, v: i64) -> (r: bool)
    requires
        old(doc).wf(),
        old(doc).next_id < 0xffff_fffe_u32,
    ensures
        r,
{
    let d = doc.new_dictionary();
    let dict = d.into_dictionary(doc).unwrap();
    let h0 = doc.new_integer(v);
    let h = h0.make_indirect(doc);
    dict.set(doc, "/Key", &h);
    match dict.get(doc, "/Key") {
        Some(g) => g == h,
        None => false,
    }
}

} // verus!
