use vstd::prelude::*;
use crate::object::QpdfChild;
use crate::object::QpdfDictEntry;
use crate::object::QpdfNode;
use crate::object::QpdfValue;
use crate::object::spec_child_wf;
use crate::object::spec_value_wf;

verus! {

/// Relies on `String::push`: appends exactly the given character.
#[verifier::external_body]
pub(crate) fn push_char(s: &mut String, c: char)
    ensures
        final(s)@ == old(s)@ + seq![c],
{
    s.push(c);
}

/// Relies on `char::from_u32`: `Some` exactly on Unicode scalar values,
/// returning the character with that code.
#[verifier::external_body]
pub(crate) fn char_from_u32(u: u32) -> (r: Option<char>)
    ensures
        (u < 0xD800 || (0xE000 <= u && u <= 0x10FFFF)) ==> r == Some::<char>(u as char),
        !(u < 0xD800 || (0xE000 <= u && u <= 0x10FFFF)) ==> r is None,
{
    char::from_u32(u)
}

/// The UTF-16 big-endian code units of one character, as bytes: two bytes
/// for the basic plane, a surrogate pair of four bytes beyond it.
pub open spec fn spec_utf16_units(c: char) -> Seq<u8> {
    let u = c as u32;
    if u < 0x10000 {
        seq![(u / 256) as u8, (u % 256) as u8]
    } else {
        let v = (u - 0x10000) as u32;
        let hi = (0xD800 + v / 0x400) as u32;
        let lo = (0xDC00 + v % 0x400) as u32;
        seq![(hi / 256) as u8, (hi % 256) as u8, (lo / 256) as u8, (lo % 256) as u8]
    }
}

/// The UTF-16BE bytes of a character sequence, without byte-order mark.
pub open spec fn spec_utf16_body(s: Seq<char>) -> Seq<u8>
    decreases s.len(),
{
    if s.len() == 0 {
        Seq::empty()
    } else {
        spec_utf16_body(s.drop_last()) + spec_utf16_units(s.last())
    }
}

/// The UTF-16BE bytes of a character sequence, with leading byte-order
/// mark: the stored form of a string built from UTF-8 text.
pub open spec fn spec_utf16_bom(s: Seq<char>) -> Seq<u8> {
    seq![0xfeu8, 0xffu8] + spec_utf16_body(s)
}

/// Appends the UTF-16BE code units of one character.
fn push_utf16_units(out: &mut Vec<u8>, c: char)
    ensures
        final(out)@ == old(out)@ + spec_utf16_units(c),
{
    proof {
        vstd::utf8::char_is_scalar(c);
    }
    let u = c as u32;
    if u < 0x10000 {
        out.push((u / 256) as u8);
        out.push((u % 256) as u8);
        proof {
            assert(final(out)@ =~= old(out)@ + spec_utf16_units(c));
        }
    } else {
        let v = u - 0x10000;
        let hi = 0xD800 + v / 0x400;
        let lo = 0xDC00 + v % 0x400;
        out.push((hi / 256) as u8);
        out.push((hi % 256) as u8);
        out.push((lo / 256) as u8);
        out.push((lo % 256) as u8);
        proof {
            assert(final(out)@ =~= old(out)@ + spec_utf16_units(c));
        }
    }
}

/// Encodes text as UTF-16BE with a leading byte-order mark.
#[verifier::loop_isolation(false)]
pub(crate) fn utf16_bom_encode(s: &str) -> (out: Vec<u8>)
    ensures
        out@ == spec_utf16_bom(s@),
{
    let mut out: Vec<u8> = Vec::new();
    out.push(0xfe);
    out.push(0xff);
    let n = s.unicode_len();
    let mut i: usize = 0;
    while i < n
        invariant
            i <= n,
            n == s@.len(),
            out@ == seq![0xfeu8, 0xffu8] + spec_utf16_body(s@.take(i as int)),
        decreases n - i,
    {
        let c = s.get_char(i);
        push_utf16_units(&mut out, c);
        proof {
            assert(s@.take(i + 1).drop_last() =~= s@.take(i as int));
            assert(s@.take(i + 1).last() == s@[i as int]);
        }
        i = i + 1;
    }
    proof {
        assert(s@.take(s@.len() as int) =~= s@);
        assert(out@ =~= spec_utf16_bom(s@));
    }
    out
}

/// The characters a stored byte string decodes to. Bytes behind a UTF-16BE
/// byte-order mark decode as UTF-16, a lone surrogate or dangling byte
/// becoming the replacement character; any other byte string maps each
/// byte to the character with its code.
pub open spec fn spec_string_chars(b: Seq<u8>) -> Seq<char> {
    if b.len() >= 2 && b[0] == 0xfe && b[1] == 0xff {
        spec_utf16_decode(b.skip(2))
    } else {
        Seq::new(b.len(), |i: int| b[i] as char)
    }
}

/// Decodes UTF-16BE bytes, front to back.
pub open spec fn spec_utf16_decode(b: Seq<u8>) -> Seq<char>
    decreases b.len(),
{
    if b.len() < 2 {
        if b.len() == 0 {
            Seq::empty()
        } else {
            seq!['\u{fffd}']
        }
    } else {
        let u = (b[0] as u32) * 256 + (b[1] as u32);
        if 0xD800 <= u && u < 0xDC00 && b.len() >= 4 {
            let u2 = (b[2] as u32) * 256 + (b[3] as u32);
            if 0xDC00 <= u2 && u2 < 0xE000 {
                let code = (0x10000 + (u - 0xD800) * 0x400 + (u2 - 0xDC00)) as u32;
                seq![code as char] + spec_utf16_decode(b.skip(4))
            } else {
                seq!['\u{fffd}'] + spec_utf16_decode(b.skip(2))
            }
        } else if 0xD800 <= u && u < 0xE000 {
            seq!['\u{fffd}'] + spec_utf16_decode(b.skip(2))
        } else {
            seq![u as char] + spec_utf16_decode(b.skip(2))
        }
    }
}

/// Decodes a stored byte string to text, as `spec_string_chars` says.
#[verifier::loop_isolation(false)]
#[verifier::rlimit(100)]
pub(crate) fn string_chars_decode(b: &[u8]) -> (out: String)
    ensures
        out@ == spec_string_chars(b@),
{
    let mut out = String::new();
    if b.len() >= 2 && b[0] == 0xfe && b[1] == 0xff {
        let mut i: usize = 2;
        while i < b.len()
            invariant
                2 <= i <= b@.len(),
                out@ + spec_utf16_decode(b@.skip(i as int)) == spec_utf16_decode(b@.skip(2)),
            decreases b@.len() - i,
        {
            let ghost before = b@.skip(i as int);
            if i + 1 >= b.len() {
                push_char(&mut out, '\u{fffd}');
                proof {
                    assert(before.len() == 1);
                }
                i = b.len();
            } else {
                let u: u32 = (b[i] as u32) * 256 + (b[i + 1] as u32);
                if 0xD800 <= u && u < 0xDC00 && b.len() - i >= 4 {
                    let u2: u32 = (b[i + 2] as u32) * 256 + (b[i + 3] as u32);
                    if 0xDC00 <= u2 && u2 < 0xE000 {
                        let code: u32 = 0x10000 + (u - 0xD800) * 0x400 + (u2 - 0xDC00);
                        let c = match char_from_u32(code) {
                            Some(c) => c,
                            None => {
                                proof {
                                    assert(false);
                                }
                                '\u{fffd}'
                            },
                        };
                        push_char(&mut out, c);
                        proof {
                            assert(b@.skip(i + 4) =~= before.skip(4));
                            assert(before[0] == b@[i as int] && before[1] == b@[i + 1]
                                && before[2] == b@[i + 2] && before[3] == b@[i + 3]);
                        }
                        i = i + 4;
                    } else {
                        push_char(&mut out, '\u{fffd}');
                        proof {
                            assert(b@.skip(i + 2) =~= before.skip(2));
                            assert(before[0] == b@[i as int] && before[1] == b@[i + 1]);
                        }
                        i = i + 2;
                    }
                } else if 0xD800 <= u && u < 0xE000 {
                    push_char(&mut out, '\u{fffd}');
                    proof {
                        assert(b@.skip(i + 2) =~= before.skip(2));
                        assert(before[0] == b@[i as int] && before[1] == b@[i + 1]);
                    }
                    i = i + 2;
                } else {
                    let c = match char_from_u32(u) {
                        Some(c) => c,
                        None => {
                            proof {
                                assert(false);
                            }
                            '\u{fffd}'
                        },
                    };
                    push_char(&mut out, c);
                    proof {
                        assert(b@.skip(i + 2) =~= before.skip(2));
                        assert(before[0] == b@[i as int] && before[1] == b@[i + 1]);
                    }
                    i = i + 2;
                }
            }
        }
        proof {
            assert(b@.skip(b@.len() as int).len() == 0);
        }
    } else {
        let mut i: usize = 0;
        while i < b.len()
            invariant
                i <= b@.len(),
                out@ == Seq::new(i as nat, |j: int| b@[j] as char),
            decreases b@.len() - i,
        {
            push_char(&mut out, b[i] as char);
            proof {
                assert(out@ =~= Seq::new((i + 1) as nat, |j: int| b@[j] as char));
            }
            i = i + 1;
        }
        proof {
            assert(out@ =~= spec_string_chars(b@));
        }
    }
    out
}

/// Ten to the `d`.
pub open spec fn spec_pow10(d: nat) -> nat
    decreases d,
{
    if d == 0 {
        1
    } else {
        10 * spec_pow10((d - 1) as nat)
    }
}

/// Exactly `width` decimal digits of `n`, left-padded with zeros and
/// truncated to the lowest digits.
pub open spec fn spec_frac_digits(n: nat, width: nat) -> Seq<char>
    decreases width,
{
    if width == 0 {
        Seq::empty()
    } else {
        spec_frac_digits(n / 10, (width - 1) as nat) + seq![spec_digit_char((n % 10) as int)]
    }
}

/// The formatted decimal text of `scaled / 10^decimals`: sign, integral
/// digits, and, when `decimals` is positive, a point and exactly
/// `decimals` fractional digits.
pub open spec fn spec_real_text(scaled: int, decimals: nat) -> Seq<char> {
    let mag = if scaled < 0 {
        (-scaled) as nat
    } else {
        scaled as nat
    };
    let sign: Seq<char> = if scaled < 0 {
        seq!['-']
    } else {
        Seq::empty()
    };
    if decimals == 0 {
        sign + spec_dec_digits(mag)
    } else {
        sign + spec_dec_digits(mag / spec_pow10(decimals)) + seq!['.'] + spec_frac_digits(
            mag % spec_pow10(decimals),
            decimals,
        )
    }
}

/// Computes ten to the `d`.
fn pow10_u64(d: u32) -> (r: u64)
    requires
        d <= 18,
    ensures
        r == spec_pow10(d as nat),
        r >= 1,
    decreases d,
{
    if d == 0 {
        1
    } else {
        let p = pow10_u64(d - 1);
        proof {
            crate::render::lemma_pow10_bound((d - 1) as nat);
        }
        10 * p
    }
}

/// Ten to the `d` stays below two to the sixty-third for `d` up to 18.
pub proof fn lemma_pow10_bound(d: nat)
    requires
        d <= 18,
    ensures
        spec_pow10(d) <= 1_000_000_000_000_000_000,
{
    assert(spec_pow10(0) == 1);
    assert(spec_pow10(1) == 10);
    assert(spec_pow10(2) == 100);
    assert(spec_pow10(3) == 1000);
    assert(spec_pow10(4) == 10000);
    assert(spec_pow10(5) == 100000);
    assert(spec_pow10(6) == 1000000);
    assert(spec_pow10(7) == 10000000);
    assert(spec_pow10(8) == 100000000);
    assert(spec_pow10(9) == 1000000000);
    assert(spec_pow10(10) == 10000000000);
    assert(spec_pow10(11) == 100000000000);
    assert(spec_pow10(12) == 1000000000000);
    assert(spec_pow10(13) == 10000000000000);
    assert(spec_pow10(14) == 100000000000000);
    assert(spec_pow10(15) == 1000000000000000);
    assert(spec_pow10(16) == 10000000000000000);
    assert(spec_pow10(17) == 100000000000000000);
    assert(spec_pow10(18) == 1000000000000000000);
    lemma_pow10_mono(d, 18);
}

/// Ten to the `d` grows with `d`.
pub proof fn lemma_pow10_mono(a: nat, b: nat)
    requires
        a <= b,
    ensures
        spec_pow10(a) <= spec_pow10(b),
    decreases b,
{
    if a < b {
        lemma_pow10_mono(a, (b - 1) as nat);
        assert(spec_pow10(b) == 10 * spec_pow10((b - 1) as nat));
    }
}

/// Appends exactly `width` lowest decimal digits of `n`, zero-padded.
fn push_frac_digits(s: &mut String, n: u64, width: u32)
    ensures
        final(s)@ == old(s)@ + spec_frac_digits(n as nat, width as nat),
    decreases width,
{
    if width == 0 {
        return ;
    }
    push_frac_digits(s, n / 10, width - 1);
    push_char(s, (48 + ((n % 10) as u8)) as char);
}

/// Formats `scaled / 10^decimals` as decimal text.
pub(crate) fn real_text(scaled: i64, decimals: u32) -> (r: String)
    requires
        decimals <= 18,
    ensures
        r@ == spec_real_text(scaled as int, decimals as nat),
{
    let mut s = String::new();
    let mag: u64 = if scaled >= 0 {
        scaled as u64
    } else {
        (-(scaled as i128)) as u64
    };
    if scaled < 0 {
        push_char(&mut s, '-');
    }
    if decimals == 0 {
        push_u64_dec(&mut s, mag);
    } else {
        let p = pow10_u64(decimals);
        push_u64_dec(&mut s, mag / p);
        push_char(&mut s, '.');
        push_frac_digits(&mut s, mag % p, decimals);
    }
    s
}

/// The character for one decimal digit.
pub open spec fn spec_digit_char(d: int) -> char {
    ((48 + d) as u8) as char
}

/// The decimal text of a natural number, without sign; `0` reads `"0"`.
pub open spec fn spec_dec_digits(n: nat) -> Seq<char>
    decreases n,
{
    if n < 10 {
        seq![spec_digit_char(n as int)]
    } else {
        spec_dec_digits(n / 10) + seq![spec_digit_char((n % 10) as int)]
    }
}

/// The decimal text of a signed integer.
pub open spec fn spec_int_text(i: int) -> Seq<char> {
    if i < 0 {
        seq!['-'] + spec_dec_digits((-i) as nat)
    } else {
        spec_dec_digits(i as nat)
    }
}

/// Appends the decimal text of `n`.
pub(crate) fn push_u64_dec(s: &mut String, n: u64)
    ensures
        final(s)@ == old(s)@ + spec_dec_digits(n as nat),
    decreases n,
{
    if n < 10 {
        push_char(s, (48 + (n as u8)) as char);
    } else {
        push_u64_dec(s, n / 10);
        push_char(s, (48 + ((n % 10) as u8)) as char);
    }
}

/// Appends the decimal text of `i`, with a leading `-` when negative.
pub(crate) fn push_i64_dec(s: &mut String, i: i64)
    ensures
        final(s)@ == old(s)@ + spec_int_text(i as int),
{
    if i >= 0 {
        push_u64_dec(s, i as u64);
    } else {
        push_char(s, '-');
        let mag: u64 = (-(i as i128)) as u64;
        push_u64_dec(s, mag);
    }
}

/// The character for one lowercase hexadecimal digit.
pub open spec fn spec_hex_digit(d: int) -> char {
    if d < 10 {
        ((48 + d) as u8) as char
    } else {
        ((87 + d) as u8) as char
    }
}

/// Two lowercase hexadecimal digits for one byte.
pub open spec fn spec_hex_pair(b: u8) -> Seq<char> {
    seq![spec_hex_digit(b as int / 16), spec_hex_digit(b as int % 16)]
}

/// The lowercase hexadecimal text of a byte string, two digits per byte.
pub open spec fn spec_hex_text(b: Seq<u8>) -> Seq<char>
    decreases b.len(),
{
    if b.len() == 0 {
        Seq::empty()
    } else {
        spec_hex_text(b.drop_last()) + spec_hex_pair(b.last())
    }
}

/// Appends two lowercase hexadecimal digits for each byte.
pub(crate) fn push_hex(s: &mut String, bytes: &[u8])
    ensures
        final(s)@ == old(s)@ + spec_hex_text(bytes@),
{
    let ghost s0 = s@;
    let mut i: usize = 0;
    while i < bytes.len()
        invariant
            i <= bytes@.len(),
            s@ == s0 + spec_hex_text(bytes@.take(i as int)),
        decreases bytes@.len() - i,
    {
        let b = bytes[i];
        let hi: u8 = b / 16;
        let lo: u8 = b % 16;
        push_char(s, if hi < 10 { (48 + hi) as char } else { (87 + hi) as char });
        push_char(s, if lo < 10 { (48 + lo) as char } else { (87 + lo) as char });
        proof {
            assert(bytes@.take(i + 1).drop_last() =~= bytes@.take(i as int));
            assert(bytes@.take(i + 1).last() == bytes@[i as int]);
        }
        i = i + 1;
    }
    proof {
        assert(bytes@.take(bytes@.len() as int) =~= bytes@);
    }
}

/// True when every byte of the string is printable ASCII, so that the
/// parenthesized literal form can show it.
pub open spec fn spec_printable(b: Seq<u8>) -> bool {
    forall|i: int| 0 <= i < b.len() ==> 0x20 <= #[trigger] b[i] <= 0x7e
}

/// The escaped body of a parenthesized string literal: backslash, `(` and
/// `)` get a leading backslash, all other bytes stand as themselves.
pub open spec fn spec_paren_escape(b: u8) -> Seq<char> {
    if b == 40 || b == 41 || b == 92 {
        seq!['\\', b as char]
    } else {
        seq![b as char]
    }
}

/// The escaped text of a whole byte string.
pub open spec fn spec_paren_text(b: Seq<u8>) -> Seq<char>
    decreases b.len(),
{
    if b.len() == 0 {
        Seq::empty()
    } else {
        spec_paren_text(b.drop_last()) + spec_paren_escape(b.last())
    }
}

/// Appends the escaped literal body of a byte string.
pub(crate) fn push_paren(s: &mut String, bytes: &[u8])
    ensures
        final(s)@ == old(s)@ + spec_paren_text(bytes@),
{
    let ghost s0 = s@;
    let mut i: usize = 0;
    while i < bytes.len()
        invariant
            i <= bytes@.len(),
            s@ == s0 + spec_paren_text(bytes@.take(i as int)),
        decreases bytes@.len() - i,
    {
        let b = bytes[i];
        if b == 40 || b == 41 || b == 92 {
            push_char(s, '\\');
        }
        push_char(s, b as char);
        proof {
            assert(bytes@.take(i + 1).drop_last() =~= bytes@.take(i as int));
            assert(bytes@.take(i + 1).last() == bytes@[i as int]);
        }
        i = i + 1;
    }
    proof {
        assert(bytes@.take(bytes@.len() as int) =~= bytes@);
    }
}

/// Decides printability of a byte string.
pub(crate) fn is_printable(bytes: &[u8]) -> (r: bool)
    ensures
        r == spec_printable(bytes@),
{
    let mut i: usize = 0;
    while i < bytes.len()
        invariant
            i <= bytes@.len(),
            forall|j: int| 0 <= j < i ==> 0x20 <= #[trigger] bytes@[j] <= 0x7e,
        decreases bytes@.len() - i,
    {
        let b = bytes[i];
        if b < 0x20 || b > 0x7e {
            return false;
        }
        i = i + 1;
    }
    true
}

/// The rendered text of a string value: the parenthesized literal form when
/// every byte is printable and the binary form is not forced, the
/// hexadecimal angle-bracket form otherwise.
pub open spec fn spec_string_text(b: Seq<u8>, binary: bool) -> Seq<char> {
    if binary || !spec_printable(b) {
        seq!['<'] + spec_hex_text(b) + seq!['>']
    } else {
        seq!['('] + spec_paren_text(b) + seq![')']
    }
}

/// The `"id gen R"` text of an indirect reference.
pub open spec fn spec_ref_text(id: u32, gen: u32) -> Seq<char> {
    spec_dec_digits(id as nat) + seq![' '] + spec_dec_digits(gen as nat) + seq![' ', 'R']
}

/// The rendered text of one child position. An indirect child always reads
/// as a reference; a direct child shows its own value.
pub open spec fn spec_render_child(nodes: Seq<QpdfNode>, c: QpdfChild, binary: bool) -> Seq<char>
    decreases c,
{
    match c {
        QpdfChild::Ref(s) => if s < nodes.len() {
            spec_ref_text(nodes[s as int].id, nodes[s as int].gen)
        } else {
            Seq::empty()
        },
        QpdfChild::Val(v) => spec_render_value(nodes, v, binary),
    }
}

/// The rendered text of an array's items, one space before each.
pub open spec fn spec_render_items(nodes: Seq<QpdfNode>, cs: Seq<QpdfChild>, binary: bool) -> Seq<
    char,
>
    decreases cs,
{
    if cs.len() == 0 {
        Seq::empty()
    } else {
        spec_render_items(nodes, cs.drop_last(), binary) + seq![' '] + spec_render_child(
            nodes,
            cs.last(),
            binary,
        )
    }
}

/// The rendered text of a dictionary's entries, as `" key value"` pieces.
pub open spec fn spec_render_entries(
    nodes: Seq<QpdfNode>,
    es: Seq<QpdfDictEntry>,
    binary: bool,
) -> Seq<char>
    decreases es,
{
    if es.len() == 0 {
        Seq::empty()
    } else {
        spec_render_entries(nodes, es.drop_last(), binary) + seq![' '] + es.last().key@ + seq![' ']
            + spec_render_child(nodes, es.last().child, binary)
    }
}

/// The rendered text of a value in the standard PDF object literal syntax.
/// The placeholder values render as empty text, and a stream value renders
/// as the word `stream`; a stream node is always indirect, so a handle to
/// one reads as a reference instead.
pub open spec fn spec_render_value(nodes: Seq<QpdfNode>, v: QpdfValue, binary: bool) -> Seq<char>
    decreases v,
{
    match v {
        QpdfValue::Uninitialized => Seq::empty(),
        QpdfValue::Reserved => Seq::empty(),
        QpdfValue::Null => "null"@,
        QpdfValue::Boolean(b) => if b {
            "true"@
        } else {
            "false"@
        },
        QpdfValue::Integer(i) => spec_int_text(i as int),
        QpdfValue::Real(s) => s@,
        QpdfValue::Str(b) => spec_string_text(b@, binary),
        QpdfValue::Name(s) => s@,
        QpdfValue::Array(cs) => seq!['['] + spec_render_items(nodes, cs@, binary) + seq![' ', ']'],
        QpdfValue::Dictionary(es) => seq!['<', '<'] + spec_render_entries(nodes, es@, binary)
            + seq![' ', '>', '>'],
        QpdfValue::Stream { .. } => "stream"@,
        QpdfValue::Operator(s) => s@,
        QpdfValue::InlineImage(b) => seq!['<'] + spec_hex_text(b@) + seq!['>'],
    }
}

/// Appends the `"id gen R"` text of an indirect reference.
pub(crate) fn push_ref_text(s: &mut String, id: u32, gen: u32)
    ensures
        final(s)@ == old(s)@ + spec_ref_text(id, gen),
{
    push_u64_dec(s, id as u64);
    push_char(s, ' ');
    push_u64_dec(s, gen as u64);
    push_char(s, ' ');
    push_char(s, 'R');
}

/// Appends the rendered text of one child position.
pub(crate) fn render_child(nodes: &Vec<QpdfNode>, c: &QpdfChild, binary: bool, out: &mut String)
    requires
        spec_child_wf(nodes@, *c),
    ensures
        final(out)@ == old(out)@ + spec_render_child(nodes@, *c, binary),
    decreases *c,
{
    match c {
        QpdfChild::Ref(s) => {
            let n = &nodes[*s];
            push_ref_text(out, n.id, n.gen);
        },
        QpdfChild::Val(v) => {
            render_value(nodes, v, binary, out);
        },
    }
}

/// Appends the rendered text of a value.
#[verifier::loop_isolation(false)]
#[verifier::rlimit(60)]
pub(crate) fn render_value(nodes: &Vec<QpdfNode>, v: &QpdfValue, binary: bool, out: &mut String)
    requires
        spec_value_wf(nodes@, *v),
    ensures
        final(out)@ == old(out)@ + spec_render_value(nodes@, *v, binary),
    decreases *v,
{
    match v {
        QpdfValue::Uninitialized => {},
        QpdfValue::Reserved => {},
        QpdfValue::Null => {
            out.append("null");
        },
        QpdfValue::Boolean(b) => {
            if *b {
                out.append("true");
            } else {
                out.append("false");
            }
        },
        QpdfValue::Integer(i) => {
            push_i64_dec(out, *i);
        },
        QpdfValue::Real(s) => {
            out.append(s.as_str());
        },
        QpdfValue::Str(b) => {
            let printable = is_printable(b.as_slice());
            if binary || !printable {
                push_char(out, '<');
                push_hex(out, b.as_slice());
                push_char(out, '>');
            } else {
                push_char(out, '(');
                push_paren(out, b.as_slice());
                push_char(out, ')');
            }
        },
        QpdfValue::Name(s) => {
            out.append(s.as_str());
        },
        QpdfValue::Array(cs) => {
            push_char(out, '[');
            let ghost s0 = out@;
            let mut i: usize = 0;
            while i < cs.len()
                invariant
                    i <= cs@.len(),
                    out@ == s0 + spec_render_items(nodes@, cs@.take(i as int), binary),
                    spec_value_wf(nodes@, QpdfValue::Array(*cs)),
                decreases cs@.len() - i,
            {
                push_char(out, ' ');
                proof {
                    crate::object::lemma_children_wf_index(nodes@, cs@, i as int);
                    assert(decreases_to!(*v => cs@[i as int]));
                }
                render_child(nodes, &cs[i], binary, out);
                proof {
                    assert(cs@.take(i + 1).drop_last() =~= cs@.take(i as int));
                    assert(cs@.take(i + 1).last() == cs@[i as int]);
                }
                i = i + 1;
            }
            proof {
                assert(cs@.take(cs@.len() as int) =~= cs@);
            }
            push_char(out, ' ');
            push_char(out, ']');
        },
        QpdfValue::Dictionary(es) => {
            push_char(out, '<');
            push_char(out, '<');
            let ghost s0 = out@;
            let mut i: usize = 0;
            while i < es.len()
                invariant
                    i <= es@.len(),
                    out@ == s0 + spec_render_entries(nodes@, es@.take(i as int), binary),
                    spec_value_wf(nodes@, QpdfValue::Dictionary(*es)),
                decreases es@.len() - i,
            {
                push_char(out, ' ');
                out.append(es[i].key.as_str());
                push_char(out, ' ');
                proof {
                    crate::object::lemma_entries_wf_index(nodes@, es@, i as int);
                    assert(decreases_to!(*v => es@[i as int].child));
                }
                render_child(nodes, &es[i].child, binary, out);
                proof {
                    assert(es@.take(i + 1).drop_last() =~= es@.take(i as int));
                    assert(es@.take(i + 1).last() == es@[i as int]);
                }
                i = i + 1;
            }
            proof {
                assert(es@.take(es@.len() as int) =~= es@);
            }
            push_char(out, ' ');
            push_char(out, '>');
            push_char(out, '>');
        },
        QpdfValue::Stream { .. } => {
            out.append("stream");
        },
        QpdfValue::Operator(s) => {
            out.append(s.as_str());
        },
        QpdfValue::InlineImage(b) => {
            push_char(out, '<');
            push_hex(out, b.as_slice());
            push_char(out, '>');
        },
    }
}

} // verus!
