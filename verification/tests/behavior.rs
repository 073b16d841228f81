use qpdf::Qpdf;
use qpdf::QpdfError;
use qpdf::QpdfObjectLike;
use qpdf::QpdfWriter;
use qpdf::StreamDecodeLevel;

#[test]
fn laws_on_concrete_values() {
    let mut q = Qpdf::empty();
    let (b, mism) = qpdf::law_bool_round_trip(&mut q, true);
    assert_eq!(b.unwrap(), true);
    assert_eq!(mism.unwrap_err(), QpdfError::TypeMismatch);

    let (i64v, i32v, bm) = qpdf::law_integer_round_trip(&mut q, -70000);
    assert_eq!(i64v.unwrap(), -70000);
    assert_eq!(i32v.unwrap(), -70000);
    assert_eq!(bm.unwrap_err(), QpdfError::TypeMismatch);

    assert_eq!(qpdf::law_name_round_trip(&mut q, "/Name").unwrap(), "/Name");
    assert_eq!(qpdf::law_string_round_trip(&mut q, "plain text").unwrap(), "plain text");
    assert_eq!(qpdf::law_real_round_trip(&mut q, -15, 1).unwrap(), "-1.5");
    assert_eq!(
        qpdf::law_binary_string_round_trip(&mut q, &[0, 255, 10]).unwrap(),
        vec![0, 255, 10]
    );
    let (it, bt, nt) = qpdf::law_scalar_text(&mut q, -42, false);
    assert_eq!(it, "-42");
    assert_eq!(bt, "false");
    assert_eq!(nt, "null");
    assert_eq!(
        qpdf::law_utf8_binary_encoding(&mut q, "ab"),
        "<feff00610062>"
    );
    assert_eq!(
        qpdf::law_utf8_string_bytes(&mut q, "ab").unwrap(),
        vec![0xfe, 0xff, 0x00, 0x61, 0x00, 0x62]
    );
    let (len, got) = qpdf::law_array_push_appends(&mut q, 11);
    assert_eq!((len, got.unwrap()), (1, 11));
    let (g0, g1) = qpdf::law_array_set_keeps_others(&mut q, 1, 2, 5);
    assert_eq!((g0.unwrap(), g1.unwrap()), (1, 5));
    let (sv, fresh) = qpdf::law_dict_set_get_scalar(&mut q, 9);
    assert_eq!(sv.unwrap(), 9);
    assert!(fresh);
    assert!(qpdf::law_dict_set_get_indirect(&mut q, 9));
}

#[test]
fn make_indirect_idempotent() {
    let mut q = Qpdf::empty();
    let direct = q.new_integer(7);
    assert_eq!(direct.get_id(&q), 0);
    let once = direct.make_indirect(&mut q);
    let twice = once.make_indirect(&mut q);
    assert_eq!(once, twice);
    assert_eq!(once.get_id(&q), twice.get_id(&q));
    assert_eq!(once.get_generation(&q), 0);
    assert_ne!(once.get_id(&q), direct.get_id(&q));
    // mutation through one handle of an indirect object is visible
    // through another resolving the same pair
    let resolved = q.get_object_by_id(once.get_id(&q), 0).unwrap();
    assert_eq!(resolved, once);
}

#[test]
fn scalar_accessor_mismatches() {
    let mut q = Qpdf::empty();
    let n = q.new_null();
    assert_eq!(n.as_bool(&q).unwrap_err(), QpdfError::TypeMismatch);
    assert_eq!(n.as_i64(&q).unwrap_err(), QpdfError::TypeMismatch);
    assert_eq!(n.as_i32(&q).unwrap_err(), QpdfError::TypeMismatch);
    assert_eq!(n.as_real(&q).unwrap_err(), QpdfError::TypeMismatch);
    assert_eq!(n.as_name(&q).unwrap_err(), QpdfError::TypeMismatch);
    assert_eq!(n.as_string(&q).unwrap_err(), QpdfError::TypeMismatch);
    assert_eq!(n.as_binary_string(&q).unwrap_err(), QpdfError::TypeMismatch);
    // numeric widening: an integer may be read as a real
    let i = q.new_integer(3);
    assert_eq!(i.as_real(&q).unwrap(), "3");
}

#[test]
fn integer_text_extremes() {
    let mut q = Qpdf::empty();
    let min = q.new_integer(i64::MIN);
    assert_eq!(min.to_string(&q), "-9223372036854775808");
    let max = q.new_integer(i64::MAX);
    assert_eq!(max.to_string(&q), "9223372036854775807");
    let zero = q.new_integer(0);
    assert_eq!(zero.to_string(&q), "0");
}

#[test]
fn empty_containers_render() {
    let mut q = Qpdf::empty();
    let a = q.new_array();
    assert_eq!(a.to_string(&q), "[ ]");
    let d = q.new_dictionary();
    assert_eq!(d.to_string(&q), "<< >>");
    let arr = a.into_array(&q).unwrap();
    assert_eq!(arr.len(&q), 0);
    assert!(arr.get(&mut q, 0).is_none());
}

#[test]
fn array_set_out_of_range() {
    let mut q = Qpdf::empty();
    let a = q.new_array();
    let arr = a.into_array(&q).unwrap();
    let one = q.new_integer(1);
    assert!(!arr.set(&mut q, 0, &one));
    arr.push(&mut q, &one);
    assert!(arr.set(&mut q, 0, &one));
}

#[test]
fn dictionary_remove_absent_is_noop() {
    let mut q = Qpdf::empty();
    let parsed = q.parse_object("<< /A 1 /B 2 >>").unwrap();
    let dict = parsed.into_dictionary(&q).unwrap();
    let before = parsed.to_string(&q);
    dict.remove(&mut q, "/C");
    assert_eq!(parsed.to_string(&q), before);
    assert_eq!(dict.keys(&q).len(), 2);
    assert!(dict.has(&q, "/A") && dict.has(&q, "/B"));
    dict.remove(&mut q, "/A");
    assert!(!dict.has(&q, "/A"));
    assert_eq!(dict.keys(&q), vec!["/B".to_owned()]);
}

#[test]
fn parse_scalars_and_refs() {
    let mut q = Qpdf::empty();
    let t = q.parse_object("true").unwrap();
    assert!(t.as_bool(&q).unwrap());
    let f = q.parse_object(" false ").unwrap();
    assert!(!f.as_bool(&q).unwrap());
    let n = q.parse_object("null").unwrap();
    assert!(n.is_null(&q));
    let i = q.parse_object("-123").unwrap();
    assert_eq!(i.as_i64(&q).unwrap(), -123);
    let r = q.parse_object("3.14").unwrap();
    assert_eq!(r.as_real(&q).unwrap(), "3.14");
    // a reference to the catalog resolves to the same node
    let catalog = q.parse_object("1 0 R").unwrap();
    assert!(catalog.is_indirect(&q));
    assert_eq!(catalog.get_id(&q), 1);
    // a reference to an unknown object becomes null
    let unknown = q.parse_object("99 0 R").unwrap();
    assert!(unknown.is_null(&q));
}

#[test]
fn parse_hex_strings() {
    let mut q = Qpdf::empty();
    let s = q.parse_object("<68 65 6C6C 6F>").unwrap();
    assert_eq!(s.as_binary_string(&q).unwrap(), b"hello".to_vec());
    // an odd digit count is padded with zero
    let s2 = q.parse_object("<686>").unwrap();
    assert_eq!(s2.as_binary_string(&q).unwrap(), vec![0x68, 0x60]);
}

#[test]
fn parse_errors_are_parse_errors() {
    let mut q = Qpdf::empty();
    for bad in ["<<", "<< /A >>", "[1 2", "(open", "< zz >", "wat", "", "1 2"] {
        match q.parse_object(bad) {
            Err(QpdfError::ParseError { .. }) => {},
            other => panic!("expected a parse error for {:?}, got {:?}", bad, other),
        }
    }
}

#[test]
fn parse_duplicate_keys_keep_last() {
    let mut q = Qpdf::empty();
    let d = q.parse_object("<< /A 1 /A 2 >>").unwrap();
    let dict = d.into_dictionary(&q).unwrap();
    assert_eq!(dict.keys(&q).len(), 1);
    assert_eq!(dict.get(&mut q, "/A").unwrap().as_i64(&q).unwrap(), 2);
}

#[test]
fn utf16_decode_round_trip() {
    let mut q = Qpdf::empty();
    let s = q.new_utf8_string("привет");
    assert_eq!(s.as_string(&q).unwrap(), "привет");
    // a character beyond the basic plane crosses a surrogate pair
    let g = q.new_utf8_string("a\u{1D11E}b");
    assert_eq!(g.as_string(&q).unwrap(), "a\u{1D11E}b");
    assert_eq!(
        g.as_binary_string(&q).unwrap(),
        vec![0xfe, 0xff, 0x00, 0x61, 0xd8, 0x34, 0xdd, 0x1e, 0x00, 0x62]
    );
}

#[test]
fn string_escapes_render() {
    let mut q = Qpdf::empty();
    let s = q.new_string("a(b)c\\d");
    assert_eq!(s.to_string(&q), r"(a\(b\)c\\d)");
    let parsed = q.parse_object(r"(a\(b\)c\\d)").unwrap();
    assert_eq!(parsed.as_string(&q).unwrap(), "a(b)c\\d");
    // balanced parentheses need no escapes on input
    let nested = q.parse_object("(a(b)c)").unwrap();
    assert_eq!(nested.as_string(&q).unwrap(), "a(b)c");
}

#[test]
fn stream_filter_decode_error() {
    let mut q = Qpdf::empty();
    let flate = q.new_name("/FlateDecode");
    let h = q.new_stream_with_dictionary(vec![("/Filter", flate)], &[9, 9]);
    let stream = h.into_stream(&q).unwrap();
    assert_eq!(
        stream.get_stream_data(&q, StreamDecodeLevel::Generalized).unwrap_err(),
        QpdfError::DecodeError
    );
    assert_eq!(
        stream.get_stream_data(&q, StreamDecodeLevel::Raw).unwrap(),
        vec![9, 9]
    );
}

#[test]
fn page_content_data_concatenates() {
    let mut q = Qpdf::empty();
    let c1 = q.new_stream(b"AB");
    let c2 = q.new_stream(b"CD");
    let contents = q.new_array();
    let arr = contents.into_array(&q).unwrap();
    arr.push(&mut q, &c1);
    arr.push(&mut q, &c2);
    let page = q.new_dictionary_from(vec![("/Contents", contents)]);
    assert_eq!(page.inner.get_page_content_data(&q).unwrap(), b"ABCD".to_vec());
    let single = q.new_dictionary_from(vec![("/Contents", c1)]);
    assert_eq!(single.inner.get_page_content_data(&q).unwrap(), b"AB".to_vec());
    let none = q.new_dictionary();
    assert_eq!(
        none.get_page_content_data(&q).unwrap_err(),
        QpdfError::TypeMismatch
    );
}

#[test]
fn add_page_counts() {
    let mut q = Qpdf::empty();
    assert_eq!(q.get_num_pages().unwrap(), 0);
    assert!(q.get_page(0).is_none());
    let p1 = q.parse_object("<< /Type /Page >>").unwrap();
    q.add_page(&p1, false).unwrap();
    assert_eq!(q.get_num_pages().unwrap(), 1);
    let p2 = q.parse_object("<< /Type /Page >>").unwrap();
    q.add_page(&p2, true).unwrap();
    assert_eq!(q.get_num_pages().unwrap(), 2);
    let first = q.get_page(0).unwrap();
    assert!(first.is_dictionary(&q));
    let not_a_page = q.new_integer(3);
    assert_eq!(q.add_page(&not_a_page, false).unwrap_err(), QpdfError::TypeMismatch);
}

#[test]
fn encrypted_documents_need_the_password() {
    let mut q = Qpdf::empty();
    let trailer = q.get_trailer();
    let pw = q.new_string("test");
    trailer.set(&mut q, "/Encrypt", &pw);
    let writer = QpdfWriter::new();
    let mem = writer.write_to_memory(&q).unwrap();

    assert_eq!(
        Qpdf::read_from_memory(&mem).unwrap_err(),
        QpdfError::AuthenticationError
    );
    assert_eq!(
        Qpdf::read_from_memory_encrypted(&mem, "wrong").unwrap_err(),
        QpdfError::AuthenticationError
    );
    let mut opened = Qpdf::read_from_memory_encrypted(&mem, "test").unwrap();
    // an opened encrypted document behaves as an unencrypted one
    assert_eq!(opened.get_pdf_version(), "1.3");
    let one = opened.new_integer(1);
    assert_eq!(one.to_string(&opened), "1");
    let w2 = QpdfWriter::new();
    assert!(w2.write_to_memory(&opened).is_ok());
}

#[test]
fn reader_rejects_bad_headers() {
    match Qpdf::read_from_memory(b"not a pdf") {
        Err(QpdfError::ParseError { .. }) => {},
        other => panic!("expected a parse error, got {:?}", other),
    }
    match Qpdf::read_from_memory(b"") {
        Err(QpdfError::ParseError { .. }) => {},
        other => panic!("expected a parse error, got {:?}", other),
    }
}

#[test]
fn version_and_linearization_round_trip() {
    let q = Qpdf::empty();
    let mut w = QpdfWriter::new();
    w.force_pdf_version("2.0");
    w.linearize(false);
    let mem = w.write_to_memory(&q).unwrap();
    let back = Qpdf::read_from_memory(&mem).unwrap();
    assert_eq!(back.get_pdf_version(), "2.0");
    assert!(!back.is_linearized());
}

#[test]
fn duplicate_snapshots_direct_objects() {
    let mut q = Qpdf::empty();
    let a = q.new_integer(5);
    let b = a.duplicate(&mut q);
    assert_ne!(a, b);
    assert_eq!(b.as_i64(&q).unwrap(), 5);
    let ind = a.make_indirect(&mut q);
    let shared = ind.duplicate(&mut q);
    assert_eq!(ind, shared);
}

#[test]
fn type_codes_round_trip() {
    for code in 0u32..13 {
        let t = qpdf::QpdfObjectType::from_qpdf_enum(code).unwrap();
        let t2 = qpdf::QpdfObjectType::from_qpdf_enum(code).unwrap();
        assert_eq!(t, t2);
    }
    assert!(qpdf::QpdfObjectType::from_qpdf_enum(13).is_none());
    assert_eq!(
        qpdf::QpdfObjectType::from_qpdf_enum(9).unwrap(),
        qpdf::QpdfObjectType::Dictionary
    );
}
