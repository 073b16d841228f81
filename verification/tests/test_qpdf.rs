use std::collections::HashSet;

use qpdf::Qpdf;
use qpdf::QpdfObjectLike;
use qpdf::QpdfWriter;
use qpdf::StreamDecodeLevel;

#[test]
fn test_writer() {
    let qpdf = Qpdf::empty();
    let mut writer = QpdfWriter::new();
    writer.force_pdf_version("1.7");
    writer.content_normalization = true;
    writer.preserve_unreferenced_objects = true;
    writer.object_stream_mode = qpdf::ObjectStreamMode::Disable;
    writer.linearize(true);
    writer.compress_streams = true;
    writer.stream_data_mode = qpdf::StreamDataMode::Compress;

    let mem = writer.write_to_memory(&qpdf).unwrap();

    let mem_pdf = Qpdf::read_from_memory(&mem).unwrap();
    assert_eq!(mem_pdf.get_pdf_version(), "1.7");
    assert!(mem_pdf.is_linearized());
}

#[test]
fn test_pdf_from_scratch() {
    let mut qpdf = Qpdf::empty();

    let font = qpdf
        .parse_object(
            r#"<<
                        /Type /Font
                        /Subtype /Type1
                        /Name /F1
                        /BaseFont /Helvetica
                        /Encoding /StandardEncoding
                      >>"#,
        )
        .unwrap()
        .make_indirect(&mut qpdf);

    let procset = qpdf
        .parse_object("[/PDF /Text]")
        .unwrap()
        .make_indirect(&mut qpdf);
    let contents = qpdf.new_stream(b"BT /F1 15 Tf 72 720 Td (First Page) Tj ET\n");
    let mediabox = qpdf.parse_object("[0 0 612 792]").unwrap();
    let rfont = qpdf.new_dictionary_from(vec![("/Font", font)]);
    let resources = qpdf.new_dictionary_from(vec![("/ProcSet", procset), ("/Font", rfont.inner)]);
    let page_name = qpdf.new_name("/Page");
    let page = qpdf
        .new_dictionary_from(vec![
            ("/Type", page_name),
            ("/MediaBox", mediabox),
            ("/Contents", contents),
            ("/Resources", resources.inner),
        ])
        .inner
        .make_indirect(&mut qpdf);

    qpdf.add_page(&page, true).unwrap();

    let mut writer = QpdfWriter::new();
    writer.static_id = true;
    writer.force_pdf_version("1.7");
    writer.content_normalization = true;
    writer.preserve_unreferenced_objects = true;
    writer.object_stream_mode = qpdf::ObjectStreamMode::Preserve;
    writer.linearize(true);
    writer.compress_streams = false;
    writer.stream_data_mode = qpdf::StreamDataMode::Preserve;

    let mem = writer.write_to_memory(&qpdf).unwrap();

    let mem_pdf = Qpdf::read_from_memory(&mem).unwrap();
    assert_eq!(mem_pdf.get_pdf_version(), "1.7");
    assert!(mem_pdf.is_linearized());
}

#[test]
fn test_qpdf_basic_objects() {
    let mut qpdf = Qpdf::empty();
    let obj = qpdf.new_bool(true);
    assert!(obj.is_bool(&qpdf) && obj.as_bool(&qpdf).unwrap());
    assert_eq!(obj.to_string(&qpdf), "true");

    let obj = qpdf.new_name("foo");
    assert!(obj.is_name(&qpdf) && obj.as_name(&qpdf).unwrap() == "foo");
    assert_eq!(obj.to_string(&qpdf), "foo");

    let obj = qpdf.new_integer(12_3456_7890);
    assert!(obj.is_scalar(&qpdf) && obj.as_i64(&qpdf).unwrap() == 12_3456_7890);
    assert_eq!(obj.to_string(&qpdf), "1234567890");

    let obj = qpdf.new_null();
    assert!(obj.is_null(&qpdf));
    assert_eq!(obj.to_string(&qpdf), "null");

    let obj = qpdf.new_real(1234, 3);
    assert_eq!(obj.as_real(&qpdf).unwrap(), "1.234");
    assert_eq!(obj.to_string(&qpdf), "1.234");

    let obj = qpdf.new_uninitialized();
    assert!(!obj.is_initialized(&qpdf));

    let obj = qpdf.new_stream(&[]);
    assert!(obj.is_stream(&qpdf));
    assert_eq!(obj.to_string(&qpdf), "3 0 R");

    let stream = obj.into_stream(&qpdf).unwrap();
    let stream_dict = stream.get_stream_dictionary(&qpdf);
    let stream_name = qpdf.new_name("/Stream");
    stream_dict.set(&mut qpdf, "/Type", &stream_name);

    let indirect = obj.make_indirect(&mut qpdf);
    assert!(indirect.is_indirect(&qpdf));
    // a stream is indirect from birth, and making an object indirect is
    // idempotent, so the handle keeps its identity
    assert_eq!(indirect.get_id(&qpdf), obj.get_id(&qpdf));
    assert_eq!(indirect.get_generation(&qpdf), obj.get_generation(&qpdf));
}

#[test]
fn test_qpdf_streams() {
    let mut qpdf = Qpdf::empty();

    let obj = qpdf.get_object_by_id(1234, 1);
    assert!(obj.is_none());

    let test_name = qpdf.new_name("/Test");
    let obj = qpdf.new_stream_with_dictionary(vec![("/Type", test_name)], &[1, 2, 3, 4]);
    assert!(obj.is_stream(&qpdf));

    let by_id = qpdf
        .get_object_by_id(obj.get_id(&qpdf), obj.get_generation(&qpdf))
        .unwrap();
    println!("{}", by_id.to_string(&qpdf));

    let stream = by_id.into_stream(&qpdf).unwrap();
    let data = stream.get_stream_data(&qpdf, StreamDecodeLevel::Raw).unwrap();
    assert_eq!(data.as_slice(), &[1, 2, 3, 4]);

    let stream = obj.into_stream(&qpdf).unwrap();
    let stream_dict = stream.get_stream_dictionary(&qpdf);
    let type_val = stream_dict.get(&mut qpdf, "/Type").unwrap();
    assert_eq!(type_val.as_name(&qpdf).unwrap(), "/Test");

    let indirect = obj.make_indirect(&mut qpdf);
    assert!(indirect.is_indirect(&qpdf));
    assert_ne!(indirect.get_id(&qpdf), 0);
    assert_eq!(indirect.get_generation(&qpdf), 0);
}

#[test]
fn test_parse_object() {
    let text = "<< /Type /Page /Resources << /XObject null >> /MediaBox null /Contents null >>";
    let mut qpdf = Qpdf::empty();
    let obj = qpdf.parse_object(text).unwrap();
    assert!(obj.is_dictionary(&qpdf));
    println!("{}", obj.to_string(&qpdf));
    println!("version: {}", qpdf.get_pdf_version());
}

#[test]
fn test_error() {
    let mut qpdf = Qpdf::empty();
    assert!(qpdf.get_page(0).is_none());
    let result = qpdf.parse_object("<<--< /Type -- null >>");
    assert!(result.is_err());
    println!("{:?}", result);
}

#[test]
fn test_array() {
    let mut qpdf = Qpdf::empty();
    let arr_obj = qpdf.new_array();
    let arr = arr_obj.into_array(&qpdf).unwrap();
    let one = qpdf.new_integer(1);
    arr.push(&mut qpdf, &one);
    let two = qpdf.new_integer(2);
    arr.push(&mut qpdf, &two);
    let three = qpdf.new_integer(3);
    arr.push(&mut qpdf, &three);
    assert_eq!(arr.inner().to_string(&qpdf), "[ 1 2 3 ]");

    assert!(arr.get(&mut qpdf, 10).is_none());

    let mut items: Vec<i32> = Vec::new();
    for h in arr.items(&mut qpdf) {
        items.push(h.as_i32(&qpdf).unwrap());
    }
    assert_eq!(items, vec![1, 2, 3]);

    let five = qpdf.new_integer(5);
    arr.set(&mut qpdf, 1, &five);
    assert_eq!(arr.inner().to_string(&qpdf), "[ 1 5 3 ]");
}

#[test]
fn test_dictionary() {
    let mut qpdf = Qpdf::empty();
    let parsed = qpdf
        .parse_object(
            "<< /Type /Page /Resources << /XObject null >> /MediaBox [1 2 3 4] /Contents (hello) >>",
        )
        .unwrap();
    let dict = parsed.into_dictionary(&qpdf).unwrap();

    let keys = dict.keys(&qpdf).into_iter().collect::<HashSet<_>>();
    assert_eq!(
        keys,
        ["/Type", "/Resources", "/MediaBox", "/Contents"]
            .into_iter()
            .map(|s| s.to_owned())
            .collect::<HashSet<_>>()
    );

    assert!(dict.get(&mut qpdf, "/Type").unwrap().is_name(&qpdf));
    assert_eq!(
        dict.get(&mut qpdf, "/Contents").unwrap().as_string(&qpdf).unwrap(),
        "hello"
    );

    let bval = qpdf.new_bool(true);
    dict.set(&mut qpdf, "/MyKey", &bval);

    let setval = dict.get(&mut qpdf, "/MyKey").unwrap();
    assert!(setval.as_bool(&qpdf).unwrap());
    assert_ne!(bval, setval);

    dict.remove(&mut qpdf, "/MyKey");
    assert!(dict.get(&mut qpdf, "/MyKey").is_none());
}

#[test]
fn test_strings() {
    let mut qpdf = Qpdf::empty();
    let bin_str = qpdf.new_binary_string(&[1, 2, 3, 4]);
    assert_eq!(bin_str.to_string(&qpdf), "<01020304>");

    let utf8_str = qpdf.new_utf8_string("привет");
    assert_eq!(utf8_str.to_string(&qpdf), "<feff043f04400438043204350442>");

    let plain_str = qpdf.new_string("hello");
    assert_eq!(plain_str.to_string(&qpdf), "(hello)");
    assert_eq!(plain_str.to_binary(&qpdf), "<68656c6c6f>");
}
