use std::io::Write;
use zedis::config::{format_nodes, format_size};
use zedis::display::{choose_text, detect_format, json_shaped, render_string_value, show_decompressed, DataFormat};
use zedis::values::real_index;

fn gzip(data: &[u8]) -> Vec<u8> {
    let mut enc = flate2::write::GzEncoder::new(Vec::new(), flate2::Compression::default());
    enc.write_all(data).unwrap();
    enc.finish().unwrap()
}

#[test]
fn formats_by_leading_bytes() {
    assert_eq!(detect_format(&[0x1f, 0x8b, 0x08]), DataFormat::Gzip);
    assert_eq!(detect_format(&[0x28, 0xb5, 0x2f, 0xfd, 0x00]), DataFormat::Zstd);
    assert_eq!(detect_format(b"plain"), DataFormat::Text);
    assert_eq!(detect_format(&[0x81, 0xa1, 0x61, 0x01]), DataFormat::MessagePack);
    assert_eq!(detect_format(&[0xff, 0x00]), DataFormat::Binary);
}

#[test]
fn json_shape_ignores_outer_white_space() {
    assert!(json_shaped("  {\"a\":1}\n"));
    assert!(json_shaped("[1,2]"));
    assert!(!json_shaped("{"));
    assert!(!json_shaped("[1,2}"));
    assert!(!json_shaped("hello"));
}

#[test]
fn choose_text_prefers_pretty_json() {
    assert_eq!(
        choose_text("{\"a\":1}".to_string(), Some("{\n  \"a\": 1\n}".to_string())),
        (DataFormat::Json, "{\n  \"a\": 1\n}".to_string())
    );
    assert_eq!(choose_text("{bad".to_string(), Some("x".to_string())), (DataFormat::Text, "{bad".to_string()));
    assert_eq!(choose_text("{\"a\":}".to_string(), None), (DataFormat::Text, "{\"a\":}".to_string()));
}

#[test]
fn empty_value_is_text_without_content() {
    let v = render_string_value(vec![]);
    assert_eq!(v.format, DataFormat::Text);
    assert_eq!(v.text, None);
}

#[test]
fn json_text_is_pretty_printed() {
    let v = render_string_value(b"{\"a\":[1,2]}".to_vec());
    assert_eq!(v.format, DataFormat::Json);
    assert_eq!(v.text.as_deref(), Some("{\n  \"a\": [\n    1,\n    2\n  ]\n}"));
    assert_eq!(v.bytes, b"{\"a\":[1,2]}".to_vec());
}

#[test]
fn plain_text_stays_text() {
    let v = render_string_value("grüße".as_bytes().to_vec());
    assert_eq!(v.format, DataFormat::Text);
    assert_eq!(v.text.as_deref(), Some("grüße"));
    let broken = render_string_value(b"{not json}".to_vec());
    assert_eq!(broken.format, DataFormat::Text);
    assert_eq!(broken.text.as_deref(), Some("{not json}"));
}

#[test]
fn gzip_is_decompressed_and_classified() {
    let v = render_string_value(gzip(b"[true]"));
    assert_eq!(v.format, DataFormat::Json);
    assert_eq!(v.text.as_deref(), Some("[\n  true\n]"));
    let t = render_string_value(gzip(b"hello"));
    assert_eq!(t.format, DataFormat::Text);
    assert_eq!(t.text.as_deref(), Some("hello"));
    let bad = render_string_value(vec![0x1f, 0x8b, 0x00, 0x01]);
    assert_eq!(bad.format, DataFormat::Gzip);
    assert_eq!(bad.text, None);
}

#[test]
fn messagepack_is_shown_as_json() {
    let value: serde_json::Value = serde_json::from_str("{\"a\":1}").unwrap();
    let packed = rmp_serde::to_vec(&value).unwrap();
    let v = render_string_value(packed);
    assert_eq!(v.format, DataFormat::MessagePack);
    assert_eq!(v.text.as_deref(), Some("{\n  \"a\": 1\n}"));
}

#[test]
fn binary_has_no_text() {
    let v = render_string_value(vec![0xff, 0xfe, 0x00]);
    assert_eq!(v.format, DataFormat::Binary);
    assert_eq!(v.text, None);
    let z = render_string_value(vec![0x28, 0xb5, 0x2f, 0xfd, 0x01]);
    assert_eq!(z.format, DataFormat::Zstd);
    assert_eq!(z.text, None);
}

#[test]
fn filtered_rows_map_to_buffer_positions() {
    let visible = vec![2, 5, 9];
    assert_eq!(real_index(Some(&visible), 1), 5);
    assert_eq!(real_index(Some(&visible), 7), 7);
    assert_eq!(real_index(None, 4), 4);
}

#[test]
fn status_texts() {
    assert_eq!(format_size(Some(120), 35), "35/120");
    assert_eq!(format_size(None, 35), "--");
    assert_eq!(format_nodes(3, 3, "7.2.4"), "3 / 3 (v7.2.4)");
}

#[test]
fn decompressed_bytes_are_classified() {
    assert_eq!(
        show_decompressed(b"{\"k\":2}", DataFormat::Gzip),
        (DataFormat::Json, Some("{\n  \"k\": 2\n}".to_string()))
    );
    assert_eq!(show_decompressed(b"abc", DataFormat::Zstd), (DataFormat::Text, Some("abc".to_string())));
    assert_eq!(show_decompressed(&[0xff], DataFormat::Gzip), (DataFormat::Gzip, None));
}
