use std::io::Read;
use vstd::prelude::*;
use vstd::string::StrSliceExecFns;
use vstd::utf8::{decode_utf8, valid_utf8};

verus! {

/// How the bytes of a string value are shown.
#[derive(Debug, Clone, Copy, PartialEq, Eq, Structural)]
pub enum DataFormat {
    Text,
    Json,
    MessagePack,
    Gzip,
    Zstd,
    Binary,
}

/// Bytes that start like a gzip stream.
pub open spec fn is_gzip(b: Seq<u8>) -> bool {
    b.len() >= 2 && b[0] == 0x1f && b[1] == 0x8b
}

/// Bytes that start like a zstd frame.
pub open spec fn is_zstd(b: Seq<u8>) -> bool {
    b.len() >= 4 && b[0] == 0x28 && b[1] == 0xb5 && b[2] == 0x2f && b[3] == 0xfd
}

/// A first byte that opens a MessagePack map or array.
pub open spec fn is_msgpack_container(x: u8) -> bool {
    (0x80 <= x && x <= 0x9f) || (0xdc <= x && x <= 0xdf)
}

/// The format that the leading bytes announce: compressed streams by their
/// magic numbers, MessagePack when the bytes are not UTF-8 and open a map or
/// an array, else text when they are UTF-8, else binary.
pub open spec fn format_of(b: Seq<u8>) -> DataFormat {
    if is_gzip(b) {
        DataFormat::Gzip
    } else if is_zstd(b) {
        DataFormat::Zstd
    } else if valid_utf8(b) {
        DataFormat::Text
    } else if b.len() > 0 && is_msgpack_container(b[0]) {
        DataFormat::MessagePack
    } else {
        DataFormat::Binary
    }
}

/// What `std::str::from_utf8` gives for `b`.
pub open spec fn utf8_of(b: Seq<u8>) -> Option<Seq<char>> {
    if valid_utf8(b) {
        Some(decode_utf8(b))
    } else {
        None
    }
}

/// Relies on std::str::from_utf8, which returns the text exactly when the
/// bytes are well-formed UTF-8.
#[verifier::external_body]
fn utf8_text(b: &[u8]) -> (r: Option<String>)
    ensures
        match r {
            Some(s) => utf8_of(b@) == Some(s@),
            None => utf8_of(b@) is None,
        },
{
    std::str::from_utf8(b).ok().map(|s| s.to_string())
}

/// What a gzip decoder yields for `b`, or nothing when it fails.
pub uninterp spec fn gunzip_of(b: Seq<u8>) -> Option<Seq<u8>>;

/// Relies on flate2::read::GzDecoder, read to the end, to decompress `b`.
#[verifier::external_body]
fn gunzip(b: &[u8]) -> (r: Option<Vec<u8>>)
    ensures
        match r {
            Some(v) => gunzip_of(b@) == Some(v@),
            None => gunzip_of(b@) is None,
        },
{
    let mut out = Vec::new();
    match flate2::read::GzDecoder::new(b).read_to_end(&mut out) {
        Ok(_) => Some(out),
        Err(_) => None,
    }
}

/// The pretty-printed JSON of a text that parses as JSON.
pub uninterp spec fn json_pretty_of(s: Seq<char>) -> Option<Seq<char>>;

/// Relies on serde_json::from_str into a serde_json::Value and
/// serde_json::to_string_pretty of that value.
#[verifier::external_body]
fn json_pretty(s: &str) -> (r: Option<String>)
    ensures
        match r {
            Some(p) => json_pretty_of(s@) == Some(p@),
            None => json_pretty_of(s@) is None,
        },
{
    let v: serde_json::Value = serde_json::from_str(s).ok()?;
    serde_json::to_string_pretty(&v).ok()
}

/// The pretty-printed JSON of a MessagePack document.
pub uninterp spec fn msgpack_json_of(b: Seq<u8>) -> Option<Seq<char>>;

/// Relies on rmp_serde::from_slice into a serde_json::Value and
/// serde_json::to_string_pretty of that value.
#[verifier::external_body]
fn msgpack_json(b: &[u8]) -> (r: Option<String>)
    ensures
        match r {
            Some(p) => msgpack_json_of(b@) == Some(p@),
            None => msgpack_json_of(b@) is None,
        },
{
    let v: serde_json::Value = rmp_serde::from_slice(b).ok()?;
    serde_json::to_string_pretty(&v).ok()
}

/// The format the leading bytes of a value announce.
pub fn detect_format(b: &[u8]) -> (r: DataFormat)
    ensures
        r == format_of(b@),
{
    let n = b.len();
    if n >= 2 && b[0] == 0x1f && b[1] == 0x8b {
        DataFormat::Gzip
    } else if n >= 4 && b[0] == 0x28 && b[1] == 0xb5 && b[2] == 0x2f && b[3] == 0xfd {
        DataFormat::Zstd
    } else if utf8_text(b).is_some() {
        DataFormat::Text
    } else if n > 0 && ((0x80 <= b[0] && b[0] <= 0x9f) || (0xdc <= b[0] && b[0] <= 0xdf)) {
        DataFormat::MessagePack
    } else {
        DataFormat::Binary
    }
}

/// White space that JSON allows around a value.
pub open spec fn is_json_space(c: char) -> bool {
    c == ' ' || c == '\t' || c == '\n' || c == '\r'
}

/// The text without the JSON white space at both ends.
pub open spec fn json_trim(s: Seq<char>) -> Seq<char>
    decreases s.len(),
{
    if s.len() > 0 && is_json_space(s[0]) {
        json_trim(s.drop_first())
    } else if s.len() > 0 && is_json_space(s.last()) {
        json_trim(s.drop_last())
    } else {
        s
    }
}

/// A text whose trimmed form is wrapped in braces or brackets: only such
/// text is offered to the JSON parser.
pub open spec fn looks_like_json(s: Seq<char>) -> bool {
    let t = json_trim(s);
    t.len() >= 2 && ((t[0] == '{' && t.last() == '}') || (t[0] == '[' && t.last() == ']'))
}

fn json_space(c: char) -> (r: bool)
    ensures
        r == is_json_space(c),
{
    c == ' ' || c == '\t' || c == '\n' || c == '\r'
}

/// Whether `s` is wrapped in braces or brackets, JSON white space aside.
pub fn json_shaped(s: &str) -> (r: bool)
    ensures
        r == looks_like_json(s@),
{
    let n = s.unicode_len();
    let mut lo: usize = 0;
    let mut hi: usize = n;
    assert(s@.subrange(0, n as int) =~= s@);
    while lo < hi && (json_space(s.get_char(lo)) || json_space(s.get_char(hi - 1)))
        invariant
            n == s@.len(),
            lo <= hi <= n,
            json_trim(s@) == json_trim(s@.subrange(lo as int, hi as int)),
        decreases hi - lo,
    {
        let ghost t = s@.subrange(lo as int, hi as int);
        if json_space(s.get_char(lo)) {
            assert(t.drop_first() =~= s@.subrange(lo + 1, hi as int));
            lo = lo + 1;
        } else {
            assert(t.drop_last() =~= s@.subrange(lo as int, hi - 1));
            hi = hi - 1;
        }
    }
    let ghost t = s@.subrange(lo as int, hi as int);
    if lo < hi {
        assert(t[0] == s@[lo as int] && t.last() == s@[hi - 1]);
    }
    assert(json_trim(t) == t);
    if hi - lo < 2 {
        return false;
    }
    let first = s.get_char(lo);
    let last = s.get_char(hi - 1);
    (first == '{' && last == '}') || (first == '[' && last == ']')
}

/// What a decoded text is shown as: its pretty JSON form when it is shaped
/// like JSON and `pretty` (the parser's result for it) is present, else the
/// text itself.
pub open spec fn shown_text(s: Seq<char>, pretty: Option<Seq<char>>) -> (DataFormat, Seq<char>) {
    if looks_like_json(s) && pretty is Some {
        (DataFormat::Json, pretty->0)
    } else {
        (DataFormat::Text, s)
    }
}

/// Chooses between a decoded text and its pretty JSON form.
pub fn choose_text(text: String, pretty: Option<String>) -> (r: (DataFormat, String))
    ensures
        (r.0, r.1@) == shown_text(
            text@,
            match pretty {
                Some(p) => Some(p@),
                None => None,
            },
        ),
{
    if json_shaped(text.as_str()) {
        if let Some(p) = pretty {
            return (DataFormat::Json, p);
        }
    }
    (DataFormat::Text, text)
}

/// The text shown for a decoded text `s`.
pub open spec fn classify_of(s: Seq<char>) -> (DataFormat, Seq<char>) {
    shown_text(s, if looks_like_json(s) { json_pretty_of(s) } else { None })
}

fn classify(text: String) -> (r: (DataFormat, String))
    ensures
        (r.0, r.1@) == classify_of(text@),
{
    if json_shaped(text.as_str()) {
        let pretty = json_pretty(text.as_str());
        choose_text(text, pretty)
    } else {
        choose_text(text, None)
    }
}

/// What decompressed bytes are shown as: UTF-8 content as text or JSON; else
/// the compressed format with no text.
pub open spec fn decompressed_of(d: Seq<u8>, compressed: DataFormat) -> (DataFormat, Option<Seq<char>>) {
    match utf8_of(d) {
        Some(s) => (classify_of(s).0, Some(classify_of(s).1)),
        None => (compressed, None),
    }
}

/// Shows the bytes `d` that a decoder of format `compressed` produced.
pub fn show_decompressed(d: &[u8], compressed: DataFormat) -> (r: (DataFormat, Option<String>))
    ensures
        (r.0, opt_text(r.1)) == decompressed_of(d@, compressed),
{
    match utf8_text(d) {
        Some(s) => {
            let (format, t) = classify(s);
            (format, Some(t))
        },
        None => (compressed, None),
    }
}

/// A string value as shown: the format found and the text derived from the
/// bytes, which stay the source of truth.
pub struct StringView {
    pub format: DataFormat,
    pub text: Option<String>,
    pub bytes: Vec<u8>,
}

pub open spec fn opt_text(o: Option<String>) -> Option<Seq<char>> {
    match o {
        Some(s) => Some(s@),
        None => None,
    }
}

/// The format and text shown for the bytes `b`: empty bytes are text with none shown;
/// MessagePack is shown as pretty JSON; gzip is decompressed and its UTF-8
/// content shown as text or JSON; zstd is recognised but not decompressed;
/// UTF-8 text is shown as text or JSON; anything else has no text.
pub open spec fn render_of(b: Seq<u8>) -> (DataFormat, Option<Seq<char>>) {
    if b.len() == 0 {
        (DataFormat::Text, None)
    } else {
        match format_of(b) {
            DataFormat::MessagePack => (DataFormat::MessagePack, msgpack_json_of(b)),
            DataFormat::Gzip => match gunzip_of(b) {
                Some(d) => match utf8_of(d) {
                    Some(s) => (classify_of(s).0, Some(classify_of(s).1)),
                    None => (DataFormat::Gzip, None),
                },
                None => (DataFormat::Gzip, None),
            },
            DataFormat::Text => (classify_of(decode_utf8(b)).0, Some(classify_of(decode_utf8(b)).1)),
            f => (f, None),
        }
    }
}

/// Builds the view of a string value from its bytes.
pub fn render_string_value(bytes: Vec<u8>) -> (r: StringView)
    ensures
        r.bytes@ == bytes@,
        (r.format, opt_text(r.text)) == render_of(bytes@),
{
    if bytes.len() == 0 {
        return StringView { format: DataFormat::Text, text: None, bytes };
    }
    match detect_format(bytes.as_slice()) {
        DataFormat::MessagePack => {
            let text = msgpack_json(bytes.as_slice());
            StringView { format: DataFormat::MessagePack, text, bytes }
        },
        DataFormat::Gzip => {
            match gunzip(bytes.as_slice()) {
                Some(d) => {
                    let (format, text) = show_decompressed(d.as_slice(), DataFormat::Gzip);
                    StringView { format, text, bytes }
                },
                None => StringView { format: DataFormat::Gzip, text: None, bytes },
            }
        },
        DataFormat::Text => {
            match utf8_text(bytes.as_slice()) {
                Some(s) => {
                    let (format, t) = classify(s);
                    StringView { format, text: Some(t), bytes }
                },
                None => StringView { format: DataFormat::Binary, text: None, bytes },
            }
        },
        f => StringView { format: f, text: None, bytes },
    }
}

} // verus!
