//! Decoding text payloads with a fallback over several legacy encodings.
use vstd::prelude::*;
use crate::bytes::read_u8;
use crate::text::{lossy_utf8, utf8_lossy, push_str, string_from_chars};

verus! {

/// The candidate encodings, in the order they are tried.
#[derive(Debug, Clone, Copy, PartialEq, Eq, Structural)]
pub enum TextEncoding {
    Utf8,
    Windows1252,
    Windows1250,
    Windows1251,
}

/// What encoding_rs's `Encoding::decode` makes of the bytes under encoding number `encoding`
/// (0 to 3, in the order of `TextEncoding`): the text, or `None` if it reported malformed input.
pub uninterp spec fn decoded_text(encoding: int, b: Seq<u8>) -> Option<Seq<char>>;

pub open spec fn encoding_number(e: TextEncoding) -> int {
    match e {
        TextEncoding::Utf8 => 0,
        TextEncoding::Windows1252 => 1,
        TextEncoding::Windows1250 => 2,
        TextEncoding::Windows1251 => 3,
    }
}

/// Relies on `encoding_rs::Encoding::decode` for the four encodings: the decoded text and
/// whether malformed sequences were met. As UTF-8, valid UTF-8 that does not start with a byte
/// order mark decodes to the string it encodes.
#[verifier::external_body]
fn decode_as(e: TextEncoding, b: &[u8]) -> (r: Option<String>)
    ensures
        r is Some <==> decoded_text(encoding_number(e), b@) is Some,
        r is Some ==> r->0@ == decoded_text(encoding_number(e), b@)->0,
        e == TextEncoding::Utf8 && vstd::utf8::valid_utf8(b@) && !has_utf8_bom(b@) ==> r is Some && r->0@ == vstd::utf8::decode_utf8(b@),
{
    let encoding = match e {
        TextEncoding::Utf8 => encoding_rs::UTF_8,
        TextEncoding::Windows1252 => encoding_rs::WINDOWS_1252,
        TextEncoding::Windows1250 => encoding_rs::WINDOWS_1250,
        TextEncoding::Windows1251 => encoding_rs::WINDOWS_1251,
    };
    let (text, _, had_errors) = encoding.decode(b);
    if had_errors { None } else { Some(text.into_owned()) }
}

/// Whether the bytes start with the UTF-8 byte order mark `EF BB BF`.
pub open spec fn has_utf8_bom(b: Seq<u8>) -> bool {
    b.len() >= 3 && b[0] == 0xEF && b[1] == 0xBB && b[2] == 0xBF
}

/// The label of an encoding.
pub open spec fn encoding_label(n: int) -> Seq<char> {
    if n == 0 {
        seq!['u', 't', 'f', '-', '8']
    } else if n == 1 {
        seq!['w', 'i', 'n', 'd', 'o', 'w', 's', '-', '1', '2', '5', '2']
    } else if n == 2 {
        seq!['w', 'i', 'n', 'd', 'o', 'w', 's', '-', '1', '2', '5', '0']
    } else {
        seq!['w', 'i', 'n', 'd', 'o', 'w', 's', '-', '1', '2', '5', '1']
    }
}

/// The text of a payload: the first encoding that decodes it cleanly, tried from `n` on, else
/// UTF-8 with replacement characters; with the label of the encoding used.
pub open spec fn decode_from(b: Seq<u8>, n: int) -> (Seq<char>, Seq<char>)
    decreases 4 - n,
{
    if n >= 4 || n < 0 {
        (lossy_utf8(b), encoding_label(0))
    } else {
        match decoded_text(n, b) {
            Some(t) => (t, encoding_label(n)),
            None => decode_from(b, n + 1),
        }
    }
}

/// The index of the first zero byte, or the length.
pub open spec fn nul_position(b: Seq<u8>) -> int {
    if exists|i: int| 0 <= i < b.len() && b[i] == 0 {
        choose|i: int| 0 <= i < b.len() && b[i] == 0 && forall|j: int| 0 <= j < i ==> b[j] != 0
    } else {
        b.len() as int
    }
}

/// Decoded text and the encoding it was decoded with.
#[derive(Debug, Clone)]
pub struct RawString {
    pub content: String,
    pub encoding: String,
}

impl RawString {
    /// Decodes with the first candidate encoding that reports no malformed input, falling back
    /// to UTF-8 with replacement characters.
    pub fn decode(data: &[u8]) -> (r: RawString)
        ensures
            (r.content@, r.encoding@) == decode_from(data@, 0),
            vstd::utf8::valid_utf8(data@) && !has_utf8_bom(data@) ==> r.content@ == vstd::utf8::decode_utf8(data@),
    {
        let order = [TextEncoding::Utf8, TextEncoding::Windows1252, TextEncoding::Windows1250, TextEncoding::Windows1251];
        let labels = ["utf-8", "windows-1252", "windows-1250", "windows-1251"];
        proof {
            reveal_strlit("utf-8");
            reveal_strlit("windows-1252");
            reveal_strlit("windows-1250");
            reveal_strlit("windows-1251");
        }
        let mut i: usize = 0;
        while i < 4
            invariant
                i <= 4,
                order@ == seq![TextEncoding::Utf8, TextEncoding::Windows1252, TextEncoding::Windows1250, TextEncoding::Windows1251],
                labels@.len() == 4,
                forall|k: int| 0 <= k < 4 ==> (#[trigger] labels@[k])@ == encoding_label(k),
                decode_from(data@, 0) == decode_from(data@, i as int),
                i > 0 ==> !(vstd::utf8::valid_utf8(data@) && !has_utf8_bom(data@)),
            decreases 4 - i,
        {
            assert(encoding_number(order@[i as int]) == i as int);
            match decode_as(order[i], data) {
                Some(text) => {
                    let mut v: Vec<char> = Vec::new();
                    push_str(&mut v, labels[i]);
                    assert(v@ =~= encoding_label(i as int));
                    return RawString { content: text, encoding: string_from_chars(v.as_slice()) };
                },
                None => {},
            }
            i = i + 1;
        }
        let mut v: Vec<char> = Vec::new();
        push_str(&mut v, labels[0]);
        RawString { content: utf8_lossy(data), encoding: string_from_chars(v.as_slice()) }
    }

    /// Decodes the bytes before the first NUL.
    pub fn parse_zstring(data: &[u8]) -> (r: RawString)
        ensures
            (r.content@, r.encoding@) == decode_from(data@.subrange(0, nul_position(data@)), 0),
    {
        let mut i: usize = 0;
        while i < data.len() && data[i] != 0
            invariant
                i <= data@.len(),
                forall|j: int| 0 <= j < i ==> data@[j] != 0,
            decreases data@.len() - i,
        {
            i = i + 1;
        }
        proof {
            if i < data@.len() {
                let c = choose|k: int| 0 <= k < data@.len() && data@[k] == 0 && forall|j: int| 0 <= j < k ==> data@[j] != 0;
                assert(c == i as int) by {
                    if c < i {
                    } else if c > i {
                        assert(data@[i as int] == 0);
                    }
                }
            }
        }
        RawString::decode(vstd::slice::slice_subrange(data, 0, i))
    }

    /// Decodes a string with a one-byte length prefix at `pos`, cut at its first NUL; returns it
    /// with the position after it, or `None` if the bytes are cut short.
    pub fn parse_bstring(data: &[u8], pos: usize) -> (r: Option<(RawString, usize)>)
        ensures
            match r {
                Some((s, next)) => pos < data@.len() && next == pos + 1 + data@[pos as int] && next <= data@.len()
                    && (s.content@, s.encoding@) == decode_from(
                        data@.subrange(pos + 1, next as int).subrange(0, nul_position(data@.subrange(pos + 1, next as int))), 0),
                None => pos >= data@.len() || pos + 1 + data@[pos as int] > data@.len(),
            },
    {
        let n = match read_u8(data, pos) {
            Some(n) => n,
            None => return None,
        };
        if data.len() - pos - 1 < n as usize {
            return None;
        }
        let next = pos + 1 + n as usize;
        let s = RawString::parse_zstring(vstd::slice::slice_subrange(data, pos + 1, next));
        Some((s, next))
    }
}

} // verus!
