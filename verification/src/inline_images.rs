//! Images carried as base64 text: the thumbnail that a thumbnail task hands back for
//! storage, and the PNG preview that comes with a drag request as a data URL.

use vstd::prelude::*;

verus! {

#[verifier::external_type_specification]
#[verifier::external_body]
pub struct ExDecodeError(base64::DecodeError);

/// The character of the 6-bit value `v` in the standard base64 alphabet.
pub open spec fn base64_char(v: int) -> char {
    if v < 26 {
        ('A' as int + v) as char
    } else if v < 52 {
        ('a' as int + (v - 26)) as char
    } else if v < 62 {
        ('0' as int + (v - 52)) as char
    } else if v == 62 {
        '+'
    } else {
        '/'
    }
}

/// The standard (RFC 4648 alphabet, padded) base64 text of `bytes`: each group of three
/// bytes becomes four characters of six bits each; a last group of one or two bytes is
/// filled with zero bits and padded with `=` to four characters.
pub open spec fn standard_base64(bytes: Seq<u8>) -> Seq<char>
    decreases bytes.len(),
{
    if bytes.len() == 0 {
        Seq::empty()
    } else if bytes.len() == 1 {
        let a = bytes[0] as int;
        seq![base64_char(a / 4), base64_char((a % 4) * 16), '=', '=']
    } else if bytes.len() == 2 {
        let a = bytes[0] as int;
        let b = bytes[1] as int;
        seq![base64_char(a / 4), base64_char((a % 4) * 16 + b / 16), base64_char((b % 16) * 4), '=']
    } else {
        let a = bytes[0] as int;
        let b = bytes[1] as int;
        let c = bytes[2] as int;
        seq![base64_char(a / 4), base64_char((a % 4) * 16 + b / 16), base64_char((b % 16) * 4 + c / 64), base64_char(c % 64)]
            + standard_base64(bytes.skip(3))
    }
}


proof fn lemma_base64_char(v: int, w: int)
    requires
        0 <= v < 64,
        0 <= w < 64,
    ensures
        base64_char(v) != '=',
        base64_char(v) == base64_char(w) ==> v == w,
{
    assert(('A' as int) == 65);
    assert(('a' as int) == 97);
    assert(('0' as int) == 48);
}

proof fn lemma_group_bytes(a1: u8, b1: u8, c1: u8, a2: u8, b2: u8, c2: u8)
    requires
        a1 / 4 == a2 / 4,
        (a1 % 4) * 16 + b1 / 16 == (a2 % 4) * 16 + b2 / 16,
        (b1 % 16) * 4 + c1 / 64 == (b2 % 16) * 4 + c2 / 64,
        c1 % 64 == c2 % 64,
    ensures
        a1 == a2 && b1 == b2 && c1 == c2,
{
    assert(a1 / 4 == a2 / 4 && (a1 % 4) * 16 + b1 / 16 == (a2 % 4) * 16 + b2 / 16 && (b1 % 16) * 4 + c1 / 64 == (b2 % 16) * 4 + c2 / 64 && c1 % 64 == c2 % 64 ==> a1 == a2 && b1 == b2 && c1 == c2) by (bit_vector);
}

proof fn lemma_base64_shape(x: Seq<u8>)
    ensures
        x.len() == 0 ==> standard_base64(x).len() == 0,
        x.len() > 0 ==> standard_base64(x).len() >= 4,
        x.len() == 1 ==> standard_base64(x).len() == 4 && standard_base64(x)[2] == '=' && standard_base64(x)[3] == '=',
        x.len() == 2 ==> standard_base64(x).len() == 4 && standard_base64(x)[2] != '=' && standard_base64(x)[3] == '=',
        x.len() >= 3 ==> standard_base64(x)[2] != '=' && standard_base64(x)[3] != '='
            && standard_base64(x).skip(4) == standard_base64(x.skip(3)),
{
    let t = standard_base64(x);
    if x.len() == 2 {
        let a = x[0] as int;
        let b = x[1] as int;
        lemma_base64_char((b % 16) * 4, 0);
    } else if x.len() >= 3 {
        let a = x[0] as int;
        let b = x[1] as int;
        let c = x[2] as int;
        lemma_base64_char((b % 16) * 4 + c / 64, 0);
        lemma_base64_char(c % 64, 0);
        let g = seq![base64_char(a / 4), base64_char((a % 4) * 16 + b / 16), base64_char((b % 16) * 4 + c / 64), base64_char(c % 64)];
        assert(t == g + standard_base64(x.skip(3)));
        assert(t.skip(4) =~= standard_base64(x.skip(3)));
    }
}

/// Different bytes have different standard base64 texts.
proof fn lemma_base64_injective(x: Seq<u8>, y: Seq<u8>)
    requires
        standard_base64(x) == standard_base64(y),
    ensures
        x == y,
    decreases x.len(),
{
    let t = standard_base64(x);
    lemma_base64_shape(x);
    lemma_base64_shape(y);
    if x.len() == 0 {
        assert(y.len() == 0);
        assert(x =~= y);
    } else if x.len() == 1 {
        assert(y.len() == 1);
        let (a1, a2) = (x[0] as int, y[0] as int);
        assert(t[0] == base64_char(a1 / 4) && t[0] == base64_char(a2 / 4));
        assert(t[1] == base64_char((a1 % 4) * 16) && t[1] == base64_char((a2 % 4) * 16));
        lemma_base64_char(a1 / 4, a2 / 4);
        lemma_base64_char((a1 % 4) * 16, (a2 % 4) * 16);
        lemma_group_bytes(x[0], 0, 0, y[0], 0, 0);
        assert(x =~= y);
    } else if x.len() == 2 {
        assert(y.len() == 2);
        let (a1, b1, a2, b2) = (x[0] as int, x[1] as int, y[0] as int, y[1] as int);
        assert(t[0] == base64_char(a1 / 4) && t[0] == base64_char(a2 / 4));
        assert(t[1] == base64_char((a1 % 4) * 16 + b1 / 16) && t[1] == base64_char((a2 % 4) * 16 + b2 / 16));
        assert(t[2] == base64_char((b1 % 16) * 4) && t[2] == base64_char((b2 % 16) * 4));
        lemma_base64_char(a1 / 4, a2 / 4);
        lemma_base64_char((a1 % 4) * 16 + b1 / 16, (a2 % 4) * 16 + b2 / 16);
        lemma_base64_char((b1 % 16) * 4, (b2 % 16) * 4);
        lemma_group_bytes(x[0], x[1], 0, y[0], y[1], 0);
        assert(x =~= y);
    } else {
        assert(y.len() >= 3);
        let (a1, b1, c1) = (x[0] as int, x[1] as int, x[2] as int);
        let (a2, b2, c2) = (y[0] as int, y[1] as int, y[2] as int);
        assert(t[0] == base64_char(a1 / 4) && t[0] == base64_char(a2 / 4));
        assert(t[1] == base64_char((a1 % 4) * 16 + b1 / 16) && t[1] == base64_char((a2 % 4) * 16 + b2 / 16));
        assert(t[2] == base64_char((b1 % 16) * 4 + c1 / 64) && t[2] == base64_char((b2 % 16) * 4 + c2 / 64));
        assert(t[3] == base64_char(c1 % 64) && t[3] == base64_char(c2 % 64));
        lemma_base64_char(a1 / 4, a2 / 4);
        lemma_base64_char((a1 % 4) * 16 + b1 / 16, (a2 % 4) * 16 + b2 / 16);
        lemma_base64_char((b1 % 16) * 4 + c1 / 64, (b2 % 16) * 4 + c2 / 64);
        lemma_base64_char(c1 % 64, c2 % 64);
        lemma_group_bytes(x[0], x[1], x[2], y[0], y[1], y[2]);
        lemma_base64_injective(x.skip(3), y.skip(3));
        assert(x =~= x.take(3) + x.skip(3));
        assert(y =~= y.take(3) + y.skip(3));
        assert(x.take(3) =~= y.take(3));
    }
}

/// The bytes that `text` stands for as standard padded base64: those whose text it is
/// (there is at most one, `lemma_base64_injective`); `None` when `text` is not the
/// canonical standard base64 text of any bytes.
pub open spec fn standard_base64_decoded(text: Seq<char>) -> Option<Seq<u8>> {
    if exists|b: Seq<u8>| #[trigger] standard_base64(b) == text {
        Some(choose|b: Seq<u8>| #[trigger] standard_base64(b) == text)
    } else {
        None
    }
}

/// Decoding the text of `bytes` gives `bytes` back.
pub proof fn lemma_decode_of_encode(bytes: Seq<u8>)
    ensures
        standard_base64_decoded(standard_base64(bytes)) == Some(bytes),
{
    let t = standard_base64(bytes);
    assert(exists|b: Seq<u8>| #[trigger] standard_base64(b) == t);
    let c = choose|b: Seq<u8>| #[trigger] standard_base64(b) == t;
    lemma_base64_injective(c, bytes);
}

/// The text of `n` bytes is `base64_len(n)` characters long.
pub proof fn lemma_base64_length(x: Seq<u8>)
    ensures
        standard_base64(x).len() == base64_len(x.len()),
    decreases x.len(),
{
    lemma_base64_shape(x);
    if x.len() >= 3 {
        lemma_base64_length(x.skip(3));
        assert(standard_base64(x).len() == 4 + standard_base64(x).skip(4).len());
    }
}

/// Length of the padded base64 text of `n` bytes: four characters per started group of three.
pub open spec fn base64_len(n: nat) -> nat {
    4 * ((n + 2) / 3)
}

/// `base64::engine::general_purpose::STANDARD.encode`. Claimed: the text is
/// `standard_base64(bytes)`, the padded standard encoding. The crate panics when the
/// output length (`base64_len`) overflows `usize`, which `requires` rules out.
#[verifier::external_body]
fn encode_standard(bytes: &[u8]) -> (text: String)
    requires
        base64_len(bytes@.len()) <= usize::MAX,
    ensures
        text@ == standard_base64(bytes@),
{
    base64::Engine::encode(&base64::engine::general_purpose::STANDARD, bytes)
}

/// `base64::engine::general_purpose::STANDARD.decode`. Claimed: it succeeds exactly when
/// `text` is the padded standard encoding of some bytes (`standard_base64_decoded` is
/// `Some`: the engine accepts only canonical padded text with no trailing bits), and
/// then returns those bytes.
#[verifier::external_body]
fn decode_standard(text: &str) -> (r: Result<Vec<u8>, base64::DecodeError>)
    ensures
        match standard_base64_decoded(text@) {
            Some(b) => r matches Ok(v) && v@ == b,
            None => r is Err,
        },
{
    base64::Engine::decode(&base64::engine::general_purpose::STANDARD, text)
}

/// The `Display` text of a `base64::DecodeError`. The error value is opaque here, so
/// nothing is claimed of the text.
#[verifier::external_body]
fn decode_error_message(e: &base64::DecodeError) -> (m: String) {
    e.to_string()
}

/// What a thumbnail task hands back: the thumbnail as base64 text, and the size of the
/// source image.
pub struct ThumbnailOutput {
    pub thumbnail: String,
    pub width: u32,
    pub height: u32,
}

/// Start of the error message when a stored thumbnail does not decode.
pub open spec fn thumbnail_error_prefix() -> Seq<char> {
    seq!['F', 'a', 'i', 'l', 'e', 'd', ' ', 't', 'o', ' ', 'd', 'e', 'c', 'o', 'd', 'e', ' ',
        't', 'h', 'u', 'm', 'b', 'n', 'a', 'i', 'l', ':', ' ']
}

/// Start of the error message when a drag preview does not decode.
pub open spec fn drag_image_error_prefix() -> Seq<char> {
    seq!['B', 'a', 'd', ' ', 'd', 'r', 'a', 'g', ' ', 'i', 'm', 'a', 'g', 'e', ':', ' ']
}

/// The prefix of a PNG data URL carrying base64 data.
pub open spec fn png_data_url_prefix() -> Seq<char> {
    seq!['d', 'a', 't', 'a', ':', 'i', 'm', 'a', 'g', 'e', '/', 'p', 'n', 'g', ';',
        'b', 'a', 's', 'e', '6', '4', ',']
}

/// `m` is an error message that starts with `prefix`.
pub open spec fn starts_with(m: Seq<char>, prefix: Seq<char>) -> bool {
    m.len() >= prefix.len() && m.subrange(0, prefix.len() as int) == prefix
}

/// The base64 part of a drag preview: what follows the PNG data-URL prefix, if the
/// preview is there and has that prefix.
pub open spec fn png_payload(image: Option<&str>) -> Option<Seq<char>> {
    match image {
        Some(s) => if starts_with(s@, png_data_url_prefix()) {
            Some(s@.subrange(png_data_url_prefix().len() as int, s@.len() as int))
        } else {
            None
        },
        None => None,
    }
}

/// The record a thumbnail task returns for `data`, the encoded thumbnail of an image of
/// `width` by `height` pixels. Its text decodes back to `data`, so what is stored later is
/// the thumbnail that was made.
pub fn thumbnail_output(data: &[u8], width: u32, height: u32) -> (r: ThumbnailOutput)
    requires
        base64_len(data@.len()) <= usize::MAX,
    ensures
        r.thumbnail@ == standard_base64(data@),
        r.width == width,
        r.height == height,
        standard_base64_decoded(r.thumbnail@) == Some(data@),
        thumbnail_to_store(Some(r.thumbnail@)) == Ok::<Option<Seq<u8>>, ()>(Some(data@)),
{
    let thumbnail = encode_standard(data);
    proof {
        lemma_decode_of_encode(data@);
    }
    ThumbnailOutput { thumbnail, width, height }
}

/// The characters of an optional string.
pub open spec fn text_of(field: Option<&str>) -> Option<Seq<char>> {
    match field {
        Some(t) => Some(t@),
        None => None,
    }
}

/// What `store_thumbnail` does with the `thumbnail` field of a task's output: nothing to
/// store without the field, the decoded bytes when it decodes, an error otherwise.
pub open spec fn thumbnail_to_store(field: Option<Seq<char>>) -> Result<Option<Seq<u8>>, ()> {
    match field {
        None => Ok(None),
        Some(t) => match standard_base64_decoded(t) {
            Some(b) => Ok(Some(b)),
            None => Err(()),
        },
    }
}

/// The thumbnail bytes to store from the `thumbnail` field of a thumbnail task's output:
/// `Ok(None)` when the field is missing, the decoded bytes when it is valid base64, and an
/// error starting "Failed to decode thumbnail: " otherwise.
pub fn store_thumbnail(field: Option<&str>) -> (r: Result<Option<Vec<u8>>, String>)
    ensures
        match thumbnail_to_store(text_of(field)) {
            Ok(None) => r matches Ok(None),
            Ok(Some(b)) => r matches Ok(Some(v)) && v@ == b,
            Err(()) => r matches Err(m) && starts_with(m@, thumbnail_error_prefix()),
        },
{
    match field {
        None => Ok(None),
        Some(t) => match decode_standard(t) {
            Ok(v) => Ok(Some(v)),
            Err(e) => {
                let prefix = "Failed to decode thumbnail: ";
                proof {
                    reveal_strlit("Failed to decode thumbnail: ");
                }
                let detail = decode_error_message(&e);
                let m = String::from_str(prefix).concat(detail.as_str());
                proof {
                    assert(m@.subrange(0, prefix@.len() as int) =~= prefix@);
                    assert(prefix@ =~= thumbnail_error_prefix());
                }
                Err(m)
            },
        },
    }
}

/// Whether `s` starts with the characters of `prefix`.
fn has_prefix(s: &str, prefix: &[char]) -> (r: bool)
    ensures
        r == starts_with(s@, prefix@),
{
    let n = s.unicode_len();
    if n < prefix.len() {
        return false;
    }
    let mut i: usize = 0;
    while i < prefix.len()
        invariant
            n == s@.len(),
            prefix@.len() <= n,
            i <= prefix@.len(),
            s@.subrange(0, i as int) == prefix@.subrange(0, i as int),
        decreases prefix@.len() - i,
    {
        if s.get_char(i) != prefix[i] {
            assert(s@.subrange(0, prefix@.len() as int)[i as int] != prefix@[i as int]);
            return false;
        }
        assert(s@.subrange(0, i + 1) =~= s@.subrange(0, i as int).push(s@[i as int]));
        assert(prefix@.subrange(0, i + 1) =~= prefix@.subrange(0, i as int).push(prefix@[i as int]));
        i = i + 1;
    }
    assert(prefix@.subrange(0, i as int) =~= prefix@);
    true
}

/// The preview image bytes of a drag request. A preview given as a PNG data URL
/// (`data:image/png;base64,...`) is decoded; a missing preview, or one in any other form,
/// gives no bytes, and the OS shows its default. Data that does not decode is an error
/// starting "Bad drag image: ".
pub fn drag_preview_image(image: Option<&str>) -> (r: Result<Vec<u8>, String>)
    ensures
        match png_payload(image) {
            None => r matches Ok(v) && v@.len() == 0,
            Some(p) => match standard_base64_decoded(p) {
                Some(b) => r matches Ok(v) && v@ == b,
                None => r matches Err(m) && starts_with(m@, drag_image_error_prefix()),
            },
        },
{
    let prefix = ['d', 'a', 't', 'a', ':', 'i', 'm', 'a', 'g', 'e', '/', 'p', 'n', 'g', ';',
        'b', 'a', 's', 'e', '6', '4', ','];
    proof {
        assert(prefix@ == png_data_url_prefix());
    }
    match image {
        None => Ok(Vec::new()),
        Some(s) => {
            if !has_prefix(s, prefix.as_slice()) {
                return Ok(Vec::new());
            }
            let data = s.substring_char(prefix.len(), s.unicode_len());
            match decode_standard(data) {
                Ok(v) => Ok(v),
                Err(e) => {
                    let lead = "Bad drag image: ";
                    proof {
                        reveal_strlit("Bad drag image: ");
                    }
                    let detail = decode_error_message(&e);
                    let m = String::from_str(lead).concat(detail.as_str());
                    proof {
                        assert(m@.subrange(0, lead@.len() as int) =~= lead@);
                        assert(lead@ =~= drag_image_error_prefix());
                    }
                    Err(m)
                },
            }
        },
    }
}

} // verus!
