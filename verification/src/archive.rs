//! Reading entries out of ZIP archives held in memory, through nested archives.

use vstd::prelude::*;
use crate::text::{first_zip_boundary, last_zip_boundary, find_first_zip_sep, find_last_zip_sep, zip_sep_at, no_zip_sep_in,
    lemma_first_zip_boundary, lemma_last_zip_boundary, lemma_first_zip_boundary_at, lemma_last_zip_boundary_at,
    lemma_zip_sep_in_part};
use vstd::utf8::{decode_utf8, encode_utf8};
use vstd::string::StringSliceAdditionalSpecFns;

verus! {

/// The text that valid UTF-8 `bytes` encode.
#[verifier::opaque]
pub open spec fn utf8_text(bytes: Seq<u8>) -> Seq<char> {
    decode_utf8(bytes)
}

/// The decompressed bytes of the entry called `name` in the ZIP archive `archive`;
/// `None` when the archive cannot be read, has no such entry, or the entry cannot be
/// decompressed.
pub uninterp spec fn zip_entry_content(archive: Seq<u8>, name: Seq<char>) -> Option<Seq<u8>>;

/// Reads one entry of an in-memory archive with the `zip` crate
/// (`ZipArchive::new` over a cursor, `ZipArchive::by_name`, then reading the entry to its
/// end). Claimed: it succeeds exactly when `zip_entry_content` is `Some`, and then returns
/// those bytes. The error text is the crate's and is not described.
#[verifier::external_body]
pub(crate) fn read_zip_entry(archive: &[u8], name: &str) -> (r: Result<Vec<u8>, String>)
    ensures
        match zip_entry_content(archive@, name@) {
            Some(c) => r matches Ok(v) && v@ == c,
            None => r is Err,
        },
{
    let mut zip = zip::ZipArchive::new(std::io::Cursor::new(archive))
        .map_err(|e| format!("Failed to open zip archive: {}", e))?;
    let mut entry = zip.by_name(name).map_err(|e| format!("Failed to find {}: {}", name, e))?;
    let mut bytes = Vec::new();
    std::io::Read::read_to_end(&mut entry, &mut bytes)
        .map_err(|e| format!("Failed to read {}: {}", name, e))?;
    Ok(bytes)
}

/// The bytes of the entry at `path` inside `archive`, where every `.zip/` in `path`
/// descends into the nested archive named by the part before it.
pub open spec fn nested_entry_content(archive: Seq<u8>, path: Seq<u8>) -> Option<Seq<u8>>
    decreases path.len(),
{
    match first_zip_boundary(path) {
        Some(b) => if 0 < b < path.len() {
            match zip_entry_content(archive, utf8_text(path.subrange(0, b))) {
                Some(inner) => nested_entry_content(inner, path.subrange(b + 1, path.len() as int)),
                None => None,
            }
        } else {
            None
        },
        None => zip_entry_content(archive, utf8_text(path)),
    }
}

/// In valid UTF-8, the position after an ASCII byte that starts a character is again
/// the start of a character.
proof fn lemma_boundary_after_ascii(bytes: Seq<u8>, i: int)
    requires
        vstd::utf8::valid_utf8(bytes),
        vstd::utf8::is_char_boundary(bytes, i),
        0 <= i < bytes.len(),
        bytes[i] < 128,
    ensures
        vstd::utf8::is_char_boundary(bytes, i + 1),
    decreases bytes.len(),
{
    let pop = vstd::utf8::pop_first_scalar(bytes);
    let l = vstd::utf8::length_of_first_scalar(bytes);
    if i == 0 {
        assert(l == 1);
        assert(vstd::utf8::is_char_boundary(pop, 0));
    } else {
        assert(vstd::utf8::is_char_boundary(pop, i - l));
        assert(pop[i - l] == bytes[i]);
        lemma_boundary_after_ascii(pop, i - l);
        assert(vstd::utf8::is_char_boundary(pop, i + 1 - l));
    }
}

/// Splits `path` right after an ASCII character at byte position `at - 1`.
pub fn split_str_after_ascii(path: &str, at: usize) -> (r: (&str, &str))
    requires
        0 < at <= path.spec_bytes().len(),
        path.spec_bytes()[at - 1] < 128,
        vstd::utf8::is_char_boundary(path.spec_bytes(), at - 1),
    ensures
        r.0.spec_bytes() == path.spec_bytes().subrange(0, at as int),
        r.1.spec_bytes() == path.spec_bytes().subrange(at as int, path.spec_bytes().len() as int),
        r.0@ == utf8_text(path.spec_bytes().subrange(0, at as int)),
        r.1@ == utf8_text(path.spec_bytes().subrange(at as int, path.spec_bytes().len() as int)),
{
    proof {
        vstd::utf8::encode_utf8_valid_utf8(path@);
        lemma_boundary_after_ascii(path.spec_bytes(), at - 1);
    }
    let r = path.split_at(at);
    proof {
        vstd::utf8::encode_utf8_decode_utf8(r.0@);
        vstd::utf8::encode_utf8_decode_utf8(r.1@);
        reveal(utf8_text);
    }
    r
}

/// Splits `path` at a byte position that holds an ASCII byte.
pub fn split_str_at_ascii(path: &str, at: usize) -> (r: (&str, &str))
    requires
        at < path.spec_bytes().len(),
        path.spec_bytes()[at as int] < 128,
    ensures
        r.0.spec_bytes() == path.spec_bytes().subrange(0, at as int),
        r.1.spec_bytes() == path.spec_bytes().subrange(at as int, path.spec_bytes().len() as int),
        r.0@ == utf8_text(path.spec_bytes().subrange(0, at as int)),
        r.1@ == utf8_text(path.spec_bytes().subrange(at as int, path.spec_bytes().len() as int)),
{
    proof {
        vstd::utf8::encode_utf8_valid_utf8(path@);
        vstd::utf8::is_char_boundary_iff_not_is_continuation_byte(path.spec_bytes(), at as int);
        vstd::utf8::utf8_byte_ranges_bitwise(path.spec_bytes()[at as int]);
    }
    let r = path.split_at(at);
    proof {
        vstd::utf8::encode_utf8_decode_utf8(r.0@);
        vstd::utf8::encode_utf8_decode_utf8(r.1@);
        reveal(utf8_text);
    }
    r
}

/// Splits `path` around the `.zip/` whose `.zip` ends at byte `b`: the part before
/// the `/` and the part after it.
pub fn split_around_zip_sep(path: &str, b: usize) -> (r: (&str, &str))
    requires
        b >= 4,
        zip_sep_at(path.spec_bytes(), b - 4),
    ensures
        r.0.spec_bytes() == path.spec_bytes().subrange(0, b as int),
        r.1.spec_bytes() == path.spec_bytes().subrange(b + 1, path.spec_bytes().len() as int),
        r.0@ == utf8_text(path.spec_bytes().subrange(0, b as int)),
        r.1@ == utf8_text(path.spec_bytes().subrange(b + 1, path.spec_bytes().len() as int)),
{
    let n = path.as_bytes().len();
    proof {
        vstd::utf8::encode_utf8_valid_utf8(path@);
        vstd::utf8::is_char_boundary_iff_not_is_continuation_byte(path.spec_bytes(), b as int);
        vstd::utf8::utf8_byte_ranges_bitwise(path.spec_bytes()[b as int]);
    }
    let (head, _) = split_str_at_ascii(path, b);
    let (_, tail) = split_str_after_ascii(path, b + 1);
    (head, tail)
}

/// The part before the first `.zip/` boundary and the part after its `/`.
pub fn split_at_first_zip(path: &str) -> (r: Option<(&str, &str)>)
    ensures
        match first_zip_boundary(path.spec_bytes()) {
            Some(b) => 0 < b < path.spec_bytes().len() && (r matches Some(pair) && pair.0.spec_bytes() == path.spec_bytes().subrange(0, b)
                && pair.1.spec_bytes() == path.spec_bytes().subrange(b + 1, path.spec_bytes().len() as int)
                && pair.0@ == utf8_text(path.spec_bytes().subrange(0, b))
                && pair.1@ == utf8_text(path.spec_bytes().subrange(b + 1, path.spec_bytes().len() as int))),
            None => r is None,
        },
{
    match find_first_zip_sep(path.as_bytes()) {
        None => None,
        Some(b) => Some(split_around_zip_sep(path, b)),
    }
}

/// The part before the last `.zip/` boundary and the part after its `/`.
pub fn split_at_last_zip(path: &str) -> (r: Option<(&str, &str)>)
    ensures
        match last_zip_boundary(path.spec_bytes()) {
            Some(b) => 0 < b < path.spec_bytes().len() && (r matches Some(pair) && pair.0.spec_bytes() == path.spec_bytes().subrange(0, b)
                && pair.1.spec_bytes() == path.spec_bytes().subrange(b + 1, path.spec_bytes().len() as int)
                && pair.0@ == utf8_text(path.spec_bytes().subrange(0, b))
                && pair.1@ == utf8_text(path.spec_bytes().subrange(b + 1, path.spec_bytes().len() as int))),
            None => r is None,
        },
{
    match find_last_zip_sep(path.as_bytes()) {
        None => None,
        Some(b) => Some(split_around_zip_sep(path, b)),
    }
}

/// Reads the entry at `path` from the archive in `archive`, opening each nested
/// archive named before a `.zip/` in memory.
pub fn read_nested_entry(archive: &[u8], path: &str) -> (r: Result<Vec<u8>, String>)
    ensures
        match nested_entry_content(archive@, path.spec_bytes()) {
            Some(c) => r matches Ok(v) && v@ == c,
            None => r is Err,
        },
    decreases path.spec_bytes().len(),
{
    let split = split_at_first_zip(path);
    match split {
        Some((nested, rest)) => {
            let ghost b = first_zip_boundary(path.spec_bytes())->0;
            proof {
                assert(0 < b < path.spec_bytes().len());
                assert(rest.spec_bytes().len() < path.spec_bytes().len());
            }
            let inner = read_zip_entry(archive, nested);
            match inner {
                Ok(inner) => {
                    let ghost iv = inner@;
                    let r = read_nested_entry(inner.as_slice(), rest);
                    proof {
                        assert(match nested_entry_content(iv, rest.spec_bytes()) {
                            Some(c) => r matches Ok(v) && v@ == c,
                            None => r is Err,
                        });
                        assert(zip_entry_content(archive@, nested@) == Some(iv));
                        assert(nested_entry_content(archive@, path.spec_bytes())
                            == nested_entry_content(iv, rest.spec_bytes()));
                    }
                    r
                },
                Err(e) => {
                    proof {
                        assert(zip_entry_content(archive@, nested@) is None);
                        assert(nested_entry_content(archive@, path.spec_bytes()) is None);
                    }
                    Err(e)
                },
            }
        },
        None => {
            proof {
                vstd::utf8::encode_utf8_decode_utf8(path@);
                reveal(utf8_text);
                assert(utf8_text(path.spec_bytes()) == path@);
            }
            read_zip_entry(archive, path)
        },
    }
}

/// Two `.zip/` never start within four bytes of each other: the second would have to
/// start on the first one's `z`, `i`, `p` or `/`.
proof fn lemma_seps_apart(bytes: Seq<u8>, a: int, b: int)
    requires
        zip_sep_at(bytes, a),
        zip_sep_at(bytes, b),
        a < b,
    ensures
        a + 5 <= b,
{
    if b <= a + 4 {
        assert(bytes[b] == 46u8);
    }
}

/// Reading an entry through its deepest nested archive gives what reading it archive by
/// archive gives: the path up to its last `.zip/` names the nested archive, and the rest
/// names the entry in it.
pub proof fn law_read_through_deepest_archive(outer: Seq<u8>, path: Seq<u8>)
    requires
        last_zip_boundary(path) is Some,
    ensures
        ({
            let l = last_zip_boundary(path)->0;
            &&& 0 < l < path.len()
            &&& nested_entry_content(outer, path) == match nested_entry_content(outer, path.subrange(0, l)) {
                Some(inner) => zip_entry_content(inner, utf8_text(path.subrange(l + 1, path.len() as int))),
                None => None,
            }
        }),
    decreases path.len(),
{
    lemma_last_zip_boundary(path);
    lemma_first_zip_boundary(path);
    let n = path.len() as int;
    let l = last_zip_boundary(path)->0;
    let f = first_zip_boundary(path)->0;
    assert(f <= l) by {
        if f > l {
            assert(!zip_sep_at(path, l - 4));
        }
    }
    let head = path.subrange(0, l);
    let rest = path.subrange(l + 1, n);
    // the part after the last `.zip/` holds none
    assert(no_zip_sep_in(rest, 0, rest.len() as int)) by {
        assert forall|i: int| 0 <= i < rest.len() implies !#[trigger] zip_sep_at(rest, i) by {
            if i + 5 <= rest.len() {
                lemma_zip_sep_in_part(path, l + 1, n, i);
            }
        }
    }
    lemma_first_zip_boundary(rest);
    if f == l {
        // the head holds no `.zip/`: one would start before the first
        assert(no_zip_sep_in(head, 0, head.len() as int)) by {
            assert forall|i: int| 0 <= i < head.len() implies !#[trigger] zip_sep_at(head, i) by {
                if i + 5 <= head.len() {
                    lemma_zip_sep_in_part(path, 0, l, i);
                }
            }
        }
        lemma_first_zip_boundary(head);
        assert(path.subrange(0, f) == head);
        assert(first_zip_boundary(head) is None);
        assert(nested_entry_content(outer, head) == zip_entry_content(outer, utf8_text(head)));
        assert(first_zip_boundary(rest) is None);
        assert(path.subrange(f + 1, n) == rest);
        match zip_entry_content(outer, utf8_text(head)) {
            Some(inner) => {
                assert(nested_entry_content(inner, rest) == zip_entry_content(inner, utf8_text(rest)));
                assert(nested_entry_content(outer, path) == nested_entry_content(inner, rest));
            },
            None => {
                assert(nested_entry_content(outer, path) is None);
            },
        }
    } else {
        lemma_seps_apart(path, f - 4, l - 4);
        let q = path.subrange(f + 1, n);
        let lq = l - f - 1;
        // in `q` the last `.zip/` is the path's last one
        lemma_zip_sep_in_part(path, f + 1, n, lq - 4);
        assert(no_zip_sep_in(q, lq - 3, q.len() as int)) by {
            assert forall|i: int| lq - 3 <= i < q.len() implies !#[trigger] zip_sep_at(q, i) by {
                if i + 5 <= q.len() {
                    lemma_zip_sep_in_part(path, f + 1, n, i);
                }
            }
        }
        lemma_last_zip_boundary_at(q, lq - 4);
        assert(q.subrange(lq + 1, q.len() as int) =~= rest);
        // in the head the first `.zip/` is the path's first one
        lemma_zip_sep_in_part(path, 0, l, f - 4);
        assert(no_zip_sep_in(head, 0, f - 4)) by {
            assert forall|i: int| 0 <= i < f - 4 implies !#[trigger] zip_sep_at(head, i) by {
                lemma_zip_sep_in_part(path, 0, l, i);
            }
        }
        lemma_first_zip_boundary_at(head, f - 4);
        assert(head.subrange(0, f) =~= path.subrange(0, f));
        assert(head.subrange(f + 1, l) =~= q.subrange(0, lq));
        // both sides read the archive before the first `.zip/`, then go on inside it
        let a = zip_entry_content(outer, utf8_text(path.subrange(0, f)));
        assert(0 < f < head.len());
        assert(nested_entry_content(outer, head) == match a {
            Some(inner) => nested_entry_content(inner, head.subrange(f + 1, l)),
            None => None,
        });
        assert(nested_entry_content(outer, path) == match a {
            Some(inner) => nested_entry_content(inner, q),
            None => None,
        });
        match a {
            Some(inner) => {
                law_read_through_deepest_archive(inner, q);
            },
            None => {},
        }
    }
}

} // verus!
