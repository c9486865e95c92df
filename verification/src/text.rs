//! Character- and byte-level text helpers: ZIP path separators, byte order of strings,
//! white space, and searching for one text inside another.

use vstd::prelude::*;
use vstd::string::StringSliceAdditionalSpecFns;

verus! {

/// ASCII lowercase of one byte; every other byte is left as it is.
pub open spec fn ascii_lower(b: u8) -> u8 {
    if 65 <= b && b <= 90 {
        (b + 32) as u8
    } else {
        b
    }
}

/// Whether `.zip/` (the letters in any ASCII case) starts at byte `i` of `bytes`.
pub open spec fn zip_sep_at(bytes: Seq<u8>, i: int) -> bool {
    &&& 0 <= i
    &&& i + 5 <= bytes.len()
    &&& bytes[i] == 46u8
    &&& ascii_lower(bytes[i + 1]) == 122u8
    &&& ascii_lower(bytes[i + 2]) == 105u8
    &&& ascii_lower(bytes[i + 3]) == 112u8
    &&& bytes[i + 4] == 47u8
}

/// No `.zip/` starts at any byte position in `lo .. hi`.
pub open spec fn no_zip_sep_in(bytes: Seq<u8>, lo: int, hi: int) -> bool {
    forall|i: int| lo <= i < hi ==> !#[trigger] zip_sep_at(bytes, i)
}

/// Byte position just after the `.zip` of the first `.zip/` in `bytes`.
#[verifier::opaque]
pub open spec fn first_zip_boundary(bytes: Seq<u8>) -> Option<int> {
    if exists|i: int| #[trigger] zip_sep_at(bytes, i) {
        let i = choose|i: int| zip_sep_at(bytes, i) && no_zip_sep_in(bytes, 0, i);
        Some(i + 4)
    } else {
        None
    }
}

/// Byte position just after the `.zip` of the last `.zip/` in `bytes`.
#[verifier::opaque]
pub open spec fn last_zip_boundary(bytes: Seq<u8>) -> Option<int> {
    if exists|i: int| #[trigger] zip_sep_at(bytes, i) {
        let i = choose|i: int| zip_sep_at(bytes, i) && no_zip_sep_in(bytes, i + 1, bytes.len() as int);
        Some(i + 4)
    } else {
        None
    }
}

/// Some `.zip/` at or before `k` has none before it.
proof fn lemma_first_sep_exists(bytes: Seq<u8>, k: int)
    requires
        zip_sep_at(bytes, k),
    ensures
        exists|i: int| zip_sep_at(bytes, i) && no_zip_sep_in(bytes, 0, i),
    decreases k,
{
    if !no_zip_sep_in(bytes, 0, k) {
        let j = choose|j: int| 0 <= j < k && #[trigger] zip_sep_at(bytes, j);
        lemma_first_sep_exists(bytes, j);
    }
}

/// Some `.zip/` at or after `k` has none after it.
proof fn lemma_last_sep_exists(bytes: Seq<u8>, k: int)
    requires
        zip_sep_at(bytes, k),
    ensures
        exists|i: int| zip_sep_at(bytes, i) && no_zip_sep_in(bytes, i + 1, bytes.len() as int),
    decreases bytes.len() - k,
{
    if !no_zip_sep_in(bytes, k + 1, bytes.len() as int) {
        let j = choose|j: int| k + 1 <= j < bytes.len() && #[trigger] zip_sep_at(bytes, j);
        lemma_last_sep_exists(bytes, j);
    }
}

/// The first boundary is just after the first `.zip`, and there is none only when no
/// `.zip/` occurs.
pub proof fn lemma_first_zip_boundary(bytes: Seq<u8>)
    ensures
        match first_zip_boundary(bytes) {
            Some(b) => b >= 4 && zip_sep_at(bytes, b - 4) && no_zip_sep_in(bytes, 0, b - 4),
            None => no_zip_sep_in(bytes, 0, bytes.len() as int),
        },
{
    reveal(first_zip_boundary);
    if exists|i: int| #[trigger] zip_sep_at(bytes, i) {
        let k = choose|i: int| #[trigger] zip_sep_at(bytes, i);
        lemma_first_sep_exists(bytes, k);
    }
}

/// The last boundary is just after the last `.zip`, and there is none only when no
/// `.zip/` occurs.
pub proof fn lemma_last_zip_boundary(bytes: Seq<u8>)
    ensures
        match last_zip_boundary(bytes) {
            Some(b) => b >= 4 && zip_sep_at(bytes, b - 4) && no_zip_sep_in(bytes, b - 3, bytes.len() as int),
            None => no_zip_sep_in(bytes, 0, bytes.len() as int),
        },
{
    reveal(last_zip_boundary);
    if exists|i: int| #[trigger] zip_sep_at(bytes, i) {
        let k = choose|i: int| #[trigger] zip_sep_at(bytes, i);
        lemma_last_sep_exists(bytes, k);
    }
}

/// A `.zip/` that is the first one gives the first boundary.
pub proof fn lemma_first_zip_boundary_at(bytes: Seq<u8>, i: int)
    requires
        zip_sep_at(bytes, i),
        no_zip_sep_in(bytes, 0, i),
    ensures
        first_zip_boundary(bytes) == Some(i + 4),
{
    lemma_first_zip_boundary(bytes);
    let b = first_zip_boundary(bytes)->0;
    if b - 4 < i {
        assert(!zip_sep_at(bytes, b - 4));
    } else if b - 4 > i {
        assert(!zip_sep_at(bytes, i));
    }
}

/// A `.zip/` that is the last one gives the last boundary.
pub proof fn lemma_last_zip_boundary_at(bytes: Seq<u8>, i: int)
    requires
        zip_sep_at(bytes, i),
        no_zip_sep_in(bytes, i + 1, bytes.len() as int),
    ensures
        last_zip_boundary(bytes) == Some(i + 4),
{
    lemma_last_zip_boundary(bytes);
    let b = last_zip_boundary(bytes)->0;
    if b - 4 < i {
        assert(!zip_sep_at(bytes, i));
    } else if b - 4 > i {
        assert(!zip_sep_at(bytes, b - 4));
    }
}

/// A `.zip/` lying within a part of the bytes is one of that part, and back.
pub proof fn lemma_zip_sep_in_part(bytes: Seq<u8>, lo: int, hi: int, i: int)
    requires
        0 <= lo <= hi <= bytes.len(),
        0 <= i,
        lo + i + 5 <= hi,
    ensures
        zip_sep_at(bytes.subrange(lo, hi), i) == zip_sep_at(bytes, lo + i),
{
    let part = bytes.subrange(lo, hi);
    assert(part[i] == bytes[lo + i]);
    assert(part[i + 1] == bytes[lo + i + 1]);
    assert(part[i + 2] == bytes[lo + i + 2]);
    assert(part[i + 3] == bytes[lo + i + 3]);
    assert(part[i + 4] == bytes[lo + i + 4]);
}

fn is_zip_sep_at(bytes: &[u8], i: usize) -> (r: bool)
    requires
        i + 5 <= bytes@.len(),
    ensures
        r == zip_sep_at(bytes@, i as int),
{
    let n = bytes.len();
    assert(i + 5 <= n);
    let b0 = bytes[i];
    let b1 = bytes[i + 1];
    let b2 = bytes[i + 2];
    let b3 = bytes[i + 3];
    let b4 = bytes[i + 4];
    b0 == 46 && (b1 == 122 || b1 == 90) && (b2 == 105 || b2 == 73) && (b3 == 112 || b3 == 80)
        && b4 == 47
}

/// Position after the `.zip` of the first `.zip/` (ASCII case-insensitive), if any.
pub fn find_first_zip_sep(bytes: &[u8]) -> (r: Option<usize>)
    ensures
        match r {
            Some(p) => p >= 4 && zip_sep_at(bytes@, p - 4) && no_zip_sep_in(bytes@, 0, p - 4),
            None => no_zip_sep_in(bytes@, 0, bytes@.len() as int),
        },
        r matches Some(p) ==> first_zip_boundary(bytes@) == Some(p as int),
        r is None ==> first_zip_boundary(bytes@) is None,
{
    proof {
        reveal(first_zip_boundary);
    }
    let n = bytes.len();
    if n < 5 {
        assert(no_zip_sep_in(bytes@, 0, bytes@.len() as int));
        return None;
    }
    let mut i: usize = 0;
    while i <= n - 5
        invariant
            n == bytes@.len(),
            n >= 5,
            i <= n - 4,
            no_zip_sep_in(bytes@, 0, i as int),
        decreases n - i,
    {
        if is_zip_sep_at(bytes, i) {
            proof {
                reveal(first_zip_boundary);
                assert(zip_sep_at(bytes@, i as int) && no_zip_sep_in(bytes@, 0, i as int));
                let j = choose|j: int| zip_sep_at(bytes@, j) && no_zip_sep_in(bytes@, 0, j);
                if j < i {
                    assert(!zip_sep_at(bytes@, j));
                } else if j > i {
                    assert(!zip_sep_at(bytes@, i as int));
                }
                assert(j == i);
                assert(first_zip_boundary(bytes@) == Some(i + 4));
            }
            return Some(i + 4);
        }
        i = i + 1;
    }
    assert(no_zip_sep_in(bytes@, 0, bytes@.len() as int));
    None
}

/// Position after the `.zip` of the last `.zip/` (ASCII case-insensitive), if any.
pub fn find_last_zip_sep(bytes: &[u8]) -> (r: Option<usize>)
    ensures
        match r {
            Some(p) => p >= 4 && zip_sep_at(bytes@, p - 4) && no_zip_sep_in(
                bytes@,
                p - 3,
                bytes@.len() as int,
            ),
            None => no_zip_sep_in(bytes@, 0, bytes@.len() as int),
        },
        r matches Some(p) ==> last_zip_boundary(bytes@) == Some(p as int),
        r is None ==> last_zip_boundary(bytes@) is None,
{
    proof {
        reveal(last_zip_boundary);
    }
    let n = bytes.len();
    if n < 5 {
        assert(no_zip_sep_in(bytes@, 0, bytes@.len() as int));
        return None;
    }
    let mut k: usize = n - 4;
    while k > 0
        invariant
            n == bytes@.len(),
            n >= 5,
            k <= n - 4,
            no_zip_sep_in(bytes@, k as int, n as int),
        decreases k,
    {
        let i = k - 1;
        if is_zip_sep_at(bytes, i) {
            proof {
                reveal(last_zip_boundary);
                assert(zip_sep_at(bytes@, i as int) && no_zip_sep_in(bytes@, i + 1, bytes@.len() as int));
                let j = choose|j: int|
                    zip_sep_at(bytes@, j) && no_zip_sep_in(bytes@, j + 1, bytes@.len() as int);
                if j < i {
                    assert(!zip_sep_at(bytes@, i as int));
                } else if j > i {
                    assert(!zip_sep_at(bytes@, j));
                }
                assert(j == i);
                assert(last_zip_boundary(bytes@) == Some(i + 4));
            }
            return Some(i + 4);
        }
        k = i;
    }
    None
}

/// The characters of `s`, in order.
pub fn chars_of(s: &str) -> (r: Vec<char>)
    ensures
        r@ == s@,
{
    let mut out: Vec<char> = Vec::new();
    for c in it: s.chars()
        invariant
            out@ == it.seq().take(it.index() as int),
    {
        out.push(c);
    }
    out
}

/// Whether two strings are equal, compared byte by byte.
pub fn str_eq(a: &str, b: &str) -> (r: bool)
    ensures
        r == (a@ == b@),
{
    let x = a.as_bytes();
    let y = b.as_bytes();
    proof {
        vstd::utf8::encode_utf8_decode_utf8(a@);
        vstd::utf8::encode_utf8_decode_utf8(b@);
    }
    if x.len() != y.len() {
        return false;
    }
    let mut i: usize = 0;
    while i < x.len()
        invariant
            x@.len() == y@.len(),
            x@ == a.spec_bytes(),
            y@ == b.spec_bytes(),
            i <= x@.len(),
            x@.subrange(0, i as int) == y@.subrange(0, i as int),
        decreases x@.len() - i,
    {
        if x[i] != y[i] {
            assert(x@[i as int] != y@[i as int]);
            return false;
        }
        assert(x@.subrange(0, i + 1) =~= x@.subrange(0, i as int).push(x@[i as int]));
        assert(y@.subrange(0, i + 1) =~= y@.subrange(0, i as int).push(y@[i as int]));
        i = i + 1;
    }
    assert(x@ =~= x@.subrange(0, i as int));
    assert(y@ =~= y@.subrange(0, i as int));
    true
}

/// Lexicographic order on byte strings, the order of `str` and `String`.
pub open spec fn bytes_lt(a: Seq<u8>, b: Seq<u8>) -> bool
    decreases a.len(),
{
    if a.len() == 0 {
        b.len() > 0
    } else if b.len() == 0 {
        false
    } else if a[0] != b[0] {
        a[0] < b[0]
    } else {
        bytes_lt(a.skip(1), b.skip(1))
    }
}

/// A common prefix does not change the order.
proof fn lemma_bytes_lt_skip(a: Seq<u8>, b: Seq<u8>, i: int)
    requires
        0 <= i <= a.len(),
        i <= b.len(),
        a.take(i) == b.take(i),
    ensures
        bytes_lt(a, b) == bytes_lt(a.skip(i), b.skip(i)),
    decreases i,
{
    if i > 0 {
        assert(a[0] == a.take(i)[0]);
        assert(b[0] == b.take(i)[0]);
        assert(a.skip(1).take(i - 1) =~= a.take(i).skip(1));
        assert(b.skip(1).take(i - 1) =~= b.take(i).skip(1));
        lemma_bytes_lt_skip(a.skip(1), b.skip(1), i - 1);
        assert(a.skip(1).skip(i - 1) =~= a.skip(i));
        assert(b.skip(1).skip(i - 1) =~= b.skip(i));
    } else {
        assert(a.skip(0) =~= a);
        assert(b.skip(0) =~= b);
    }
}

/// The order is asymmetric.
pub proof fn lemma_bytes_lt_asymmetric(a: Seq<u8>, b: Seq<u8>)
    ensures
        !(bytes_lt(a, b) && bytes_lt(b, a)),
    decreases a.len(),
{
    if a.len() > 0 && b.len() > 0 && a[0] == b[0] {
        lemma_bytes_lt_asymmetric(a.skip(1), b.skip(1));
    }
}

/// Of two different byte strings, one comes first.
pub proof fn lemma_bytes_lt_total(a: Seq<u8>, b: Seq<u8>)
    requires
        a != b,
    ensures
        bytes_lt(a, b) || bytes_lt(b, a),
    decreases a.len(),
{
    if a.len() == 0 {
        assert(b.len() > 0) by {
            if b.len() == 0 {
                assert(a =~= b);
            }
        }
    } else if b.len() > 0 && a[0] == b[0] {
        if a.skip(1) == b.skip(1) {
            assert(a =~= seq![a[0]] + a.skip(1));
            assert(b =~= seq![b[0]] + b.skip(1));
        }
        lemma_bytes_lt_total(a.skip(1), b.skip(1));
    }
}

/// The order is transitive.
pub proof fn lemma_bytes_lt_transitive(a: Seq<u8>, b: Seq<u8>, c: Seq<u8>)
    requires
        bytes_lt(a, b),
        bytes_lt(b, c),
    ensures
        bytes_lt(a, c),
    decreases a.len(),
{
    if a.len() > 0 && b.len() > 0 && c.len() > 0 && a[0] == b[0] && b[0] == c[0] {
        lemma_bytes_lt_transitive(a.skip(1), b.skip(1), c.skip(1));
    }
}

/// Whether `a` sorts before `b`, comparing their UTF-8 bytes as `str` does.
pub fn str_lt(a: &str, b: &str) -> (r: bool)
    ensures
        r == bytes_lt(a.spec_bytes(), b.spec_bytes()),
{
    let x = a.as_bytes();
    let y = b.as_bytes();
    let mut i: usize = 0;
    while i < x.len() && i < y.len()
        invariant
            x@ == a.spec_bytes(),
            y@ == b.spec_bytes(),
            i <= x@.len(),
            i <= y@.len(),
            x@.take(i as int) == y@.take(i as int),
        decreases x@.len() - i,
    {
        if x[i] != y[i] {
            proof {
                lemma_bytes_lt_skip(x@, y@, i as int);
                assert(x@.skip(i as int)[0] == x@[i as int]);
                assert(y@.skip(i as int)[0] == y@[i as int]);
            }
            return x[i] < y[i];
        }
        assert(x@.take(i + 1) =~= x@.take(i as int).push(x@[i as int]));
        assert(y@.take(i + 1) =~= y@.take(i as int).push(y@[i as int]));
        i = i + 1;
    }
    proof {
        lemma_bytes_lt_skip(x@, y@, i as int);
    }
    i == x.len() && i < y.len()
}

/// `part` occurs in `s`.
pub open spec fn contains_part(s: Seq<char>, part: Seq<char>) -> bool {
    exists|i: int| 0 <= i && i + part.len() <= s.len() && #[trigger] s.subrange(i, i + part.len()) == part
}

/// Whether `chars[at..]` starts with `part`.
pub fn part_at(chars: &Vec<char>, at: usize, part: &Vec<char>) -> (r: bool)
    requires
        at <= chars@.len(),
    ensures
        r == (at + part@.len() <= chars@.len() && chars@.subrange(at as int, at + part@.len()) == part@),
{
    let n = chars.len();
    if part.len() > n - at {
        return false;
    }
    let mut k: usize = 0;
    while k < part.len()
        invariant
            n == chars@.len(),
            at <= chars@.len(),
            at + part@.len() <= chars@.len(),
            k <= part@.len(),
            forall|j: int| 0 <= j < k ==> chars@[at + j] == part@[j],
        decreases part@.len() - k,
    {
        assert(at + k < n);
        if chars[at + k] != part[k] {
            assert(chars@.subrange(at as int, at + part@.len())[k as int] != part@[k as int]);
            return false;
        }
        k = k + 1;
    }
    assert(chars@.subrange(at as int, at + part@.len()) =~= part@);
    true
}

/// Whether `part` occurs in `chars`.
pub fn contains_chars(chars: &Vec<char>, part: &Vec<char>) -> (r: bool)
    ensures
        r == contains_part(chars@, part@),
{
    let mut i: usize = 0;
    while i < chars.len()
        invariant
            i <= chars@.len(),
            forall|j: int| 0 <= j < i && j + part@.len() <= chars@.len() ==> #[trigger] chars@.subrange(j, j + part@.len()) != part@,
        decreases chars@.len() - i,
    {
        if part_at(chars, i, part) {
            assert(chars@.subrange(i as int, i + part@.len()) == part@);
            assert(contains_part(chars@, part@));
            return true;
        }
        i = i + 1;
    }
    if part.len() == 0 {
        assert(chars@.subrange(0, 0int + part@.len()) =~= part@);
        return true;
    }
    assert(!contains_part(chars@, part@)) by {
        if contains_part(chars@, part@) {
            let j = choose|j: int| 0 <= j && j + part@.len() <= chars@.len() && #[trigger] chars@.subrange(j, j + part@.len()) == part@;
        }
    }
    false
}

/// The characters `char::is_whitespace` accepts (Unicode `White_Space`).
pub open spec fn is_white(c: char) -> bool {
    ('\u{9}' <= c && c <= '\u{d}') || c == ' ' || c == '\u{85}' || c == '\u{a0}' || c == '\u{1680}'
        || ('\u{2000}' <= c && c <= '\u{200a}') || c == '\u{2028}' || c == '\u{2029}' || c == '\u{202f}'
        || c == '\u{205f}' || c == '\u{3000}'
}

/// `s` without its leading white space.
pub open spec fn trim_start(s: Seq<char>) -> Seq<char>
    decreases s.len(),
{
    if s.len() > 0 && is_white(s[0]) {
        trim_start(s.skip(1))
    } else {
        s
    }
}

/// `s` without its trailing white space.
pub open spec fn trim_end(s: Seq<char>) -> Seq<char>
    decreases s.len(),
{
    if s.len() > 0 && is_white(s.last()) {
        trim_end(s.drop_last())
    } else {
        s
    }
}

/// `s` without white space at either end, as `str::trim` gives it.
pub open spec fn trim(s: Seq<char>) -> Seq<char> {
    trim_end(trim_start(s))
}

/// Whether `c` is white space.
pub fn white(c: char) -> (r: bool)
    ensures
        r == is_white(c),
{
    ('\u{9}' <= c && c <= '\u{d}') || c == ' ' || c == '\u{85}' || c == '\u{a0}' || c == '\u{1680}'
        || ('\u{2000}' <= c && c <= '\u{200a}') || c == '\u{2028}' || c == '\u{2029}' || c == '\u{202f}'
        || c == '\u{205f}' || c == '\u{3000}'
}

/// The range of `chars` that `str::trim` keeps.
pub fn trim_range(chars: &Vec<char>) -> (r: (usize, usize))
    ensures
        r.0 <= r.1 <= chars@.len(),
        chars@.subrange(r.0 as int, r.1 as int) == trim(chars@),
{
    let n = chars.len();
    let mut a: usize = 0;
    assert(chars@.skip(0) =~= chars@);
    while a < n && white(chars[a])
        invariant
            n == chars@.len(),
            a <= n,
            trim_start(chars@) == trim_start(chars@.skip(a as int)),
        decreases n - a,
    {
        assert(chars@.skip(a as int)[0] == chars@[a as int]);
        assert(chars@.skip(a as int).skip(1) =~= chars@.skip(a + 1));
        a = a + 1;
    }
    proof {
        let t = chars@.skip(a as int);
        if t.len() > 0 {
            assert(t[0] == chars@[a as int]);
        }
        assert(trim_start(chars@) == t);
        assert(t =~= chars@.subrange(a as int, n as int));
    }
    let mut b: usize = n;
    while b > a && white(chars[b - 1])
        invariant
            n == chars@.len(),
            a <= b <= n,
            trim(chars@) == trim_end(chars@.subrange(a as int, b as int)),
        decreases b,
    {
        assert(chars@.subrange(a as int, b as int).last() == chars@[b - 1]);
        assert(chars@.subrange(a as int, b as int).drop_last() =~= chars@.subrange(a as int, b - 1));
        b = b - 1;
    }
    proof {
        let t = chars@.subrange(a as int, b as int);
        if t.len() > 0 {
            assert(t.last() == chars@[b - 1]);
        }
    }
    (a, b)
}

} // verus!
