//! The status line shown while the search server starts: the last line of its log that
//! looks like `uv`/`pip` progress, shortened for display.

use vstd::prelude::*;
use vstd::string::StrSliceExecFns;
use vstd::utf8::encode_utf8;
use crate::text::{chars_of, contains_part, contains_chars, trim, trim_range};
use crate::zip_listing::sub_chars;

verus! {

/// Index of the last line break in `s`, or -1.
pub open spec fn last_newline(s: Seq<char>) -> int
    decreases s.len(),
{
    if s.len() == 0 {
        -1
    } else if s.last() == '\n' {
        s.len() - 1
    } else {
        last_newline(s.drop_last())
    }
}

pub proof fn lemma_last_newline(s: Seq<char>)
    ensures
        -1 <= last_newline(s) < s.len(),
    decreases s.len(),
{
    if s.len() > 0 && s.last() != '\n' {
        lemma_last_newline(s.drop_last());
    }
}

/// The words that mark a line of `uv`/`pip` progress or an error.
pub open spec fn progress_keywords() -> Seq<Seq<char>> {
    seq![
        seq!['D', 'o', 'w', 'n', 'l', 'o', 'a', 'd', 'i', 'n', 'g'],
        seq!['I', 'n', 's', 't', 'a', 'l', 'l', 'i', 'n', 'g'],
        seq!['R', 'e', 's', 'o', 'l', 'v', 'e', 'd'],
        seq!['B', 'u', 'i', 'l', 't'],
        seq!['F', 'e', 't', 'c', 'h', 'i', 'n', 'g'],
        seq!['A', 'u', 'd', 'i', 't', 'e', 'd'],
        seq!['e', 'r', 'r', 'o', 'r'],
        seq!['E', 'r', 'r', 'o', 'r'],
    ]
}

/// A trimmed line that reports progress: it holds one of the keywords.
pub open spec fn is_progress_line(t: Seq<char>) -> bool {
    t.len() > 0 && exists|k: int| 0 <= k < progress_keywords().len() && #[trigger] contains_part(t, progress_keywords()[k])
}

/// The trimmed text of the last line of `s` (lines split at `\n`) that reports progress
/// (`progress`) or that is not blank (otherwise).
pub open spec fn last_line_where(s: Seq<char>, progress: bool) -> Option<Seq<char>>
    decreases s.len(),
{
    let i = last_newline(s);
    proof {
        lemma_last_newline(s);
    }
    let t = trim(s.subrange(i + 1, s.len() as int));
    if (if progress {
        is_progress_line(t)
    } else {
        t.len() > 0
    }) {
        Some(t)
    } else if i < 0 {
        None
    } else {
        last_line_where(s.subrange(0, i), progress)
    }
}

/// The line a log tail is summed up by: the last progress line, else the last line that
/// is not blank, trimmed.
pub open spec fn status_line(s: Seq<char>) -> Option<Seq<char>> {
    match last_line_where(s, true) {
        Some(t) => Some(t),
        None => last_line_where(s, false),
    }
}

/// How many bytes `c` takes in UTF-8.
pub open spec fn utf8_width(c: char) -> nat {
    if (c as u32) < 0x80 {
        1
    } else if (c as u32) < 0x800 {
        2
    } else if (c as u32) < 0x10000 {
        3
    } else {
        4
    }
}

/// How many bytes `s` takes in UTF-8.
pub open spec fn utf8_len(s: Seq<char>) -> nat
    decreases s.len(),
{
    if s.len() == 0 {
        0
    } else {
        utf8_len(s.drop_last()) + utf8_width(s.last())
    }
}

proof fn lemma_utf8_len_first(s: Seq<char>)
    requires
        s.len() > 0,
    ensures
        utf8_len(s) == utf8_width(s[0]) + utf8_len(s.drop_first()),
    decreases s.len(),
{
    if s.len() > 1 {
        lemma_utf8_len_first(s.drop_last());
        assert(s.drop_last()[0] == s[0]);
        assert(s.drop_last().drop_first() =~= s.drop_first().drop_last());
        assert(s.drop_first().last() == s.last());
        let df = s.drop_first();
        let dl = s.drop_last();
        assert(utf8_len(df) == utf8_len(df.drop_last()) + utf8_width(df.last()));
        assert(utf8_len(s) == utf8_len(dl) + utf8_width(s.last()));
        assert(utf8_len(dl) == utf8_width(dl[0]) + utf8_len(dl.drop_first()));
    } else {
        assert(s.drop_last().len() == 0);
        assert(s.drop_first().len() == 0);
        assert(s.last() == s[0]);
        assert(utf8_len(s.drop_last()) == 0);
        assert(utf8_len(s.drop_first()) == 0);
        assert(utf8_len(s) == utf8_len(s.drop_last()) + utf8_width(s.last()));
    }
}

/// `utf8_len` is the length of vstd's UTF-8 encoding.
proof fn lemma_utf8_len(s: Seq<char>)
    ensures
        encode_utf8(s).len() == utf8_len(s),
    decreases s.len(),
{
    if s.len() > 0 {
        lemma_utf8_len_first(s);
        lemma_utf8_len(s.drop_first());
        vstd::utf8::char_is_scalar(s[0]);
    }
}

/// Longer prefixes take more bytes.
proof fn lemma_utf8_len_grows(s: Seq<char>, i: int, j: int)
    requires
        0 <= i <= j <= s.len(),
    ensures
        utf8_len(s.take(i)) + (j - i) <= utf8_len(s.take(j)),
    decreases j - i,
{
    if i < j {
        lemma_utf8_len_grows(s, i, j - 1);
        assert(s.take(j).drop_last() =~= s.take(j - 1));
    }
}

/// How many bytes a status line may show.
pub open spec fn max_status_bytes() -> nat {
    80
}

/// The first `k` characters of `t` take exactly the allowed bytes.
pub open spec fn cuts_at_limit(t: Seq<char>, k: int) -> bool {
    0 <= k <= t.len() && encode_utf8(t.take(k)).len() == max_status_bytes()
}

/// A line as shown: longer than the allowed bytes, it is cut there and ends with `…`.
pub open spec fn shown_line(t: Seq<char>) -> Seq<char> {
    if encode_utf8(t).len() > max_status_bytes() {
        t.take(choose|k: int| cuts_at_limit(t, k)) + seq!['\u{2026}']
    } else {
        t
    }
}

/// Index of the last line break in `chars[..end]`.
fn last_newline_before(chars: &Vec<char>, end: usize) -> (r: Option<usize>)
    requires
        end <= chars@.len(),
    ensures
        match r {
            Some(i) => i as int == last_newline(chars@.subrange(0, end as int)) && i < end,
            None => last_newline(chars@.subrange(0, end as int)) == -1,
        },
{
    let mut k: usize = end;
    while k > 0
        invariant
            k <= end <= chars@.len(),
            last_newline(chars@.subrange(0, end as int)) == last_newline(chars@.subrange(0, k as int)),
        decreases k,
    {
        assert(chars@.subrange(0, k as int).last() == chars@[k - 1]);
        if chars[k - 1] == '\n' {
            return Some(k - 1);
        }
        assert(chars@.subrange(0, k as int).drop_last() =~= chars@.subrange(0, k - 1));
        k = k - 1;
    }
    None
}

/// Whether the trimmed line `t` reports progress.
fn progress_line(t: &Vec<char>) -> (r: bool)
    ensures
        r == is_progress_line(t@),
{
    if t.len() == 0 {
        return false;
    }
    let kws: [Vec<char>; 8] = [
        vec!['D', 'o', 'w', 'n', 'l', 'o', 'a', 'd', 'i', 'n', 'g'],
        vec!['I', 'n', 's', 't', 'a', 'l', 'l', 'i', 'n', 'g'],
        vec!['R', 'e', 's', 'o', 'l', 'v', 'e', 'd'],
        vec!['B', 'u', 'i', 'l', 't'],
        vec!['F', 'e', 't', 'c', 'h', 'i', 'n', 'g'],
        vec!['A', 'u', 'd', 'i', 't', 'e', 'd'],
        vec!['e', 'r', 'r', 'o', 'r'],
        vec!['E', 'r', 'r', 'o', 'r'],
    ];
    proof {
        assert(kws[0]@ =~= progress_keywords()[0]);
        assert(kws[1]@ =~= progress_keywords()[1]);
        assert(kws[2]@ =~= progress_keywords()[2]);
        assert(kws[3]@ =~= progress_keywords()[3]);
        assert(kws[4]@ =~= progress_keywords()[4]);
        assert(kws[5]@ =~= progress_keywords()[5]);
        assert(kws[6]@ =~= progress_keywords()[6]);
        assert(kws[7]@ =~= progress_keywords()[7]);
    }
    let mut k: usize = 0;
    while k < 8
        invariant
            k <= 8,
            t@.len() > 0,
            forall|j: int| 0 <= j < 8 ==> (#[trigger] kws@[j])@ == progress_keywords()[j],
            forall|j: int| 0 <= j < k ==> !contains_part(t@, #[trigger] progress_keywords()[j]),
        decreases 8 - k,
    {
        if contains_chars(t, &kws[k]) {
            assert(contains_part(t@, progress_keywords()[k as int]));
            return true;
        }
        k = k + 1;
    }
    false
}

/// The absolute range of the trimmed last line of `chars[..end]` that reports progress
/// (`progress`) or is not blank.
fn find_line(chars: &Vec<char>, end: usize, progress: bool) -> (r: Option<(usize, usize)>)
    requires
        end <= chars@.len(),
    ensures
        match r {
            Some((a, b)) => a <= b <= chars@.len() && last_line_where(chars@.subrange(0, end as int), progress)
                == Some(chars@.subrange(a as int, b as int)),
            None => last_line_where(chars@.subrange(0, end as int), progress) is None,
        },
    decreases end,
{
    let ghost s = chars@.subrange(0, end as int);
    let i = last_newline_before(chars, end);
    let start: usize = match i {
        Some(j) => j + 1,
        None => 0,
    };
    let piece = sub_chars(chars, start, end);
    let (ta, tb) = trim_range(&piece);
    let t = sub_chars(&piece, ta, tb);
    proof {
        assert(piece@ =~= s.subrange(start as int, s.len() as int));
        assert(t@ =~= chars@.subrange(start + ta, start + tb));
    }
    let ok = if progress {
        progress_line(&t)
    } else {
        tb > ta
    };
    if ok {
        return Some((start + ta, start + tb));
    }
    match i {
        None => None,
        Some(j) => {
            proof {
                assert(s.subrange(0, j as int) =~= chars@.subrange(0, j as int));
            }
            find_line(chars, j, progress)
        },
    }
}

/// The status line of a server log's tail, before shortening: the last line that
/// reports `uv`/`pip` progress or an error (it holds one of "Downloading", "Installing",
/// "Resolved", "Built", "Fetching", "Audited", "error", "Error"), else the last line
/// that is not blank, trimmed; `None` when every line is blank.
pub fn status_line_of(buf: &str) -> (r: Option<String>)
    ensures
        match status_line(buf@) {
            Some(t) => r matches Some(l) && l@ == t,
            None => r is None,
        },
{
    let chars = chars_of(buf);
    let n = chars.len();
    proof {
        assert(chars@.subrange(0, n as int) =~= buf@);
    }
    let found = match find_line(&chars, n, true) {
        Some(range) => Some(range),
        None => find_line(&chars, n, false),
    };
    match found {
        None => None,
        Some((a, b)) => Some(String::from_str(buf.substring_char(a, b))),
    }
}

/// A status line as shown: at most 80 bytes are kept, and a longer line is cut to its
/// first 80 bytes followed by `…`. A longer line must have a character boundary at
/// byte 80.
pub fn shorten_status_line(line: &str) -> (r: String)
    requires
        encode_utf8(line@).len() <= max_status_bytes() || exists|k: int| cuts_at_limit(line@, k),
    ensures
        r@ == shown_line(line@),
{
    let chars = chars_of(line);
    let ghost t = chars@;
    let n = chars.len();
    let mut w: usize = 0;
    let mut k: usize = 0;
    while k < n && w < 80
        invariant
            n == chars@.len(),
            t == chars@,
            k <= n,
            w == utf8_len(t.take(k as int)),
            w < 80 + 4,
            k > 0 ==> utf8_len(t.take(k - 1)) < 80,
        decreases n - k,
    {
        let c = chars[k];
        let cw: usize = if (c as u32) < 0x80 {
            1
        } else if (c as u32) < 0x800 {
            2
        } else if (c as u32) < 0x10000 {
            3
        } else {
            4
        };
        proof {
            assert(t.take(k + 1).drop_last() =~= t.take(k as int));
            assert(t.take(k + 1).last() == c);
            assert(t.take(k + 1 - 1) =~= t.take(k as int));
        }
        w = w + cw;
        k = k + 1;
    }
    proof {
        assert(t.take(t.len() as int) =~= t);
        lemma_utf8_len_grows(t, k as int, t.len() as int);
        lemma_utf8_len(t);
        lemma_utf8_len(t.take(k as int));
    }
    if w > 80 {
        proof {
            let kk = choose|kk: int| cuts_at_limit(t, kk);
            lemma_utf8_len(t.take(kk));
            if kk < k {
                lemma_utf8_len_grows(t, kk, k - 1);
                assert(t.take(k as int).drop_last() =~= t.take(k - 1));
            } else {
                lemma_utf8_len_grows(t, k as int, kk);
            }
        }
        return String::from_str(line);
    }
    if w == 80 && k < n {
        proof {
            lemma_utf8_len_grows(t, k as int, k + 1);
            assert(cuts_at_limit(t, k as int));
            let kk = choose|kk: int| cuts_at_limit(t, kk);
            lemma_utf8_len(t.take(kk));
            if kk < k {
                lemma_utf8_len_grows(t, kk, k as int);
            } else if kk > k {
                lemma_utf8_len_grows(t, k as int, kk);
            }
        }
        let ell = "\u{2026}";
        proof {
            reveal_strlit("\u{2026}");
        }
        let l = String::from_str(line.substring_char(0, k)).concat(ell);
        proof {
            assert(l@ =~= t.take(k as int) + seq!['\u{2026}']);
        }
        l
    } else {
        String::from_str(line)
    }
}

/// The status line of a server log's tail as shown: `status_line_of`, then
/// `shorten_status_line`.
pub fn last_meaningful_line(buf: &str) -> (r: Option<String>)
    requires
        status_line(buf@) matches Some(t) ==> encode_utf8(t).len() <= max_status_bytes() || exists|k: int|
            cuts_at_limit(t, k),
    ensures
        match status_line(buf@) {
            Some(t) => r matches Some(l) && l@ == shown_line(t),
            None => r is None,
        },
{
    match status_line_of(buf) {
        Some(l) => Some(shorten_status_line(l.as_str())),
        None => None,
    }
}

} // verus!
