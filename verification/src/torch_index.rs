//! Which PyTorch wheel index suits the machine's GPU, from the compute capability that
//! `nvidia-smi` reports.

use vstd::prelude::*;
use crate::text::{chars_of, trim, trim_range};

verus! {

/// What comes before the first `.` of `s` (all of `s` when it has none), the first part
/// that `split('.')` yields.
pub open spec fn before_dot(s: Seq<char>) -> Seq<char>
    decreases s.len(),
{
    if s.len() == 0 {
        s
    } else if s.last() == '.' && !s.drop_last().contains('.') {
        s.drop_last()
    } else if s.contains('.') {
        before_dot(s.drop_last())
    } else {
        s
    }
}

/// Every character of `s` is an ASCII digit.
pub open spec fn all_digits(s: Seq<char>) -> bool {
    forall|i: int| 0 <= i < s.len() ==> '0' <= #[trigger] s[i] && s[i] <= '9'
}

/// The number that the decimal digits `s` write.
pub open spec fn digits_value(s: Seq<char>) -> int
    decreases s.len(),
{
    if s.len() == 0 {
        0
    } else {
        digits_value(s.drop_last()) * 10 + (s.last() as int - '0' as int)
    }
}

/// What `str::parse::<u32>` gives: an optional `+`, then at least one decimal digit and
/// nothing else, for a value that fits.
pub open spec fn parse_u32(s: Seq<char>) -> Option<u32> {
    let d = if s.len() > 0 && s[0] == '+' {
        s.skip(1)
    } else {
        s
    };
    if d.len() > 0 && all_digits(d) && digits_value(d) <= u32::MAX {
        Some(digits_value(d) as u32)
    } else {
        None
    }
}

/// The wheel index for CUDA 12.6, the last with Pascal (compute capability 6.x) support.
pub open spec fn cu126_url() -> Seq<char> {
    seq!['h', 't', 't', 'p', 's', ':', '/', '/', 'd', 'o', 'w', 'n', 'l', 'o', 'a', 'd', '.', 'p', 'y', 't',
        'o', 'r', 'c', 'h', '.', 'o', 'r', 'g', '/', 'w', 'h', 'l', '/', 'c', 'u', '1', '2', '6']
}

/// The wheel index for CUDA 12.8, for Volta (compute capability 7.0) and newer.
pub open spec fn cu128_url() -> Seq<char> {
    seq!['h', 't', 't', 'p', 's', ':', '/', '/', 'd', 'o', 'w', 'n', 'l', 'o', 'a', 'd', '.', 'p', 'y', 't',
        'o', 'r', 'c', 'h', '.', 'o', 'r', 'g', '/', 'w', 'h', 'l', '/', 'c', 'u', '1', '2', '8']
}

/// The index chosen for the reported compute capability `cap`: its major version is the
/// number before the first `.` of the trimmed text; below 7 gets CUDA 12.6, 7 and above
/// CUDA 12.8; text without such a number gets none (CPU-only PyTorch).
pub open spec fn index_for_capability(cap: Seq<char>) -> Option<Seq<char>> {
    match parse_u32(before_dot(trim(cap))) {
        Some(major) => Some(if major < 7 {
            cu126_url()
        } else {
            cu128_url()
        }),
        None => None,
    }
}

/// The end of the first part of `chars[a..b]` when split at `.`.
fn first_dot(chars: &Vec<char>, a: usize, b: usize) -> (r: usize)
    requires
        a <= b <= chars@.len(),
    ensures
        a <= r <= b,
        chars@.subrange(a as int, r as int) == before_dot(chars@.subrange(a as int, b as int)),
{
    let mut k: usize = a;
    while k < b && chars[k] != '.'
        invariant
            a <= k <= b <= chars@.len(),
            forall|j: int| a <= j < k ==> chars@[j] != '.',
        decreases b - k,
    {
        k = k + 1;
    }
    proof {
        lemma_before_dot(chars@.subrange(a as int, b as int), k - a);
        assert(chars@.subrange(a as int, b as int).take(k - a) =~= chars@.subrange(a as int, k as int));
    }
    k
}

/// `before_dot` is the part up to the first dot.
proof fn lemma_before_dot(s: Seq<char>, k: int)
    requires
        0 <= k <= s.len(),
        forall|j: int| 0 <= j < k ==> s[j] != '.',
        k < s.len() ==> s[k] == '.',
    ensures
        before_dot(s) == s.take(k),
    decreases s.len(),
{
    if s.len() == 0 {
        assert(s.take(k) =~= s);
    } else if k == s.len() {
        assert(!s.contains('.'));
        assert(s.take(k) =~= s);
    } else {
        let d = s.drop_last();
        if k == s.len() - 1 {
            assert(!d.contains('.')) by {
                if d.contains('.') {
                    let j = choose|j: int| 0 <= j < d.len() && d[j] == '.';
                    assert(s[j] == '.');
                }
            }
            assert(s.take(k) =~= d);
        } else {
            assert(d[k] == '.');
            assert(d.contains('.'));
            assert(s.contains('.'));
            lemma_before_dot(d, k);
            assert(d.take(k) =~= s.take(k));
        }
    }
}

/// `parse::<u32>` of `chars[a..b]`.
fn parse_u32_range(chars: &Vec<char>, a: usize, b: usize) -> (r: Option<u32>)
    requires
        a <= b <= chars@.len(),
    ensures
        r == parse_u32(chars@.subrange(a as int, b as int)),
{
    let ghost s = chars@.subrange(a as int, b as int);
    let start: usize = if a < b && chars[a] == '+' {
        a + 1
    } else {
        a
    };
    proof {
        if a < b && chars@[a as int] == '+' {
            assert(s[0] == '+');
            assert(s.skip(1) =~= chars@.subrange(start as int, b as int));
        } else if a < b {
            assert(s[0] == chars@[a as int]);
        }
    }
    let ghost d = chars@.subrange(start as int, b as int);
    if start == b {
        return None;
    }
    let limit: u64 = 4294967296;
    let mut v: u64 = 0;
    let mut k: usize = start;
    while k < b
        invariant
            a <= start <= k <= b <= chars@.len(),
            d == chars@.subrange(start as int, b as int),
            s == chars@.subrange(a as int, b as int),
            d == (if s.len() > 0 && s[0] == '+' {
                s.skip(1)
            } else {
                s
            }),
            limit == u32::MAX + 1,
            all_digits(chars@.subrange(start as int, k as int)),
            v == (if digits_value(chars@.subrange(start as int, k as int)) < limit {
                digits_value(chars@.subrange(start as int, k as int))
            } else {
                limit as int
            }),
            digits_value(chars@.subrange(start as int, k as int)) >= 0,
        decreases b - k,
    {
        let c = chars[k];
        let ghost p = chars@.subrange(start as int, k as int);
        let ghost q = chars@.subrange(start as int, k + 1);
        proof {
            assert(q.drop_last() =~= p);
            assert(q.last() == c);
        }
        if !('0' <= c && c <= '9') {
            proof {
                assert(d[k - start] == c);
                assert(!all_digits(d));
            }
            return None;
        }
        let dg: u64 = (c as u32 - '0' as u32) as u64;
        let nv = v * 10 + dg;
        v = if nv < limit {
            nv
        } else {
            limit
        };
        proof {
            assert(all_digits(q)) by {
                assert forall|i: int| 0 <= i < q.len() implies '0' <= #[trigger] q[i] && q[i] <= '9' by {
                    if i < p.len() {
                        assert(q[i] == p[i]);
                    }
                }
            }
        }
        k = k + 1;
    }
    proof {
        assert(chars@.subrange(start as int, k as int) =~= d);
    }
    if v < limit {
        Some(v as u32)
    } else {
        None
    }
}

/// The PyTorch wheel index for the compute capability that `nvidia-smi` printed
/// (`--query-gpu=compute_cap --format=csv,noheader`, e.g. `6.1` or `8.9`): CUDA 12.6 for
/// a major version below 7, CUDA 12.8 otherwise, and `None` (CPU-only) when the text does
/// not start with a version number.
pub fn pytorch_index_for(cap: &str) -> (r: Option<&'static str>)
    ensures
        match index_for_capability(cap@) {
            Some(u) => r matches Some(t) && t@ == u,
            None => r is None,
        },
{
    let chars = chars_of(cap);
    let (a, b) = trim_range(&chars);
    let e = first_dot(&chars, a, b);
    proof {
        assert(chars@.subrange(a as int, b as int).subrange(0, e - a) =~= chars@.subrange(a as int, e as int));
    }
    let old_gpu = "https://download.pytorch.org/whl/cu126";
    let new_gpu = "https://download.pytorch.org/whl/cu128";
    proof {
        reveal_strlit("https://download.pytorch.org/whl/cu126");
        reveal_strlit("https://download.pytorch.org/whl/cu128");
        assert(old_gpu@ =~= cu126_url());
        assert(new_gpu@ =~= cu128_url());
    }
    match parse_u32_range(&chars, a, e) {
        Some(major) => if major < 7 {
            Some(old_gpu)
        } else {
            Some(new_gpu)
        },
        None => None,
    }
}

} // verus!
