//! Upkeep decisions around the semantic-search server and the drag cache: which server
//! log files to delete before a new one is started, which local port to run the server
//! on, and when a drag-cache directory has gone stale.

use vstd::prelude::*;
use vstd::utf8::encode_utf8;
use vstd::multiset::Multiset;
use crate::text::{bytes_lt, str_lt, chars_of, lemma_bytes_lt_asymmetric, lemma_bytes_lt_total,
    lemma_bytes_lt_transitive};
use crate::grouping::names_view;
use crate::zip_listing::{extension_of, last_dot, lemma_last_dot, last_dot_in, sub_chars};

verus! {

/// How many server log files are kept, the new one included.
pub const MAX_LOG_FILES: usize = 5;

/// File names in the order of their UTF-8 bytes, the order of `OsStr` names.
pub open spec fn name_lt(a: Seq<char>, b: Seq<char>) -> bool {
    bytes_lt(encode_utf8(a), encode_utf8(b))
}

proof fn lemma_name_lt_order(a: Seq<char>, b: Seq<char>, c: Seq<char>)
    ensures
        !(name_lt(a, b) && name_lt(b, a)),
        !name_lt(a, a),
        a != b ==> name_lt(a, b) || name_lt(b, a),
        name_lt(a, b) && name_lt(b, c) ==> name_lt(a, c),
{
    lemma_bytes_lt_asymmetric(encode_utf8(a), encode_utf8(b));
    lemma_bytes_lt_asymmetric(encode_utf8(a), encode_utf8(a));
    if a != b {
        vstd::utf8::encode_utf8_decode_utf8(a);
        vstd::utf8::encode_utf8_decode_utf8(b);
        lemma_bytes_lt_total(encode_utf8(a), encode_utf8(b));
    }
    if name_lt(a, b) && name_lt(b, c) {
        lemma_bytes_lt_transitive(encode_utf8(a), encode_utf8(b), encode_utf8(c));
    }
}

/// A server log file: its extension is exactly `log`.
pub open spec fn is_log_name(name: Seq<char>) -> bool {
    extension_of(name) == Some(seq!['l', 'o', 'g'])
}

/// The server log files among `names`, in their order.
pub open spec fn log_names(names: Seq<Seq<char>>) -> Seq<Seq<char>>
    decreases names.len(),
{
    if names.len() == 0 {
        Seq::empty()
    } else {
        let r = log_names(names.drop_last());
        if is_log_name(names.last()) {
            r.push(names.last())
        } else {
            r
        }
    }
}

/// No name in `s` sorts before an earlier one.
pub open spec fn names_sorted(s: Seq<Seq<char>>) -> bool {
    forall|a: int, b: int| 0 <= a < b < s.len() ==> !name_lt(#[trigger] s[b], #[trigger] s[a])
}

/// How many of `count` existing log files go before a new one is created: none while
/// fewer than `MAX_LOG_FILES` exist, otherwise enough that `MAX_LOG_FILES - 1` remain.
pub open spec fn logs_removed_count(count: nat) -> nat {
    if count < MAX_LOG_FILES {
        0
    } else {
        (count - (MAX_LOG_FILES - 1)) as nat
    }
}

/// Whether `name` is a server log file name.
pub fn is_log_file(name: &str) -> (r: bool)
    ensures
        r == is_log_name(name@),
{
    let chars = chars_of(name);
    let n = chars.len();
    proof {
        assert(chars@.subrange(0, n as int) =~= chars@);
        lemma_last_dot(chars@);
    }
    match last_dot_in(&chars, 0, n) {
        None => false,
        Some(d) => {
            if d == 0 {
                return false;
            }
            let x = sub_chars(&chars, d + 1, n);
            let log = "log";
            proof {
                reveal_strlit("log");
                assert(x@ =~= name@.subrange(d + 1, name@.len() as int));
                assert(log@ =~= seq!['l', 'o', 'g']);
            }
            chars_as_string_eq(&x, log)
        },
    }
}

/// Whether `chars` spells `s`.
fn chars_as_string_eq(chars: &Vec<char>, s: &str) -> (r: bool)
    ensures
        r == (chars@ == s@),
{
    let t = chars_of(s);
    if t.len() != chars.len() {
        return false;
    }
    let mut i: usize = 0;
    while i < t.len()
        invariant
            t@ == s@,
            t@.len() == chars@.len(),
            i <= t@.len(),
            forall|k: int| 0 <= k < i ==> t@[k] == chars@[k],
        decreases t@.len() - i,
    {
        if t[i] != chars[i] {
            return false;
        }
        i = i + 1;
    }
    assert(t@ =~= chars@);
    true
}

/// Sorts names by their bytes, keeping the order of equal ones.
fn sort_names(names: Vec<String>) -> (r: Vec<String>)
    ensures
        names_view(r@).to_multiset() == names_view(names@).to_multiset(),
        names_sorted(names_view(r@)),
{
    let n = names.len();
    let mut out: Vec<String> = Vec::new();
    let mut i: usize = 0;
    proof {
        assert(names_view(out@) =~= names_view(names@.take(0)));
    }
    while i < n
        invariant
            i <= n,
            n == names@.len(),
            names_view(out@).to_multiset() == names_view(names@.take(i as int)).to_multiset(),
            names_sorted(names_view(out@)),
        decreases n - i,
    {
        let x = names[i].clone();
        let ghost xv = x@;
        let mut p: usize = 0;
        while p < out.len() && !str_lt(x.as_str(), out[p].as_str())
            invariant
                p <= out@.len(),
                xv == x@,
                forall|q: int| 0 <= q < p ==> !name_lt(xv, #[trigger] out@[q]@),
            decreases out@.len() - p,
        {
            p = p + 1;
        }
        let ghost old_out = names_view(out@);
        proof {
            if p < old_out.len() {
                assert(name_lt(xv, old_out[p as int]));
            }
            assert forall|q: int| 0 <= q < p implies !name_lt(xv, #[trigger] old_out[q]) by {
                assert(old_out[q] == out@[q]@);
            }
        }
        out.insert(p, x);
        proof {
            let t = names_view(out@);
            assert(t =~= old_out.insert(p as int, xv));
            old_out.insert_ensures(p as int, xv);
            assert forall|a: int, b: int| 0 <= a < b < t.len() implies !name_lt(#[trigger] t[b], #[trigger] t[a]) by {
                if b < p {
                    assert(t[a] == old_out[a] && t[b] == old_out[b]);
                } else if b == p {
                    assert(t[a] == old_out[a]);
                    assert(t[b] == xv);
                } else if a < p {
                    assert(t[a] == old_out[a]);
                    assert(t[b] == old_out[b - 1]);
                } else if a == p {
                    assert(t[b] == old_out[b - 1]);
                    assert(name_lt(xv, old_out[p as int]));
                    if name_lt(old_out[b - 1], xv) {
                        lemma_name_lt_order(old_out[b - 1], xv, old_out[p as int]);
                        if p < b - 1 {
                            assert(!name_lt(old_out[b - 1], old_out[p as int]));
                        } else {
                            lemma_name_lt_order(old_out[p as int], old_out[p as int], old_out[p as int]);
                        }
                    }
                } else {
                    assert(t[a] == old_out[a - 1]);
                    assert(t[b] == old_out[b - 1]);
                }
            }
            let kv = names_view(names@);
            assert(names_view(names@.take(i + 1)) =~= names_view(names@.take(i as int)).push(kv[i as int]));
            assert(kv[i as int] == xv);
            broadcast use vstd::seq_lib::group_to_multiset_ensures;
            assert(t.remove(p as int) =~= old_out);
            assert(t[p as int] == xv);
            assert(t.remove(p as int).to_multiset() =~= t.to_multiset().remove(xv));
            assert(t.contains(xv));
            assert(t.to_multiset().count(xv) > 0);
            assert(t.to_multiset() =~= old_out.to_multiset().insert(xv));
            assert(names_view(names@.take(i as int)).push(xv).to_multiset() =~= names_view(names@.take(i as int)).to_multiset().insert(xv));
        }
        i = i + 1;
    }
    proof {
        assert(names@.take(n as int) =~= names@);
    }
    out
}

/// The log files among `names`, in their order.
fn log_files(names: &Vec<String>) -> (r: Vec<String>)
    ensures
        names_view(r@) == log_names(names_view(names@)),
{
    let mut out: Vec<String> = Vec::new();
    let mut i: usize = 0;
    while i < names.len()
        invariant
            i <= names@.len(),
            names_view(out@) == log_names(names_view(names@.take(i as int))),
        decreases names@.len() - i,
    {
        proof {
            let t = names_view(names@.take(i + 1));
            assert(t.drop_last() =~= names_view(names@.take(i as int)));
            assert(t.last() == names@[i as int]@);
        }
        if is_log_file(names[i].as_str()) {
            let ghost before = names_view(out@);
            out.push(names[i].clone());
            assert(names_view(out@) =~= before.push(names@[i as int]@));
        }
        i = i + 1;
    }
    proof {
        assert(names@.take(i as int) =~= names@);
    }
    out
}

/// The log files to delete before a new server log is created, given the names of the
/// files in the log directory: when `MAX_LOG_FILES` or more log files exist, the ones
/// that sort first (timestamped names sort oldest first), so that `MAX_LOG_FILES - 1`
/// remain; otherwise none. The names come back in sorted order.
pub fn logs_to_remove(names: &Vec<String>) -> (r: Vec<String>)
    ensures
        r@.len() == logs_removed_count(log_names(names_view(names@)).len()),
        names_sorted(names_view(r@)),
        names_view(r@).to_multiset().subset_of(log_names(names_view(names@)).to_multiset()),
        forall|x: Seq<char>, y: Seq<char>|
            #[trigger] names_view(r@).contains(x) && #[trigger] log_names(names_view(names@)).to_multiset().sub(
                names_view(r@).to_multiset(),
            ).contains(y) ==> !name_lt(y, x),
{
    let logs = log_files(names);
    let ghost lv = names_view(logs@);
    if logs.len() < MAX_LOG_FILES {
        let r: Vec<String> = Vec::new();
        proof {
            assert(names_view(r@) =~= Seq::<Seq<char>>::empty());
            broadcast use vstd::seq_lib::group_to_multiset_ensures;
            assert(names_view(r@).to_multiset() =~= Multiset::<Seq<char>>::empty());
        }
        return r;
    }
    let sorted = sort_names(logs);
    proof {
        broadcast use vstd::seq_lib::group_to_multiset_ensures;
        assert(names_view(sorted@).to_multiset().len() == names_view(sorted@).len());
        assert(lv.to_multiset().len() == lv.len());
    }
    let k = sorted.len() - (MAX_LOG_FILES - 1);
    let mut r: Vec<String> = Vec::new();
    let mut i: usize = 0;
    while i < k
        invariant
            i <= k <= sorted@.len(),
            names_view(r@) == names_view(sorted@).take(i as int),
        decreases k - i,
    {
        let ghost before = names_view(r@);
        r.push(sorted[i].clone());
        assert(names_view(r@) =~= before.push(sorted@[i as int]@));
        assert(names_view(r@) =~= names_view(sorted@).take(i + 1));
        i = i + 1;
    }
    proof {
        let sv = names_view(sorted@);
        let tk = sv.take(k as int);
        let sk = sv.skip(k as int);
        assert(sv =~= tk + sk);
        vstd::seq_lib::lemma_multiset_commutative(tk, sk);
        assert(lv.to_multiset() == sv.to_multiset());
        assert(lv.to_multiset().sub(tk.to_multiset()) =~= sk.to_multiset());
        assert forall|a: int, b: int| 0 <= a < b < tk.len() implies !name_lt(#[trigger] tk[b], #[trigger] tk[a]) by {
            assert(tk[a] == sv[a] && tk[b] == sv[b]);
        }
        assert forall|x: Seq<char>, y: Seq<char>|
            #[trigger] tk.contains(x) && #[trigger] lv.to_multiset().sub(tk.to_multiset()).contains(y)
            implies !name_lt(y, x) by {
            broadcast use vstd::seq_lib::group_to_multiset_ensures;
            assert(sk.to_multiset().contains(y));
            assert(sk.contains(y));
            let jy = choose|j: int| 0 <= j < sk.len() && sk[j] == y;
            let ix = choose|j: int| 0 <= j < tk.len() && tk[j] == x;
            assert(sv[ix] == x);
            assert(sv[k + jy] == y);
        }
        assert(tk.to_multiset().subset_of(lv.to_multiset())) by {
            assert forall|v: Seq<char>| tk.to_multiset().count(v) <= lv.to_multiset().count(v) by {
                assert(lv.to_multiset().count(v) == tk.to_multiset().count(v) + sk.to_multiset().count(v));
            }
        }
    }
    r
}

/// The name of the log file for a server started at `timestamp`:
/// `clap-server-<timestamp>.log`. Every such name is a log file name, so the files the
/// server writes are the ones `logs_to_remove` manages.
pub fn log_file_name(timestamp: &str) -> (r: String)
    ensures
        r@ == seq!['c', 'l', 'a', 'p', '-', 's', 'e', 'r', 'v', 'e', 'r', '-'] + timestamp@ + seq!['.', 'l', 'o', 'g'],
        is_log_name(r@),
{
    let head = "clap-server-";
    let tail = ".log";
    proof {
        reveal_strlit("clap-server-");
        reveal_strlit(".log");
    }
    let r = String::from_str(head).concat(timestamp).concat(tail);
    proof {
        let s = r@;
        assert(s =~= head@ + timestamp@ + tail@);
        let n = s.len();
        assert(s[n - 4] == '.');
        assert(s[n - 3] == 'l' && s[n - 2] == 'o' && s[n - 1] == 'g');
        let d1 = s.drop_last();
        let d2 = d1.drop_last();
        let d3 = d2.drop_last();
        assert(d3.len() == n - 3 && d3.last() == s[n - 4]);
        assert(last_dot(d3) == n - 4);
        assert(d2.last() == s[n - 3]);
        assert(last_dot(d2) == n - 4);
        assert(d1.last() == s[n - 2]);
        assert(last_dot(d1) == n - 4);
        assert(last_dot(s) == n - 4);
        assert(s.subrange(n - 3, n as int) =~= seq!['l', 'o', 'g']);
    }
    r
}

/// Before a new log file is made, `logs_to_remove` leaves at most `MAX_LOG_FILES - 1` of
/// the existing log files, and removes none while there are fewer than `MAX_LOG_FILES`;
/// with the new one, at most `MAX_LOG_FILES` are kept.
pub proof fn law_log_retention(count: nat)
    ensures
        logs_removed_count(count) <= count,
        count - logs_removed_count(count) <= MAX_LOG_FILES - 1 || count < MAX_LOG_FILES,
        count - logs_removed_count(count) + 1 <= MAX_LOG_FILES,
        count < MAX_LOG_FILES ==> logs_removed_count(count) == 0,
{
}

/// The local port of the `i`-th place the search server is tried on: 5555, 5556, 5557.
pub open spec fn server_port(i: int) -> u16 {
    (5555 + i) as u16
}

/// How many ports are tried.
pub const SERVER_PORT_COUNT: usize = 3;

/// What to do next while looking for a port for the search server.
pub enum PortStep {
    /// See whether something already listens on this port.
    Probe(u16),
    /// Start the server on this port.
    Use(u16),
}

/// The next step of the port search, given what the probes so far found (`in_use[i]`
/// for the `i`-th port, in order): the first port found free is used; while none is
/// free, the next port is probed; when all are taken, the first port is used anyway
/// (starting then fails with a clear error).
pub fn next_port_step(in_use: &Vec<bool>) -> (r: PortStep)
    ensures
        match r {
            PortStep::Use(p) => (exists|i: int|
                0 <= i < in_use@.len() && i < SERVER_PORT_COUNT && !in_use@[i] && (forall|j: int|
                    0 <= j < i ==> #[trigger] in_use@[j]) && p == server_port(i)) || (in_use@.len()
                >= SERVER_PORT_COUNT && (forall|j: int| 0 <= j < SERVER_PORT_COUNT ==> #[trigger] in_use@[j])
                && p == server_port(0)),
            PortStep::Probe(p) => in_use@.len() < SERVER_PORT_COUNT && (forall|j: int|
                0 <= j < in_use@.len() ==> #[trigger] in_use@[j]) && p == server_port(in_use@.len() as int),
        },
{
    let mut i: usize = 0;
    while i < in_use.len() && i < SERVER_PORT_COUNT
        invariant
            i <= in_use@.len(),
            i <= SERVER_PORT_COUNT,
            forall|j: int| 0 <= j < i ==> #[trigger] in_use@[j],
        decreases SERVER_PORT_COUNT - i,
    {
        if !in_use[i] {
            let p: u16 = 5555 + i as u16;
            assert(!in_use@[i as int] && p == server_port(i as int));
            return PortStep::Use(p);
        }
        i = i + 1;
    }
    if i < SERVER_PORT_COUNT {
        PortStep::Probe(5555 + i as u16)
    } else {
        PortStep::Use(5555)
    }
}

/// How long a drag-cache directory may go unused: a week, in seconds.
pub const DRAG_CACHE_MAX_AGE_SECS: u64 = 604800;

/// An age (seconds, then nanoseconds within the second) is more than a week.
pub open spec fn older_than_max_age(age: (u64, u32)) -> bool {
    age.0 > DRAG_CACHE_MAX_AGE_SECS || (age.0 == DRAG_CACHE_MAX_AGE_SECS && age.1 > 0)
}

/// Whether a drag-cache directory is stale, given the ages of its files since they were
/// last modified (an age in the future counts as zero): stale when its newest file is
/// more than a week old, that is when every file is, and also when it has no readable
/// file.
pub fn drag_cache_is_stale(file_ages: &Vec<(u64, u32)>) -> (r: bool)
    ensures
        r == forall|i: int| 0 <= i < file_ages@.len() ==> older_than_max_age(#[trigger] file_ages@[i]),
{
    let mut i: usize = 0;
    while i < file_ages.len()
        invariant
            i <= file_ages@.len(),
            forall|k: int| 0 <= k < i ==> older_than_max_age(#[trigger] file_ages@[k]),
        decreases file_ages@.len() - i,
    {
        let (s, n) = file_ages[i];
        if !(s > DRAG_CACHE_MAX_AGE_SECS || (s == DRAG_CACHE_MAX_AGE_SECS && n > 0)) {
            assert(!older_than_max_age(file_ages@[i as int]));
            return false;
        }
        i = i + 1;
    }
    true
}

} // verus!
