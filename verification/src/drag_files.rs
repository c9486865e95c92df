//! Local files for assets handed to other programs (drag-out, clipboard): the order they
//! are handed over in, and where copies of archive entries and network files are kept.

use vstd::prelude::*;
use crate::server_startup::{decimal, decimal_text};

verus! {

/// Where an id sits in the list the frontend sent: its last position, or -1 when it is
/// not there (such assets go first).
pub open spec fn requested_rank(requested: Seq<i64>, id: i64) -> int
    decreases requested.len(),
{
    if requested.len() == 0 {
        -1
    } else if requested.last() == id {
        requested.len() - 1
    } else {
        requested_rank(requested.drop_last(), id)
    }
}

/// `order` lists the positions `0..found.len()` once each, by rank in `requested` and,
/// within a rank, in their own order: a stable sort of the found assets by rank.
pub open spec fn is_requested_order(order: Seq<usize>, found: Seq<i64>, requested: Seq<i64>) -> bool {
    &&& order.len() == found.len()
    &&& forall|k: int| 0 <= k < order.len() ==> #[trigger] order[k] < found.len()
    &&& forall|a: int, b: int| 0 <= a < b < order.len() ==> #[trigger] order[a] != #[trigger] order[b]
    &&& forall|a: int, b: int|
        #![trigger order[a], order[b]]
        0 <= a < b < order.len() ==> {
            let ra = requested_rank(requested, found[order[a] as int]);
            let rb = requested_rank(requested, found[order[b] as int]);
            ra < rb || (ra == rb && order[a] < order[b])
        }
}

/// The rank of `id` in `requested`.
fn rank_of(requested: &Vec<i64>, id: i64) -> (r: i64)
    requires
        requested@.len() < i64::MAX,
    ensures
        r == requested_rank(requested@, id),
{
    let mut k: usize = requested.len();
    assert(requested@.take(k as int) =~= requested@);
    while k > 0
        invariant
            k <= requested@.len() < i64::MAX,
            requested_rank(requested@, id) == requested_rank(requested@.take(k as int), id),
        decreases k,
    {
        assert(requested@.take(k as int).last() == requested@[k - 1]);
        if requested[k - 1] == id {
            return (k - 1) as i64;
        }
        assert(requested@.take(k as int).drop_last() =~= requested@.take(k - 1));
        k = k - 1;
    }
    -1
}

/// The order to hand over found assets in: `found` holds their ids as the database
/// returned them, `requested` the ids in the order the frontend sent (a repeated id
/// counts at its last place). The result lists positions in `found`, sorted stably by
/// place in `requested`; ids not requested come first.
pub fn order_as_requested(found: &Vec<i64>, requested: &Vec<i64>) -> (r: Vec<usize>)
    requires
        requested@.len() < i64::MAX,
    ensures
        is_requested_order(r@, found@, requested@),
{
    let mut ranks: Vec<i64> = Vec::new();
    let mut i: usize = 0;
    while i < found.len()
        invariant
            i <= found@.len(),
            requested@.len() < i64::MAX,
            ranks@.len() == i,
            forall|k: int| 0 <= k < i ==> #[trigger] ranks@[k] == requested_rank(requested@, found@[k]),
        decreases found@.len() - i,
    {
        ranks.push(rank_of(requested, found[i]));
        i = i + 1;
    }
    let mut out: Vec<usize> = Vec::new();
    let mut j: usize = 0;
    while j < found.len()
        invariant
            j <= found@.len(),
            ranks@.len() == found@.len(),
            forall|k: int| 0 <= k < found@.len() ==> #[trigger] ranks@[k] == requested_rank(requested@, found@[k]),
            out@.len() == j,
            forall|k: int| 0 <= k < out@.len() ==> #[trigger] out@[k] < j,
            forall|a: int, b: int| 0 <= a < b < out@.len() ==> #[trigger] out@[a] != #[trigger] out@[b],
            forall|a: int, b: int|
                #![trigger out@[a], out@[b]]
                0 <= a < b < out@.len() ==> {
                    let ra = requested_rank(requested@, found@[out@[a] as int]);
                    let rb = requested_rank(requested@, found@[out@[b] as int]);
                    ra < rb || (ra == rb && out@[a] < out@[b])
                },
        decreases found@.len() - j,
    {
        let rj = ranks[j];
        let mut p: usize = out.len();
        while p > 0 && ranks[out[p - 1]] > rj
            invariant
                p <= out@.len(),
                forall|k: int| 0 <= k < out@.len() ==> #[trigger] out@[k] < j,
                j < found@.len(),
                ranks@.len() == found@.len(),
                rj == ranks@[j as int],
                forall|q: int| p <= q < out@.len() ==> ranks@[#[trigger] out@[q] as int] > rj,
            decreases p,
        {
            p = p - 1;
        }
        let ghost old_out = out@;
        proof {
            if p > 0 {
                assert(ranks@[old_out[p - 1] as int] <= rj);
            }
        }
        out.insert(p, j);
        proof {
            let t = out@;
            assert(t =~= old_out.insert(p as int, j));
            assert forall|k: int| 0 <= k < t.len() implies #[trigger] t[k] < j + 1 by {
                if k < p {
                    assert(t[k] == old_out[k]);
                } else if k > p {
                    assert(t[k] == old_out[k - 1]);
                }
            }
            assert forall|a: int, b: int| 0 <= a < b < t.len() implies #[trigger] t[a] != #[trigger] t[b] by {
                if a < p && b < p {
                    assert(t[a] == old_out[a] && t[b] == old_out[b]);
                } else if a < p && b == p {
                    assert(t[a] == old_out[a]);
                } else if a < p {
                    assert(t[a] == old_out[a] && t[b] == old_out[b - 1]);
                } else if a == p {
                    assert(t[b] == old_out[b - 1]);
                } else {
                    assert(t[a] == old_out[a - 1] && t[b] == old_out[b - 1]);
                }
            }
            assert forall|a: int, b: int| #![trigger t[a], t[b]] 0 <= a < b < t.len() implies {
                let ra = requested_rank(requested@, found@[t[a] as int]);
                let rb = requested_rank(requested@, found@[t[b] as int]);
                ra < rb || (ra == rb && t[a] < t[b])
            } by {
                if a < p && b < p {
                    assert(t[a] == old_out[a] && t[b] == old_out[b]);
                } else if a < p && b == p {
                    assert(t[a] == old_out[a]);
                    assert(t[b] == j);
                    if a < p - 1 {
                        let rp = requested_rank(requested@, found@[old_out[p - 1] as int]);
                        assert(ranks@[old_out[p - 1] as int] == rp);
                    }
                    assert(ranks@[old_out[a] as int] == requested_rank(requested@, found@[old_out[a] as int]));
                    assert(ranks@[old_out[p - 1] as int] == requested_rank(requested@, found@[old_out[p - 1] as int]));
                } else if a < p {
                    assert(t[a] == old_out[a] && t[b] == old_out[b - 1]);
                } else if a == p {
                    assert(t[a] == j);
                    assert(t[b] == old_out[b - 1]);
                    assert(ranks@[old_out[b - 1] as int] > rj);
                    assert(ranks@[old_out[b - 1] as int] == requested_rank(requested@, found@[old_out[b - 1] as int]));
                } else {
                    assert(t[a] == old_out[a - 1] && t[b] == old_out[b - 1]);
                }
            }
        }
        j = j + 1;
    }
    out
}

/// `n` in decimal, with a minus sign when negative.
pub open spec fn signed_decimal(n: int) -> Seq<char> {
    if n < 0 {
        seq!['-'] + decimal((-n) as nat)
    } else {
        decimal(n as nat)
    }
}

/// `n` written in decimal, as `to_string` writes a signed number.
pub fn signed_decimal_text(n: i64) -> (r: String)
    ensures
        r@ == signed_decimal(n as int),
{
    if n < 0 {
        let m: u64 = if n == i64::MIN {
            9223372036854775808u64
        } else {
            (-n) as u64
        };
        let minus = "-";
        proof {
            reveal_strlit("-");
        }
        String::from_str(minus).concat(decimal_text(m).as_str())
    } else {
        decimal_text(n as u64)
    }
}

/// The drag-cache directory of an asset: `<id>_<modification time>`, the time 0 when
/// unknown, so a rescan that changed the file never serves a stale copy.
pub open spec fn cache_entry_name(id: i64, fs_modified_at: Option<i64>) -> Seq<char> {
    signed_decimal(id as int) + seq!['_'] + signed_decimal(
        match fs_modified_at {
            Some(t) => t as int,
            None => 0,
        },
    )
}

/// The drag-cache directory name of an asset.
pub fn drag_cache_entry(id: i64, fs_modified_at: Option<i64>) -> (r: String)
    ensures
        r@ == cache_entry_name(id, fs_modified_at),
{
    let t = match fs_modified_at {
        Some(t) => t,
        None => 0,
    };
    let sep = "_";
    proof {
        reveal_strlit("_");
    }
    signed_decimal_text(id).concat(sep).concat(signed_decimal_text(t).as_str())
}

/// The name a cached copy is written under before it is complete, so a half-written file
/// is never reused: the file name followed by `.partial`.
pub fn partial_name(filename: &str) -> (r: String)
    ensures
        r@ == filename@ + seq!['.', 'p', 'a', 'r', 't', 'i', 'a', 'l'],
{
    let suffix = ".partial";
    proof {
        reveal_strlit(".partial");
    }
    String::from_str(filename).concat(suffix)
}

} // verus!
