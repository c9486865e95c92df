//! Routing an embedding batch: which assets go to the embedding service by path and
//! which by their bytes, and how the service's two replies are turned back into one
//! outcome per asset, in batch order.

use vstd::prelude::*;
use crate::models::ProcessingCategory;
use crate::tasks::ProcessingOutput;

verus! {

/// How an asset of an embedding batch reaches the embedding service.
pub enum ClapSource {
    /// A file on disk, sent as its path.
    OnDisk,
    /// An archive entry whose bytes were read, sent as those bytes.
    InArchive,
    /// An archive entry whose bytes could not be read, with the reason.
    Unreadable(String),
}

/// What the service answered to one request: per item, in request order, the embedding
/// (as stored) or the item's error; or the error of the whole request.
pub type ClapReply = Result<Vec<Result<Vec<u8>, String>>, String>;

/// Whether the asset goes by path (`by_path`) or by bytes (otherwise).
pub open spec fn sent_as(s: ClapSource, by_path: bool) -> bool {
    if by_path {
        s is OnDisk
    } else {
        s is InArchive
    }
}

/// The positions of the assets sent by path (`by_path`) or by bytes, in batch order.
pub open spec fn route(src: Seq<ClapSource>, by_path: bool) -> Seq<usize>
    decreases src.len(),
{
    if src.len() == 0 {
        Seq::empty()
    } else if sent_as(src.last(), by_path) {
        route(src.drop_last(), by_path).push((src.len() - 1) as usize)
    } else {
        route(src.drop_last(), by_path)
    }
}

/// The place of the asset at `i` in its request.
pub open spec fn request_place(src: Seq<ClapSource>, i: int) -> int {
    route(src.take(i), src[i] is OnDisk).len() as int
}

/// `o` is the embedding pass's failure for asset `id` with message `msg`.
pub open spec fn failure_with(o: ProcessingOutput, id: i64, msg: Seq<char>) -> bool {
    &&& o matches ProcessingOutput::Failure { asset_id, category, error }
    &&& asset_id == id
    &&& category == ProcessingCategory::Clap
    &&& error@ == msg
}

/// The outcome of the item at place `k` of a request, for asset `id`: the request's
/// error behind `batch_error`, the item's embedding or error, or no result when the
/// reply is missing or too short.
pub open spec fn reply_outcome(o: ProcessingOutput, reply: Option<ClapReply>, k: int, id: i64, batch_error: Seq<char>) -> bool {
    match reply {
        Some(Err(e)) => failure_with(o, id, batch_error + e@),
        Some(Ok(v)) => if 0 <= k < v@.len() {
            match v@[k] {
                Ok(b) => o == ProcessingOutput::ClapSuccess { asset_id: id, embedding: b },
                Err(e) => failure_with(o, id, e@),
            }
        } else {
            failure_with(o, id, "No result produced"@)
        },
        None => failure_with(o, id, "No result produced"@),
    }
}

/// The outcome of the asset at `i` of the batch.
pub open spec fn clap_outcome(
    o: ProcessingOutput,
    ids: Seq<i64>,
    src: Seq<ClapSource>,
    i: int,
    path_reply: Option<ClapReply>,
    bytes_reply: Option<ClapReply>,
) -> bool {
    match src[i] {
        ClapSource::Unreadable(e) => failure_with(o, ids[i], "Failed to load asset bytes: "@ + e@),
        ClapSource::OnDisk => reply_outcome(o, path_reply, request_place(src, i), ids[i], "Batch request failed: "@),
        ClapSource::InArchive => reply_outcome(o, bytes_reply, request_place(src, i), ids[i], "Batch upload failed: "@),
    }
}

/// The positions of the batch sent by path and those sent by bytes, each in batch order;
/// unreadable entries are in neither.
pub fn split_clap_batch(src: &Vec<ClapSource>) -> (r: (Vec<usize>, Vec<usize>))
    ensures
        r.0@ == route(src@, true),
        r.1@ == route(src@, false),
{
    let mut by_path: Vec<usize> = Vec::new();
    let mut by_bytes: Vec<usize> = Vec::new();
    let mut i: usize = 0;
    while i < src.len()
        invariant
            i <= src@.len(),
            by_path@ == route(src@.take(i as int), true),
            by_bytes@ == route(src@.take(i as int), false),
        decreases src@.len() - i,
    {
        proof {
            assert(src@.take(i + 1).drop_last() =~= src@.take(i as int));
            assert(src@.take(i + 1).last() == src@[i as int]);
        }
        match &src[i] {
            ClapSource::OnDisk => by_path.push(i),
            ClapSource::InArchive => by_bytes.push(i),
            ClapSource::Unreadable(_) => {},
        }
        i = i + 1;
    }
    proof {
        assert(src@.take(src@.len() as int) =~= src@);
    }
    (by_path, by_bytes)
}

/// The request's error, if the whole request failed, and its items otherwise.
fn reply_parts(reply: Option<ClapReply>) -> (r: (Option<String>, Vec<Result<Vec<u8>, String>>))
    ensures
        match reply {
            Some(Err(e)) => r.0 == Some(e) && r.1@.len() == 0,
            Some(Ok(v)) => r.0 is None && r.1@ == v@,
            None => r.0 is None && r.1@.len() == 0,
        },
{
    match reply {
        Some(Err(e)) => (Some(e), Vec::new()),
        Some(Ok(v)) => (None, v),
        None => (None, Vec::new()),
    }
}

/// The failure of asset `id` with message `head` followed by `tail`.
fn failure(id: i64, head: &str, tail: &str) -> (o: ProcessingOutput)
    ensures
        failure_with(o, id, head@ + tail@),
{
    ProcessingOutput::Failure { asset_id: id, category: ProcessingCategory::Clap, error: head.to_string().concat(tail) }
}

/// The outcome of the next item of a request whose items not yet handed out are
/// `items`; the item is taken out.
fn next_outcome(id: i64, err: &Option<String>, items: &mut Vec<Result<Vec<u8>, String>>, batch_error: &str) -> (o: ProcessingOutput)
    ensures
        match err {
            Some(e) => failure_with(o, id, batch_error@ + e@) && final(items)@ == old(items)@,
            None => if old(items)@.len() > 0 {
                &&& final(items)@ == old(items)@.drop_first()
                &&& match old(items)@[0] {
                    Ok(b) => o == ProcessingOutput::ClapSuccess { asset_id: id, embedding: b },
                    Err(e) => failure_with(o, id, e@),
                }
            } else {
                failure_with(o, id, "No result produced"@) && final(items)@ == old(items)@
            },
        },
{
    match err {
        Some(e) => failure(id, batch_error, e.as_str()),
        None => if items.len() > 0 {
            let item = items.remove(0);
            proof {
                assert(items@ =~= old(items)@.drop_first());
            }
            match item {
                Ok(b) => ProcessingOutput::ClapSuccess { asset_id: id, embedding: b },
                Err(e) => {
                    proof {
                        reveal_strlit("");
                    }
                    failure(id, "", e.as_str())
                },
            }
        } else {
            proof {
                reveal_strlit("No result produced");
            }
            proof {
                reveal_strlit("");
            }
            failure(id, "No result produced", "")
        },
    }
}

/// The items of a reply not yet handed out once `k` of them were asked for.
spec fn items_left(reply: Option<ClapReply>, k: int) -> Seq<Result<Vec<u8>, String>> {
    match reply {
        Some(Ok(v)) => if k < v@.len() {
            v@.skip(k)
        } else {
            Seq::empty()
        },
        _ => Seq::empty(),
    }
}

proof fn lemma_route_step(src: Seq<ClapSource>, i: int, by_path: bool)
    requires
        0 <= i < src.len(),
    ensures
        route(src.take(i + 1), by_path).len() == route(src.take(i), by_path).len() + if sent_as(src[i], by_path) {
            1int
        } else {
            0
        },
        route(src.take(i), by_path).len() <= i,
    decreases i,
{
    assert(src.take(i + 1).drop_last() =~= src.take(i));
    assert(src.take(i + 1).last() == src[i]);
    if i > 0 {
        lemma_route_step(src, i - 1, by_path);
    }
}

/// One outcome per asset, in batch order: an unreadable entry fails with its reason; an
/// asset sent by path or by bytes gets what the service answered at its place in that
/// request, the request's own error when the whole request failed, or "No result
/// produced" when no answer is there. `path_reply` and `bytes_reply` are the answers to
/// the requests of `split_clap_batch`, absent where no request was made.
pub fn assemble_clap_outputs(
    ids: &Vec<i64>,
    src: &Vec<ClapSource>,
    path_reply: Option<ClapReply>,
    bytes_reply: Option<ClapReply>,
) -> (r: Vec<ProcessingOutput>)
    requires
        ids@.len() == src@.len(),
    ensures
        r@.len() == src@.len(),
        forall|i: int| 0 <= i < r@.len() ==> clap_outcome(#[trigger] r@[i], ids@, src@, i, path_reply, bytes_reply),
{
    let ghost pr = path_reply;
    let ghost br = bytes_reply;
    let (path_err, mut path_items) = reply_parts(path_reply);
    let (bytes_err, mut bytes_items) = reply_parts(bytes_reply);
    let mut out: Vec<ProcessingOutput> = Vec::new();
    let mut i: usize = 0;
    while i < src.len()
        invariant
            i <= src@.len(),
            ids@.len() == src@.len(),
            out@.len() == i,
            forall|j: int| 0 <= j < i ==> clap_outcome(#[trigger] out@[j], ids@, src@, j, pr, br),
            match pr {
                Some(Err(e)) => path_err == Some(e),
                _ => path_err is None,
            },
            match br {
                Some(Err(e)) => bytes_err == Some(e),
                _ => bytes_err is None,
            },
            path_items@ == items_left(pr, route(src@.take(i as int), true).len() as int),
            bytes_items@ == items_left(br, route(src@.take(i as int), false).len() as int),
        decreases src@.len() - i,
    {
        proof {
            lemma_route_step(src@, i as int, true);
            lemma_route_step(src@, i as int, false);
        }
        let ghost kp = route(src@.take(i as int), true).len() as int;
        let ghost kb = route(src@.take(i as int), false).len() as int;
        let o = match &src[i] {
            ClapSource::Unreadable(e) => {
                proof {
                    reveal_strlit("Failed to load asset bytes: ");
                }
                failure(ids[i], "Failed to load asset bytes: ", e.as_str())
            },
            ClapSource::OnDisk => {
                proof {
                    reveal_strlit("Batch request failed: ");
                }
                let o = next_outcome(ids[i], &path_err, &mut path_items, "Batch request failed: ");
                proof {
                    match pr {
                        Some(Ok(v)) => {
                            if kp < v@.len() {
                                assert(v@.skip(kp)[0] == v@[kp]);
                                assert(v@.skip(kp).drop_first() =~= items_left(pr, kp + 1));
                            }
                        },
                        _ => {},
                    }
                }
                o
            },
            ClapSource::InArchive => {
                proof {
                    reveal_strlit("Batch upload failed: ");
                }
                let o = next_outcome(ids[i], &bytes_err, &mut bytes_items, "Batch upload failed: ");
                proof {
                    match br {
                        Some(Ok(v)) => {
                            if kb < v@.len() {
                                assert(v@.skip(kb)[0] == v@[kb]);
                                assert(v@.skip(kb).drop_first() =~= items_left(br, kb + 1));
                            }
                        },
                        _ => {},
                    }
                }
                o
            },
        };
        out.push(o);
        i = i + 1;
    }
    out
}

/// Every asset of the batch fails the same way when the service cannot be reached.
pub fn unavailable_outputs(ids: &Vec<i64>, reason: &str) -> (r: Vec<ProcessingOutput>)
    ensures
        r@.len() == ids@.len(),
        forall|i: int| 0 <= i < r@.len() ==> failure_with(#[trigger] r@[i], ids@[i], "CLAP server unavailable: "@ + reason@),
{
    let mut out: Vec<ProcessingOutput> = Vec::new();
    let mut i: usize = 0;
    while i < ids.len()
        invariant
            i <= ids@.len(),
            out@.len() == i,
            forall|j: int| 0 <= j < i ==> failure_with(#[trigger] out@[j], ids@[j], "CLAP server unavailable: "@ + reason@),
        decreases ids@.len() - i,
    {
        out.push(failure(ids[i], "CLAP server unavailable: ", reason));
        i = i + 1;
    }
    out
}

} // verus!
