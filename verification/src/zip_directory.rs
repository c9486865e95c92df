//! The directory of a ZIP archive held in memory (a nested archive loaded from its
//! parent), read with the `zip` crate, and what a scan makes of it.

use vstd::prelude::*;
use crate::grouping::names_view;
use crate::zip_listing::{ZipEntryInfo, ZipListing, ZipSource, enumerate_zip_entries, asset_entries,
    nested_entries, asset_of_entry, nested_of_entry};

verus! {

#[verifier::external_type_specification]
#[verifier::external_body]
#[verifier::reject_recursive_types(R)]
pub struct ExZipArchive<R>(zip::ZipArchive<R>);

#[verifier::external_type_specification]
#[verifier::external_body]
#[verifier::reject_recursive_types(T)]
pub struct ExCursor<T>(std::io::Cursor<T>);

#[verifier::external_type_specification]
#[verifier::external_body]
pub struct ExZipError(zip::result::ZipError);

/// What the directory of an open archive holds, in index order: each entry's name,
/// uncompressed size and compression method code, or `None` where the entry cannot be
/// opened.
pub uninterp spec fn directory_of(archive: zip::ZipArchive<std::io::Cursor<Vec<u8>>>) -> Seq<Option<(Seq<char>, u64, u16)>>;

/// The directory of the archive in `bytes`, as opening it gives it; `None` when the bytes
/// are not a readable archive.
pub uninterp spec fn zip_directory(bytes: Seq<u8>) -> Option<Seq<Option<(Seq<char>, u64, u16)>>>;

/// `zip::ZipArchive::new` over the bytes. Claimed: it succeeds exactly when
/// `zip_directory(bytes)` is `Some`, and the archive then has that directory.
#[verifier::external_body]
fn open_archive(bytes: Vec<u8>) -> (r: Result<zip::ZipArchive<std::io::Cursor<Vec<u8>>>, zip::result::ZipError>)
    ensures
        match zip_directory(bytes@) {
            Some(d) => r matches Ok(a) && directory_of(a) == d,
            None => r is Err,
        },
{
    zip::ZipArchive::new(std::io::Cursor::new(bytes))
}

/// `ZipArchive::len`: the number of entries in the directory.
#[verifier::external_body]
fn archive_len(archive: &zip::ZipArchive<std::io::Cursor<Vec<u8>>>) -> (r: usize)
    ensures
        r == directory_of(*archive).len(),
{
    archive.len()
}

/// `ZipArchive::by_index(i)`, then the entry's `name`, `size` and compression method
/// code (`CompressionMethod::to_u16`). Claimed: the result is the directory's `i`-th
/// record (`None` when the entry cannot be opened), and the directory is unchanged.
#[verifier::external_body]
fn entry_record(archive: &mut zip::ZipArchive<std::io::Cursor<Vec<u8>>>, i: usize) -> (r: Option<(String, u64, u16)>)
    requires
        i < directory_of(*old(archive)).len(),
    ensures
        directory_of(*final(archive)) == directory_of(*old(archive)),
        match directory_of(*old(archive))[i as int] {
            Some((n, s, m)) => r matches Some((rn, rs, rm)) && rn@ == n && rs == s && rm == m,
            None => r is None,
        },
{
    #[allow(deprecated)]
    let r = archive.by_index(i).ok().map(|e| (e.name().to_string(), e.size(), e.compression().to_u16()));
    r
}

/// The `Display` text of a `zip` error. The error value is opaque here, so nothing is
/// claimed of the text.
#[verifier::external_body]
fn zip_error_message(e: &zip::result::ZipError) -> (m: String) {
    e.to_string()
}

/// Whether a `zip` entry name is a directory, as `ZipFile::is_dir` decides: it ends with
/// `/` or `\`.
pub open spec fn zip_is_dir(name: Seq<char>) -> bool {
    name.len() > 0 && (name.last() == '/' || name.last() == '\\')
}

/// The entries of a directory that can be opened, in order.
pub open spec fn readable_records(d: Seq<Option<(Seq<char>, u64, u16)>>) -> Seq<(Seq<char>, u64, u16)>
    decreases d.len(),
{
    if d.len() == 0 {
        Seq::empty()
    } else {
        let r = readable_records(d.drop_last());
        match d.last() {
            Some(e) => r.push(e),
            None => r,
        }
    }
}

/// `entries` describe the readable `records`, in order.
pub open spec fn lists_records(entries: Seq<ZipEntryInfo>, records: Seq<(Seq<char>, u64, u16)>) -> bool {
    &&& entries.len() == records.len()
    &&& forall|i: int|
        0 <= i < entries.len() ==> {
            &&& (#[trigger] entries[i]).name@ == records[i].0
            &&& entries[i].size == records[i].1
            &&& entries[i].method == records[i].2
            &&& entries[i].is_dir == zip_is_dir(records[i].0)
        }
}

/// Whether a name ends with `/` or `\`.
fn ends_with_separator(name: &str) -> (r: bool)
    ensures
        r == zip_is_dir(name@),
{
    let chars = crate::text::chars_of(name);
    let n = chars.len();
    n > 0 && (chars[n - 1] == '/' || chars[n - 1] == '\\')
}

/// The directory of the archive in `bytes`: every entry that can be opened, in index
/// order, with its name, size, compression method code and whether it is a directory.
/// An error (with the crate's message) when the bytes are not a readable archive.
pub fn list_archive(bytes: Vec<u8>) -> (r: Result<Vec<ZipEntryInfo>, String>)
    ensures
        match zip_directory(bytes@) {
            Some(d) => r matches Ok(v) && lists_records(v@, readable_records(d)),
            None => r is Err,
        },
{
    let mut archive = match open_archive(bytes) {
        Ok(a) => a,
        Err(e) => {
            return Err(zip_error_message(&e));
        },
    };
    let ghost d = directory_of(archive);
    let n = archive_len(&archive);
    let mut out: Vec<ZipEntryInfo> = Vec::new();
    let mut i: usize = 0;
    while i < n
        invariant
            n == d.len(),
            directory_of(archive) == d,
            i <= n,
            lists_records(out@, readable_records(d.take(i as int))),
        decreases n - i,
    {
        proof {
            let t = d.take(i + 1);
            assert(t.drop_last() =~= d.take(i as int));
            assert(t.last() == d[i as int]);
        }
        let ghost before = out@;
        match entry_record(&mut archive, i) {
            Some((name, size, method)) => {
                let is_dir = ends_with_separator(name.as_str());
                out.push(ZipEntryInfo { name, size, method, is_dir });
                proof {
                    let recs = readable_records(d.take(i + 1));
                    assert(recs == readable_records(d.take(i as int)).push(d[i as int]->0));
                    assert forall|k: int| 0 <= k < out@.len() implies {
                        &&& (#[trigger] out@[k]).name@ == recs[k].0
                        &&& out@[k].size == recs[k].1
                        &&& out@[k].method == recs[k].2
                        &&& out@[k].is_dir == zip_is_dir(recs[k].0)
                    } by {
                        if k < before.len() {
                            assert(out@[k] == before[k]);
                        }
                    }
                }
            },
            None => {},
        }
        i = i + 1;
    }
    proof {
        assert(d.take(n as int) =~= d);
    }
    Ok(out)
}

/// What a scan makes of a nested archive already loaded into memory: its readable
/// entries, taken as `enumerate_zip_entries` takes them. An error (with the crate's
/// message) when the bytes are not a readable archive.
pub fn scan_archive_bytes(bytes: Vec<u8>, src: &ZipSource, excludes: &Vec<String>, windows: bool) -> (r: Result<
    ZipListing,
    String,
>)
    ensures
        match zip_directory(bytes@) {
            Some(d) => r matches Ok(l) && exists|entries: Seq<ZipEntryInfo>|
                #![trigger lists_records(entries, readable_records(d))]
                lists_records(entries, readable_records(d)) && {
                    &&& l.assets@.len() == asset_entries(entries, windows).len()
                    &&& forall|i: int|
                        0 <= i < l.assets@.len() ==> asset_of_entry(
                            #[trigger] l.assets@[i],
                            asset_entries(entries, windows)[i],
                            *src,
                            names_view(excludes@),
                            windows,
                        )
                    &&& l.nested@.len() == nested_entries(entries, windows).len()
                    &&& forall|i: int|
                        0 <= i < l.nested@.len() ==> nested_of_entry(
                            #[trigger] l.nested@[i],
                            nested_entries(entries, windows)[i],
                            *src,
                        )
                },
            None => r is Err,
        },
{
    let entries = list_archive(bytes)?;
    Ok(enumerate_zip_entries(&entries, src, excludes, windows))
}

} // verus!
