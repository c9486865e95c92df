//! Where an asset's bytes live: a file under its source folder, or an entry of a
//! ZIP archive under it.

use vstd::prelude::*;
use vstd::string::StringSliceAdditionalSpecFns;
use crate::models::Asset;
use crate::text::{first_zip_boundary, find_first_zip_sep};

verus! {

/// `folder/name`, or `folder/rel/name` when `rel` is not empty.
pub open spec fn fs_path(folder: Seq<char>, rel: Seq<char>, name: Seq<char>) -> Seq<char> {
    if rel.len() == 0 {
        folder + seq!['/'] + name
    } else {
        folder + seq!['/'] + rel + seq!['/'] + name
    }
}

/// Absolute path of a file asset.
pub open spec fn asset_fs_path(a: Asset) -> Seq<char> {
    fs_path(a.folder_path@, a.rel_path@, a.filename@)
}

/// The archive name of an asset, empty when it has none.
pub open spec fn zip_file_name(a: Asset) -> Seq<char> {
    match a.zip_file {
        Some(z) => z@,
        None => Seq::<char>::empty(),
    }
}

/// Absolute path of the (outer) archive that holds a ZIP asset.
pub open spec fn asset_zip_path(a: Asset) -> Seq<char> {
    fs_path(a.folder_path@, a.rel_path@, zip_file_name(a))
}

fn join_path(folder: &str, rel: &str, name: &str) -> (r: String)
    ensures
        r@ == fs_path(folder@, rel@, name@),
{
    let slash = "/";
    proof {
        reveal_strlit("/");
    }
    let mut s = String::from_str(folder);
    s.append(slash);
    if !rel.is_empty() {
        s.append(rel);
        s.append(slash);
    }
    s.append(name);
    s
}

/// Absolute filesystem path of a regular (non-ZIP) asset:
/// `folder_path/rel_path/filename`, or `folder_path/filename` when `rel_path` is empty.
pub fn resolve_asset_fs_path(asset: &Asset) -> (r: String)
    ensures
        r@ == asset_fs_path(*asset),
{
    join_path(asset.folder_path.as_str(), asset.rel_path.as_str(), asset.filename.as_str())
}

/// Absolute path of the archive containing a ZIP asset:
/// `folder_path/rel_path/zip_file`, or `folder_path/zip_file` when `rel_path` is empty.
pub fn resolve_zip_path(asset: &Asset) -> (r: String)
    ensures
        r@ == asset_zip_path(*asset),
{
    let empty = "";
    proof {
        reveal_strlit("");
    }
    let zip_file: &str = match &asset.zip_file {
        Some(z) => z.as_str(),
        None => empty,
    };
    join_path(asset.folder_path.as_str(), asset.rel_path.as_str(), zip_file)
}

/// Where the bytes of an asset are read from.
#[derive(Debug)]
pub enum AssetSource {
    /// A file on disk.
    File { path: String },
    /// The entry `entry` (possibly through nested archives) of the archive at `zip_path`.
    ZipEntry { zip_path: String, entry: String },
}

/// Decides where `asset`'s bytes come from; the caller performs the read.
pub fn asset_source(asset: &Asset) -> (r: AssetSource)
    ensures
        match asset.zip_entry {
            Some(e) => r matches AssetSource::ZipEntry { zip_path, entry }
                && zip_path@ == asset_zip_path(*asset) && entry@ == e@,
            None => r matches AssetSource::File { path } && path@ == asset_fs_path(*asset),
        },
{
    match &asset.zip_entry {
        Some(entry) => AssetSource::ZipEntry {
            zip_path: resolve_zip_path(asset),
            entry: entry.clone(),
        },
        None => AssetSource::File { path: resolve_asset_fs_path(asset) },
    }
}

/// Byte position just after the `.zip` of the first `.zip/` in `path` (letters in any
/// ASCII case): where the first nested archive's name ends.
///
/// `"inner.zip/folder/image.png"` gives `Some(9)`; `"folder/image.png"` gives `None`.
pub fn find_nested_zip_boundary(path: &str) -> (r: Option<usize>)
    ensures
        match first_zip_boundary(path.spec_bytes()) {
            Some(b) => r == Some(b as usize),
            None => r is None,
        },
{
    find_first_zip_sep(path.as_bytes())
}

} // verus!
