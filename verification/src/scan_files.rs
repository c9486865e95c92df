//! What a folder scan makes of a file it walks past: a media asset, an archive to list,
//! or nothing; and the folder of a file relative to the scanned root.

use vstd::prelude::*;
use vstd::string::StrSliceExecFns;
use crate::grouping::names_view;
use crate::models::AssetType;
use crate::scan::{DiscoveredAsset, join, searchable_text, is_image_ext, is_audio_ext, detect_asset_type_from_ext,
    compute_searchable_path};
use crate::text::{chars_of, str_eq};
use crate::zip_listing::{is_sep, file_name_of, name_ext, name_kind, zip_ext};

verus! {

/// Index of the first separator in `s`, or -1.
pub open spec fn first_sep(s: Seq<char>, windows: bool) -> int
    decreases s.len(),
{
    if s.len() == 0 {
        -1
    } else if is_sep(s[0], windows) {
        0
    } else if first_sep(s.drop_first(), windows) < 0 {
        -1
    } else {
        first_sep(s.drop_first(), windows) + 1
    }
}

pub proof fn lemma_first_sep(s: Seq<char>, windows: bool)
    ensures
        -1 <= first_sep(s, windows) < s.len(),
        first_sep(s, windows) >= 0 ==> is_sep(s[first_sep(s, windows)], windows),
        forall|k: int|
            0 <= k < s.len() && (first_sep(s, windows) < 0 || k < first_sep(s, windows)) ==> !is_sep(
                #[trigger] s[k],
                windows,
            ),
    decreases s.len(),
{
    if s.len() > 0 && !is_sep(s[0], windows) {
        lemma_first_sep(s.drop_first(), windows);
        assert forall|k: int|
            0 <= k < s.len() && (first_sep(s, windows) < 0 || k < first_sep(s, windows)) implies !is_sep(
                #[trigger] s[k],
                windows,
            ) by {
            if k > 0 {
                assert(s.drop_first()[k - 1] == s[k]);
            }
        }
    }
}

/// A part of a path that names something: not empty and not `.`.
pub open spec fn named(p: Seq<char>) -> bool {
    p.len() > 0 && p != seq!['.']
}

/// The named parts of `s`, from the front, split at separators.
pub open spec fn named_parts(s: Seq<char>, windows: bool) -> Seq<Seq<char>>
    decreases s.len(),
{
    let i = first_sep(s, windows);
    proof {
        lemma_first_sep(s, windows);
    }
    if i < 0 {
        if named(s) {
            seq![s]
        } else {
            Seq::empty()
        }
    } else {
        (if named(s.take(i)) {
            seq![s.take(i)]
        } else {
            Seq::empty()
        }) + named_parts(s.skip(i + 1), windows)
    }
}

/// The parts of a path as `std::path::Path` sees them: an empty part standing for the
/// root when the path starts with a separator, then its named parts (repeated
/// separators and `.` parts are passed over).
pub open spec fn path_parts(s: Seq<char>, windows: bool) -> Seq<Seq<char>> {
    (if s.len() > 0 && is_sep(s[0], windows) {
        seq![Seq::<char>::empty()]
    } else {
        Seq::empty()
    }) + named_parts(s, windows)
}

/// The parts of the folder a file lies in: all but the last part; the path itself when
/// it has no parent (it is empty or a root).
pub open spec fn parent_parts(s: Seq<char>, windows: bool) -> Seq<Seq<char>> {
    let ps = path_parts(s, windows);
    if ps.len() == 0 || ps.last().len() == 0 {
        ps
    } else {
        ps.drop_last()
    }
}

/// `s` with every `\` turned into `/`.
pub open spec fn forward_slashes(s: Seq<char>) -> Seq<char> {
    s.map_values(|c: char| if c == '\\' { '/' } else { c })
}

/// The path of a folder as it is stored when the folder is added: every `\` becomes
/// `/`, nothing else changes.
pub fn normalize_folder_path(path: &str) -> (r: String)
    ensures
        r@ == forward_slashes(path@),
        r@.len() == path@.len(),
        forall|i: int| 0 <= i < path@.len() ==> (#[trigger] r@[i] == if path@[i] == '\\' { '/' } else { path@[i] }),
{
    forward_slashes_of(path)
}

/// `s` without trailing `/`.
pub open spec fn trim_end_slashes(s: Seq<char>) -> Seq<char>
    decreases s.len(),
{
    if s.len() > 0 && s.last() == '/' {
        trim_end_slashes(s.drop_last())
    } else {
        s
    }
}

/// The folder of the file at `path` relative to the scanned `root`, `/`-separated with
/// no trailing `/`; empty when the file lies directly in the root, or when its folder
/// is not inside the root.
pub open spec fn rel_dir(root: Seq<char>, path: Seq<char>, windows: bool) -> Seq<char> {
    let rp = path_parts(root, windows);
    let pp = parent_parts(path, windows);
    if rp.len() <= pp.len() && pp.take(rp.len() as int) == rp {
        trim_end_slashes(forward_slashes(join(pp.skip(rp.len() as int), '/')))
    } else {
        Seq::empty()
    }
}

/// Index of the first separator in `chars[from..]`, counted from the start of `chars`.
fn next_sep(chars: &Vec<char>, from: usize, windows: bool) -> (r: Option<usize>)
    requires
        from <= chars@.len(),
    ensures
        match r {
            Some(j) => from <= j < chars@.len() && j - from == first_sep(
                chars@.subrange(from as int, chars@.len() as int),
                windows,
            ),
            None => first_sep(chars@.subrange(from as int, chars@.len() as int), windows) == -1,
        },
{
    let n = chars.len();
    let mut k: usize = from;
    while k < n
        invariant
            n == chars@.len(),
            from <= k <= n,
            first_sep(chars@.subrange(from as int, n as int), windows) == (if first_sep(
                chars@.subrange(k as int, n as int),
                windows,
            ) < 0 {
                -1
            } else {
                first_sep(chars@.subrange(k as int, n as int), windows) + (k - from)
            }),
        decreases n - k,
    {
        let c = chars[k];
        assert(chars@.subrange(k as int, n as int)[0] == c);
        if c == '/' || (windows && c == '\\') {
            return Some(k);
        }
        assert(chars@.subrange(k as int, n as int).drop_first() =~= chars@.subrange(k + 1, n as int));
        k = k + 1;
    }
    None
}

/// Whether `chars[a..b]` is a named part.
fn is_named(chars: &Vec<char>, a: usize, b: usize) -> (r: bool)
    requires
        a <= b <= chars@.len(),
    ensures
        r == named(chars@.subrange(a as int, b as int)),
{
    let ghost p = chars@.subrange(a as int, b as int);
    if a == b {
        return false;
    }
    if b - a == 1 && chars[a] == '.' {
        assert(p =~= seq!['.']);
        return false;
    }
    proof {
        if b - a == 1 {
            assert(p[0] == chars@[a as int]);
        } else {
            assert(p.len() != seq!['.'].len());
        }
    }
    true
}

/// The parts of `s` as `path_parts` gives them.
pub fn path_parts_of(s: &str, windows: bool) -> (r: Vec<String>)
    ensures
        names_view(r@) == path_parts(s@, windows),
{
    let chars = chars_of(s);
    let n = chars.len();
    let mut out: Vec<String> = Vec::new();
    if n > 0 && (chars[0] == '/' || (windows && chars[0] == '\\')) {
        out.push(String::new());
    }
    let ghost lead = names_view(out@);
    let mut start: usize = 0;
    proof {
        assert(chars@.subrange(0, n as int) =~= s@);
        assert(names_view(out@) =~= lead + Seq::<Seq<char>>::empty());
    }
    loop
        invariant_except_break
            n == chars@.len(),
            chars@ == s@,
            start <= n,
            lead + named_parts(s@, windows) == names_view(out@) + named_parts(
                chars@.subrange(start as int, n as int),
                windows,
            ),
        invariant
            lead == (if s@.len() > 0 && is_sep(s@[0], windows) {
                seq![Seq::<char>::empty()]
            } else {
                Seq::<Seq<char>>::empty()
            }),
        ensures
            lead + named_parts(s@, windows) == names_view(out@),
        decreases n - start,
    {
        let ghost rest = chars@.subrange(start as int, n as int);
        proof {
            lemma_first_sep(rest, windows);
        }
        let j = next_sep(&chars, start, windows);
        let end: usize = match j {
            Some(j) => j,
            None => n,
        };
        proof {
            if j is Some {
                assert(rest.take(end - start) =~= chars@.subrange(start as int, end as int));
                assert(rest.skip(end - start + 1) =~= chars@.subrange(end + 1, n as int));
            } else {
                assert(rest =~= chars@.subrange(start as int, end as int));
            }
        }
        let ghost before = names_view(out@);
        if is_named(&chars, start, end) {
            out.push(String::from_str(s.substring_char(start, end)));
            assert(names_view(out@) =~= before.push(chars@.subrange(start as int, end as int)));
        }
        match j {
            None => {
                proof {
                    if named(chars@.subrange(start as int, end as int)) {
                        assert(names_view(out@) =~= before + seq![rest]);
                    } else {
                        assert(names_view(out@) =~= before + Seq::<Seq<char>>::empty());
                    }
                }
                break;
            },
            Some(jj) => {
                proof {
                    let piece = chars@.subrange(start as int, end as int);
                    let tail = named_parts(chars@.subrange(jj + 1, n as int), windows);
                    if named(piece) {
                        assert(before + (seq![piece] + tail) =~= names_view(out@) + tail);
                    } else {
                        assert(before + (Seq::<Seq<char>>::empty() + tail) =~= names_view(out@) + tail);
                    }
                }
                start = jj + 1;
            },
        }
    }
    proof {
        assert(names_view(out@) == path_parts(s@, windows));
    }
    out
}

/// `parts[from..to]` joined with `/`.
fn join_slash(parts: &Vec<String>, from: usize, to: usize) -> (r: String)
    requires
        from <= to <= parts@.len(),
    ensures
        r@ == join(names_view(parts@).subrange(from as int, to as int), '/'),
{
    let slash = "/";
    proof {
        reveal_strlit("/");
    }
    let mut out = String::new();
    let mut k: usize = from;
    proof {
        assert(names_view(parts@).subrange(from as int, from as int) =~= Seq::<Seq<char>>::empty());
    }
    while k < to
        invariant
            from <= k <= to <= parts@.len(),
            slash@ == seq!['/'],
            out@ == join(names_view(parts@).subrange(from as int, k as int), '/'),
        decreases to - k,
    {
        let ghost ps = names_view(parts@).subrange(from as int, k + 1);
        proof {
            assert(ps.drop_last() =~= names_view(parts@).subrange(from as int, k as int));
            assert(ps.last() == parts@[k as int]@);
        }
        if k == from {
            out = String::from_str(parts[k].as_str());
        } else {
            out = out.concat(slash).concat(parts[k].as_str());
        }
        k = k + 1;
    }
    out
}

/// `s` with every `\` turned into `/`.
fn forward_slashes_of(s: &str) -> (r: String)
    ensures
        r@ == forward_slashes(s@),
{
    let chars = chars_of(s);
    let n = chars.len();
    let slash = "/";
    proof {
        reveal_strlit("/");
    }
    let mut out = String::new();
    let mut run: usize = 0;
    let mut k: usize = 0;
    proof {
        assert(forward_slashes(s@.subrange(0, 0)) =~= Seq::<char>::empty());
    }
    while k < n
        invariant
            n == chars@.len(),
            chars@ == s@,
            slash@ == seq!['/'],
            run <= k <= n,
            out@ == forward_slashes(s@.subrange(0, run as int)),
            forall|j: int| run <= j < k ==> s@[j] != '\\',
        decreases n - k,
    {
        if chars[k] == '\\' {
            let piece = s.substring_char(run, k);
            out = out.concat(piece).concat(slash);
            proof {
                assert(forward_slashes(s@.subrange(0, k + 1)) =~= forward_slashes(s@.subrange(0, run as int))
                    + s@.subrange(run as int, k as int) + seq!['/']);
            }
            run = k + 1;
        }
        k = k + 1;
    }
    let tail = s.substring_char(run, n);
    let r = out.concat(tail);
    proof {
        assert(s@.subrange(0, n as int) =~= s@);
        assert(forward_slashes(s@) =~= forward_slashes(s@.subrange(0, run as int)) + s@.subrange(run as int, n as int));
    }
    r
}

/// `s` without trailing `/`.
fn trim_end_slashes_of(s: &str) -> (r: String)
    ensures
        r@ == trim_end_slashes(s@),
{
    let chars = chars_of(s);
    let mut end: usize = chars.len();
    proof {
        assert(s@.subrange(0, end as int) =~= s@);
    }
    while end > 0 && chars[end - 1] == '/'
        invariant
            chars@ == s@,
            end <= chars@.len(),
            trim_end_slashes(s@) == trim_end_slashes(s@.subrange(0, end as int)),
        decreases end,
    {
        assert(s@.subrange(0, end as int).drop_last() =~= s@.subrange(0, end - 1));
        end = end - 1;
    }
    proof {
        if end > 0 {
            assert(s@.subrange(0, end as int).last() == chars@[end - 1]);
        }
    }
    String::from_str(s.substring_char(0, end))
}

/// The folder of the file at `path` relative to the scanned `root`, as `rel_dir` says.
pub fn compute_rel_path(root: &str, path: &str, windows: bool) -> (r: String)
    ensures
        r@ == rel_dir(root@, path@, windows),
{
    let rp = path_parts_of(root, windows);
    let pp = path_parts_of(path, windows);
    let m: usize = if pp.len() == 0 || pp[pp.len() - 1].as_str().unicode_len() == 0 {
        pp.len()
    } else {
        pp.len() - 1
    };
    let ghost parent = parent_parts(path@, windows);
    proof {
        if pp@.len() > 0 {
            assert(names_view(pp@).last() == pp@[pp@.len() - 1]@);
        }
        assert(parent =~= names_view(pp@).take(m as int));
    }
    if rp.len() > m {
        return String::new();
    }
    let mut i: usize = 0;
    while i < rp.len()
        invariant
            rp@.len() <= m <= pp@.len(),
            i <= rp@.len(),
            parent == names_view(pp@).take(m as int),
            parent == parent_parts(path@, windows),
            names_view(rp@) == path_parts(root@, windows),
            forall|k: int| 0 <= k < i ==> names_view(rp@)[k] == parent[k],
        decreases rp@.len() - i,
    {
        if !str_eq(rp[i].as_str(), pp[i].as_str()) {
            proof {
                assert(names_view(rp@)[i as int] != parent[i as int]);
                assert(parent.take(rp@.len() as int)[i as int] == parent[i as int]);
                assert(parent.take(rp@.len() as int) != names_view(rp@));
                assert(path_parts(root@, windows) == names_view(rp@));
            }
            return String::new();
        }
        i = i + 1;
    }
    proof {
        assert(parent.take(rp@.len() as int) =~= names_view(rp@));
        assert(parent.skip(rp@.len() as int) =~= names_view(pp@).subrange(rp@.len() as int, m as int));
    }
    let joined = join_slash(&pp, rp.len(), m);
    let forward = forward_slashes_of(joined.as_str());
    trim_end_slashes_of(forward.as_str())
}

/// What a scan makes of one file.
pub enum FileFinding {
    /// Nothing the scan indexes.
    Skip,
    /// A media file.
    Asset(DiscoveredAsset),
    /// An archive whose entries are listed next.
    Archive { rel_path: String, zip_filename: String },
}

/// The asset type of a file the scan indexes, by its extension.
pub open spec fn file_asset_type(path: Seq<char>, windows: bool) -> Option<AssetType> {
    match name_ext(path, windows) {
        Some(x) => if is_image_ext(x) {
            Some(AssetType::Image)
        } else if is_audio_ext(x) {
            Some(AssetType::Audio)
        } else {
            None
        },
        None => None,
    }
}

/// `f` is what a scan of `root` makes of the file at `path` of `size` bytes, modified at
/// `modified` (seconds since the epoch), in folder `folder_id` with search exclusion keys
/// `excludes`.
pub open spec fn file_finding(
    f: FileFinding,
    root: Seq<char>,
    path: Seq<char>,
    folder_id: i64,
    size: u64,
    modified: i64,
    excludes: Seq<Seq<char>>,
    windows: bool,
) -> bool {
    let rel = rel_dir(root, path, windows);
    match file_asset_type(path, windows) {
        Some(t) => f matches FileFinding::Asset(a) && {
            &&& file_name_of(path, windows) == Some(a.filename@)
            &&& a.folder_id == folder_id
            &&& a.rel_path@ == rel
            &&& a.zip_file is None
            &&& a.zip_entry is None
            &&& a.zip_compression is None
            &&& a.searchable_path@ == searchable_text(rel, None, None, excludes)
            &&& name_ext(path, windows) == Some(a.format@)
            &&& a.asset_type == t
            &&& a.file_size == size as i64
            &&& a.fs_modified_at == modified
        },
        None => if name_ext(path, windows) == Some(zip_ext()) {
            f matches FileFinding::Archive { rel_path, zip_filename } && rel_path@ == rel
                && file_name_of(path, windows) == Some(zip_filename@)
        } else {
            f is Skip
        },
    }
}

/// What a scan of `root` makes of the file at `path`: hidden files and macOS metadata
/// files (names starting with `.`) are passed over; an indexed image or audio type by
/// lower-cased extension is an asset, recorded with its folder relative to the root;
/// extension `zip` (any case) is an archive to list; anything else is passed over.
pub fn classify_file(
    root: &str,
    path: &str,
    folder_id: i64,
    size: u64,
    modified: i64,
    excludes: &Vec<String>,
    windows: bool,
) -> (r: FileFinding)
    ensures
        file_finding(r, root@, path@, folder_id, size, modified, names_view(excludes@), windows),
{
    match name_kind(path, windows) {
        None => FileFinding::Skip,
        Some((a, b, t)) => {
            let zip_lit = "zip";
            proof {
                reveal_strlit("zip");
                assert(zip_lit@ =~= zip_ext());
            }
            let rel_path = compute_rel_path(root, path, windows);
            let filename = String::from_str(path.substring_char(a, b));
            if str_eq(t, zip_lit) {
                proof {
                    assert(!is_image_ext(t@) && !is_audio_ext(t@));
                }
                FileFinding::Archive { rel_path, zip_filename: filename }
            } else {
                let searchable_path = compute_searchable_path(rel_path.as_str(), None, None, excludes);
                let asset_type = match detect_asset_type_from_ext(t) {
                    Some(x) => x,
                    None => AssetType::Image,
                };
                FileFinding::Asset(
                    DiscoveredAsset {
                        filename,
                        folder_id,
                        rel_path,
                        zip_file: None,
                        zip_entry: None,
                        zip_compression: None,
                        searchable_path,
                        format: String::from_str(t),
                        asset_type,
                        file_size: size as i64,
                        fs_modified_at: modified,
                    },
                )
            }
        },
    }
}

} // verus!
