//! What a scan makes of the entries of a ZIP archive: which are media assets, which are
//! archives to descend into, and which are passed over.

use vstd::prelude::*;
use vstd::string::StrSliceExecFns;
use crate::models::{AssetType, ascii_lower_char, matches_ignoring_case, matches_name};
use crate::scan::{DiscoveredAsset, searchable_text, is_image_ext, is_audio_ext, detect_asset_type_from_ext,
    compute_searchable_path};
use crate::grouping::names_view;
use crate::text::{chars_of, str_eq, zip_sep_at, no_zip_sep_in, lemma_first_zip_boundary_at, lemma_zip_sep_in_part};
use crate::archive::{zip_entry_content, nested_entry_content, utf8_text};
use vstd::utf8::encode_utf8;

verus! {

/// `c` separates the parts of a path: `/` always, `\` too on Windows.
pub open spec fn is_sep(c: char, windows: bool) -> bool {
    c == '/' || (windows && c == '\\')
}

/// Index of the last separator in `s`, or -1.
pub open spec fn last_sep(s: Seq<char>, windows: bool) -> int
    decreases s.len(),
{
    if s.len() == 0 {
        -1
    } else if is_sep(s.last(), windows) {
        s.len() - 1
    } else {
        last_sep(s.drop_last(), windows)
    }
}

pub proof fn lemma_last_sep(s: Seq<char>, windows: bool)
    ensures
        -1 <= last_sep(s, windows) < s.len(),
        last_sep(s, windows) >= 0 ==> is_sep(s[last_sep(s, windows)], windows),
        forall|k: int| last_sep(s, windows) < k < s.len() ==> !is_sep(#[trigger] s[k], windows),
    decreases s.len(),
{
    if s.len() > 0 && !is_sep(s.last(), windows) {
        lemma_last_sep(s.drop_last(), windows);
        assert forall|k: int| last_sep(s, windows) < k < s.len() implies !is_sep(#[trigger] s[k], windows) by {
            if k < s.len() - 1 {
                assert(s.drop_last()[k] == s[k]);
            }
        }
    }
}

/// The last part of `s` that names something: the text after the last separator, passing
/// over empty parts and `.` parts; `None` when no such part is left.
pub open spec fn last_part(s: Seq<char>, windows: bool) -> Option<Seq<char>>
    decreases s.len(),
{
    let i = last_sep(s, windows);
    proof {
        lemma_last_sep(s, windows);
    }
    let piece = s.subrange(i + 1, s.len() as int);
    if piece.len() == 0 || piece == seq!['.'] {
        if i < 0 {
            None
        } else {
            last_part(s.subrange(0, i), windows)
        }
    } else {
        Some(piece)
    }
}

/// The file name of a path, as `std::path::Path::file_name` gives it: its last named
/// part, unless that part is `..`.
pub open spec fn file_name_of(s: Seq<char>, windows: bool) -> Option<Seq<char>> {
    match last_part(s, windows) {
        Some(p) => if p == seq!['.', '.'] {
            None
        } else {
            Some(p)
        },
        None => None,
    }
}

/// Index of the last `.` in `s`, or -1.
pub open spec fn last_dot(s: Seq<char>) -> int
    decreases s.len(),
{
    if s.len() == 0 {
        -1
    } else if s.last() == '.' {
        s.len() - 1
    } else {
        last_dot(s.drop_last())
    }
}

pub proof fn lemma_last_dot(s: Seq<char>)
    ensures
        -1 <= last_dot(s) < s.len(),
        last_dot(s) >= 0 ==> s[last_dot(s)] == '.',
        forall|k: int| last_dot(s) < k < s.len() ==> #[trigger] s[k] != '.',
    decreases s.len(),
{
    if s.len() > 0 && s.last() != '.' {
        lemma_last_dot(s.drop_last());
        assert forall|k: int| last_dot(s) < k < s.len() implies #[trigger] s[k] != '.' by {
            if k < s.len() - 1 {
                assert(s.drop_last()[k] == s[k]);
            }
        }
    }
}

/// The extension of a file name, as `Path::extension` gives it: what follows the last
/// `.`, when something comes before that dot.
pub open spec fn extension_of(f: Seq<char>) -> Option<Seq<char>> {
    let d = last_dot(f);
    if d <= 0 {
        None
    } else {
        Some(f.subrange(d + 1, f.len() as int))
    }
}

/// `s` with ASCII capitals made small.
pub open spec fn ascii_lower(s: Seq<char>) -> Seq<char> {
    s.map_values(|c: char| ascii_lower_char(c))
}

/// Index of the last separator in `chars[..end]`.
fn last_sep_before(chars: &Vec<char>, end: usize, windows: bool) -> (r: Option<usize>)
    requires
        end <= chars@.len(),
    ensures
        match r {
            Some(i) => i as int == last_sep(chars@.subrange(0, end as int), windows),
            None => last_sep(chars@.subrange(0, end as int), windows) == -1,
        },
{
    let mut k: usize = end;
    while k > 0
        invariant
            k <= end <= chars@.len(),
            last_sep(chars@.subrange(0, end as int), windows) == last_sep(chars@.subrange(0, k as int), windows),
        decreases k,
    {
        let c = chars[k - 1];
        let s = c == '/' || (windows && c == '\\');
        assert(chars@.subrange(0, k as int).last() == chars@[k - 1]);
        if s {
            return Some(k - 1);
        }
        assert(chars@.subrange(0, k as int).drop_last() =~= chars@.subrange(0, k - 1));
        k = k - 1;
    }
    None
}

/// Whether `chars[a..b]` is exactly `.`.
fn is_dot_part(chars: &Vec<char>, a: usize, b: usize) -> (r: bool)
    requires
        a <= b <= chars@.len(),
    ensures
        r == (chars@.subrange(a as int, b as int) == seq!['.']),
{
    if b - a == 1 && chars[a] == '.' {
        assert(chars@.subrange(a as int, b as int) =~= seq!['.']);
        true
    } else {
        if b - a == 1 {
            assert(chars@.subrange(a as int, b as int)[0] == chars@[a as int]);
        } else {
            assert(chars@.subrange(a as int, b as int).len() != seq!['.'].len());
        }
        false
    }
}

/// The character range of the file name of `chars`, if it has one.
fn file_name_range(chars: &Vec<char>, windows: bool) -> (r: Option<(usize, usize)>)
    ensures
        match r {
            Some((a, b)) => a <= b <= chars@.len() && file_name_of(chars@, windows) == Some(
                chars@.subrange(a as int, b as int),
            ),
            None => file_name_of(chars@, windows) is None,
        },
{
    let mut end: usize = chars.len();
    assert(chars@.subrange(0, end as int) =~= chars@);
    loop
        invariant
            end <= chars@.len(),
            last_part(chars@, windows) == last_part(chars@.subrange(0, end as int), windows),
        decreases end,
    {
        let ghost s = chars@.subrange(0, end as int);
        let i = last_sep_before(chars, end, windows);
        proof {
            lemma_last_sep(s, windows);
        }
        let start: usize = match i {
            Some(j) => j + 1,
            None => 0,
        };
        proof {
            assert(s.subrange(start as int, s.len() as int) =~= chars@.subrange(start as int, end as int));
        }
        if start == end || is_dot_part(chars, start, end) {
            match i {
                None => {
                    return None;
                },
                Some(j) => {
                    assert(s.subrange(0, j as int) =~= chars@.subrange(0, j as int));
                    end = j;
                },
            }
        } else {
            let two = end - start == 2 && chars[start] == '.' && chars[start + 1] == '.';
            proof {
                let p = chars@.subrange(start as int, end as int);
                if p =~= seq!['.', '.'] {
                    assert(p[0] == chars@[start as int]);
                    assert(p[1] == chars@[start + 1]);
                }
                if two {
                    assert(p =~= seq!['.', '.']);
                } else if end - start != 2 {
                    assert(p.len() != seq!['.', '.'].len());
                }
            }
            if two {
                return None;
            }
            return Some((start, end));
        }
    }
}

/// Index of the last `.` in `chars[a..b]`, counted from `a`.
pub(crate) fn last_dot_in(chars: &Vec<char>, a: usize, b: usize) -> (r: Option<usize>)
    requires
        a <= b <= chars@.len(),
    ensures
        match r {
            Some(d) => d as int == last_dot(chars@.subrange(a as int, b as int)),
            None => last_dot(chars@.subrange(a as int, b as int)) == -1,
        },
{
    let mut k: usize = b;
    while k > a
        invariant
            a <= k <= b <= chars@.len(),
            last_dot(chars@.subrange(a as int, b as int)) == last_dot(chars@.subrange(a as int, k as int)),
        decreases k,
    {
        assert(chars@.subrange(a as int, k as int).last() == chars@[k - 1]);
        if chars[k - 1] == '.' {
            return Some(k - 1 - a);
        }
        assert(chars@.subrange(a as int, k as int).drop_last() =~= chars@.subrange(a as int, k - 1));
        k = k - 1;
    }
    assert(chars@.subrange(a as int, k as int).len() == 0);
    None
}

/// The name a scan records for a ZIP compression method code.
pub open spec fn compression_name(code: u16) -> Seq<char> {
    if code == 0 {
        seq!['s', 't', 'o', 'r', 'e']
    } else if code == 8 {
        seq!['d', 'e', 'f', 'l', 'a', 't', 'e']
    } else if code == 9 {
        seq!['d', 'e', 'f', 'l', 'a', 't', 'e', '6', '4']
    } else if code == 12 {
        seq!['b', 'z', 'i', 'p', '2']
    } else if code == 93 {
        seq!['z', 's', 't', 'd']
    } else if code == 14 {
        seq!['l', 'z', 'm', 'a']
    } else {
        seq!['u', 'n', 'k', 'n', 'o', 'w', 'n']
    }
}

/// The name of a ZIP compression method, by its code in the archive: stored, deflate,
/// deflate64, bzip2, zstd and lzma by name, any other method as unknown.
pub fn compression_method_str(code: u16) -> (r: &'static str)
    ensures
        r@ == compression_name(code),
{
    if code == 0 {
        proof {
            reveal_strlit("store");
        }
        "store"
    } else if code == 8 {
        proof {
            reveal_strlit("deflate");
        }
        "deflate"
    } else if code == 9 {
        proof {
            reveal_strlit("deflate64");
        }
        "deflate64"
    } else if code == 12 {
        proof {
            reveal_strlit("bzip2");
        }
        "bzip2"
    } else if code == 93 {
        proof {
            reveal_strlit("zstd");
        }
        "zstd"
    } else if code == 14 {
        proof {
            reveal_strlit("lzma");
        }
        "lzma"
    } else {
        proof {
            reveal_strlit("unknown");
        }
        "unknown"
    }
}

/// One entry of a ZIP archive's directory, as a scan reads it.
pub struct ZipEntryInfo {
    pub name: String,
    /// Uncompressed size.
    pub size: u64,
    /// The compression method's code in the archive (0 stored, 8 deflate, ...).
    pub method: u16,
    pub is_dir: bool,
}

/// The extension `zip`.
pub open spec fn zip_ext() -> Seq<char> {
    seq!['z', 'i', 'p']
}

/// The lower-cased extension of a path that a scan looks at; `None` for hidden files and
/// macOS metadata files (file names starting with `.`, which includes `._`), and for
/// files without an extension.
pub open spec fn name_ext(name: Seq<char>, windows: bool) -> Option<Seq<char>> {
    match file_name_of(name, windows) {
        Some(f) => if f.len() > 0 && f[0] == '.' {
            None
        } else {
            match extension_of(f) {
                Some(x) => Some(ascii_lower(x)),
                None => None,
            }
        },
        None => None,
    }
}

/// The lower-cased extension of an entry that a scan looks at: `name_ext` of its name,
/// and `None` for directories.
pub open spec fn entry_ext(e: ZipEntryInfo, windows: bool) -> Option<Seq<char>> {
    if e.is_dir {
        None
    } else {
        name_ext(e.name@, windows)
    }
}

/// The entry is an archive to descend into.
pub open spec fn is_nested_zip(e: ZipEntryInfo, windows: bool) -> bool {
    entry_ext(e, windows) == Some(zip_ext())
}

/// The asset type of an entry, when it is a media file the scan indexes.
pub open spec fn entry_asset_type(e: ZipEntryInfo, windows: bool) -> Option<AssetType> {
    match entry_ext(e, windows) {
        Some(x) => if is_image_ext(x) {
            Some(AssetType::Image)
        } else if is_audio_ext(x) {
            Some(AssetType::Audio)
        } else {
            None
        },
        None => None,
    }
}

/// Whether `ext` lower-cased is `name`.
fn lower_eq(ext: &Vec<char>, name: &[char]) -> (r: bool)
    ensures
        r == (ascii_lower(ext@) == name@),
{
    let m = matches_name(ext, name);
    proof {
        if m {
            assert(ascii_lower(ext@) =~= name@);
        } else if ascii_lower(ext@) == name@ {
            assert forall|i: int| 0 <= i < ext@.len() implies #[trigger] ascii_lower_char(ext@[i]) == name@[i] by {
                assert(ascii_lower(ext@)[i] == ascii_lower_char(ext@[i]));
            }
            assert(matches_ignoring_case(ext@, name@));
        }
    }
    m
}

/// The lower-cased extension, when it is `zip` or one the scan indexes.
fn known_ext(ext: &Vec<char>) -> (r: Option<&'static str>)
    ensures
        match r {
            Some(t) => t@ == ascii_lower(ext@) && (t@ == zip_ext() || is_image_ext(t@) || is_audio_ext(t@)),
            None => !(ascii_lower(ext@) == zip_ext() || is_image_ext(ascii_lower(ext@)) || is_audio_ext(
                ascii_lower(ext@),
            )),
        },
{
    let zip = ['z', 'i', 'p'];
    let png = ['p', 'n', 'g'];
    let jpg = ['j', 'p', 'g'];
    let jpeg = ['j', 'p', 'e', 'g'];
    let webp = ['w', 'e', 'b', 'p'];
    let gif = ['g', 'i', 'f'];
    let bmp = ['b', 'm', 'p'];
    let mp3 = ['m', 'p', '3'];
    let wav = ['w', 'a', 'v'];
    let ogg = ['o', 'g', 'g'];
    let flac = ['f', 'l', 'a', 'c'];
    let m4a = ['m', '4', 'a'];
    let aac = ['a', 'a', 'c'];
    proof {
        assert(zip@ =~= zip_ext());
        assert(png@ =~= seq!['p', 'n', 'g']);
        assert(jpg@ =~= seq!['j', 'p', 'g']);
        assert(jpeg@ =~= seq!['j', 'p', 'e', 'g']);
        assert(webp@ =~= seq!['w', 'e', 'b', 'p']);
        assert(gif@ =~= seq!['g', 'i', 'f']);
        assert(bmp@ =~= seq!['b', 'm', 'p']);
        assert(mp3@ =~= seq!['m', 'p', '3']);
        assert(wav@ =~= seq!['w', 'a', 'v']);
        assert(ogg@ =~= seq!['o', 'g', 'g']);
        assert(flac@ =~= seq!['f', 'l', 'a', 'c']);
        assert(m4a@ =~= seq!['m', '4', 'a']);
        assert(aac@ =~= seq!['a', 'a', 'c']);
    }
    if lower_eq(ext, zip.as_slice()) {
        proof {
            reveal_strlit("zip");
            assert("zip"@ =~= zip@);
        }
        Some("zip")
    } else if lower_eq(ext, png.as_slice()) {
        proof {
            reveal_strlit("png");
            assert("png"@ =~= png@);
        }
        Some("png")
    } else if lower_eq(ext, jpg.as_slice()) {
        proof {
            reveal_strlit("jpg");
            assert("jpg"@ =~= jpg@);
        }
        Some("jpg")
    } else if lower_eq(ext, jpeg.as_slice()) {
        proof {
            reveal_strlit("jpeg");
            assert("jpeg"@ =~= jpeg@);
        }
        Some("jpeg")
    } else if lower_eq(ext, webp.as_slice()) {
        proof {
            reveal_strlit("webp");
            assert("webp"@ =~= webp@);
        }
        Some("webp")
    } else if lower_eq(ext, gif.as_slice()) {
        proof {
            reveal_strlit("gif");
            assert("gif"@ =~= gif@);
        }
        Some("gif")
    } else if lower_eq(ext, bmp.as_slice()) {
        proof {
            reveal_strlit("bmp");
            assert("bmp"@ =~= bmp@);
        }
        Some("bmp")
    } else if lower_eq(ext, mp3.as_slice()) {
        proof {
            reveal_strlit("mp3");
            assert("mp3"@ =~= mp3@);
        }
        Some("mp3")
    } else if lower_eq(ext, wav.as_slice()) {
        proof {
            reveal_strlit("wav");
            assert("wav"@ =~= wav@);
        }
        Some("wav")
    } else if lower_eq(ext, ogg.as_slice()) {
        proof {
            reveal_strlit("ogg");
            assert("ogg"@ =~= ogg@);
        }
        Some("ogg")
    } else if lower_eq(ext, flac.as_slice()) {
        proof {
            reveal_strlit("flac");
            assert("flac"@ =~= flac@);
        }
        Some("flac")
    } else if lower_eq(ext, m4a.as_slice()) {
        proof {
            reveal_strlit("m4a");
            assert("m4a"@ =~= m4a@);
        }
        Some("m4a")
    } else if lower_eq(ext, aac.as_slice()) {
        proof {
            reveal_strlit("aac");
            assert("aac"@ =~= aac@);
        }
        Some("aac")
    } else {
        None
    }
}

/// `chars[a..b]` as a vector.
pub(crate) fn sub_chars(chars: &Vec<char>, a: usize, b: usize) -> (r: Vec<char>)
    requires
        a <= b <= chars@.len(),
    ensures
        r@ == chars@.subrange(a as int, b as int),
{
    let mut out: Vec<char> = Vec::new();
    let mut k: usize = a;
    while k < b
        invariant
            a <= k <= b <= chars@.len(),
            out@ == chars@.subrange(a as int, k as int),
        decreases b - k,
    {
        out.push(chars[k]);
        assert(chars@.subrange(a as int, k + 1) =~= chars@.subrange(a as int, k as int).push(chars@[k as int]));
        k = k + 1;
    }
    out
}

/// How a scan takes a path: the range of its file name and its lower-cased extension,
/// when that is `zip` or an indexed media type.
pub fn name_kind(name: &str, windows: bool) -> (r: Option<(usize, usize, &'static str)>)
    ensures
        match r {
            Some((a, b, t)) => a <= b <= name@.len()
                && file_name_of(name@, windows) == Some(name@.subrange(a as int, b as int))
                && name_ext(name@, windows) == Some(t@)
                && (t@ == zip_ext() || is_image_ext(t@) || is_audio_ext(t@)),
            None => match name_ext(name@, windows) {
                Some(x) => !(x == zip_ext() || is_image_ext(x) || is_audio_ext(x)),
                None => true,
            },
        },
{
    let chars = chars_of(name);
    let fr = file_name_range(&chars, windows);
    match fr {
        None => None,
        Some((fa, fb)) => {
            let ghost f = chars@.subrange(fa as int, fb as int);
            if fb > fa && chars[fa] == '.' {
                assert(f[0] == chars@[fa as int]);
                return None;
            }
            proof {
                if f.len() > 0 {
                    assert(f[0] == chars@[fa as int]);
                }
                lemma_last_dot(f);
            }
            match last_dot_in(&chars, fa, fb) {
                None => None,
                Some(d) => {
                    if d == 0 {
                        return None;
                    }
                    let x = sub_chars(&chars, fa + d + 1, fb);
                    assert(x@ =~= f.subrange(d + 1, f.len() as int));
                    match known_ext(&x) {
                        None => None,
                        Some(t) => Some((fa, fb, t)),
                    }
                },
            }
        },
    }
}

/// How a scan takes one entry: `name_kind` of its name; nothing for a directory.
fn entry_kind(e: &ZipEntryInfo, windows: bool) -> (r: Option<(usize, usize, &'static str)>)
    ensures
        match r {
            Some((a, b, t)) => a <= b <= e.name@.len()
                && file_name_of(e.name@, windows) == Some(e.name@.subrange(a as int, b as int))
                && entry_ext(*e, windows) == Some(t@)
                && (t@ == zip_ext() || is_image_ext(t@) || is_audio_ext(t@)),
            None => !is_nested_zip(*e, windows) && entry_asset_type(*e, windows) is None,
        },
{
    if e.is_dir {
        return None;
    }
    name_kind(e.name.as_str(), windows)
}

/// Where the entries of one archive come from, and what their assets record.
pub struct ZipSource {
    pub folder_id: i64,
    /// Folder of the outer archive, relative to the scanned root.
    pub rel_path: String,
    /// File name of the outer archive.
    pub zip_filename: String,
    /// Modification time of the outer archive.
    pub zip_mtime: i64,
    /// Path of this archive inside the outer one, through nested archives, joined with
    /// `/`; empty for the outer archive itself.
    pub cache_path: String,
    /// What this archive's entries are prefixed with in their `zip_entry`: the nested
    /// archives above it, each followed by `/`.
    pub prefix: String,
}

/// An archive found inside another, to be scanned in turn.
pub struct NestedZip {
    /// Its path inside the outer archive, through nested archives.
    pub cache_path: String,
    /// Its uncompressed size.
    pub size: u64,
    /// The prefix its own entries get.
    pub prefix: String,
}

/// What the entries of one archive give: media assets and archives to descend into, each
/// in the order of the archive's directory.
pub struct ZipListing {
    pub assets: Vec<DiscoveredAsset>,
    pub nested: Vec<NestedZip>,
}

/// The entries of `es` that are indexed media files, in order.
pub open spec fn asset_entries(es: Seq<ZipEntryInfo>, windows: bool) -> Seq<ZipEntryInfo>
    decreases es.len(),
{
    if es.len() == 0 {
        Seq::empty()
    } else {
        let r = asset_entries(es.drop_last(), windows);
        if entry_asset_type(es.last(), windows) is Some {
            r.push(es.last())
        } else {
            r
        }
    }
}

/// The entries of `es` that are archives to descend into, in order.
pub open spec fn nested_entries(es: Seq<ZipEntryInfo>, windows: bool) -> Seq<ZipEntryInfo>
    decreases es.len(),
{
    if es.len() == 0 {
        Seq::empty()
    } else {
        let r = nested_entries(es.drop_last(), windows);
        if is_nested_zip(es.last(), windows) {
            r.push(es.last())
        } else {
            r
        }
    }
}

/// `a` is the asset that entry `e` of the archive `src` describes.
pub open spec fn asset_of_entry(
    a: DiscoveredAsset,
    e: ZipEntryInfo,
    src: ZipSource,
    excludes: Seq<Seq<char>>,
    windows: bool,
) -> bool {
    let entry = src.prefix@ + e.name@;
    &&& file_name_of(e.name@, windows) == Some(a.filename@)
    &&& a.folder_id == src.folder_id
    &&& a.rel_path@ == src.rel_path@
    &&& a.zip_file matches Some(z) && z@ == src.zip_filename@
    &&& a.zip_entry matches Some(p) && p@ == entry
    &&& a.zip_compression matches Some(c) && c@ == compression_name(e.method)
    &&& a.searchable_path@ == searchable_text(src.rel_path@, Some(src.zip_filename@), Some(entry), excludes)
    &&& entry_ext(e, windows) == Some(a.format@)
    &&& entry_asset_type(e, windows) == Some(a.asset_type)
    &&& a.file_size == e.size as i64
    &&& a.fs_modified_at == src.zip_mtime
}

/// `n` is the nested archive that entry `e` of the archive `src` is.
pub open spec fn nested_of_entry(n: NestedZip, e: ZipEntryInfo, src: ZipSource) -> bool {
    &&& n.cache_path@ == (if src.cache_path@.len() == 0 {
        e.name@
    } else {
        src.cache_path@ + seq!['/'] + e.name@
    })
    &&& n.size == e.size
    &&& n.prefix@ == src.prefix@ + e.name@ + seq!['/']
}

/// Goes through the entries of one archive, in order: directories, hidden files and
/// macOS metadata files are passed over; an entry with extension `zip` (any case) is an
/// archive to descend into; an entry whose lower-cased extension is an indexed image or
/// audio type becomes an asset; anything else is passed over. `excludes` holds the
/// folder's search exclusion keys, and `windows` says whether `\` also separates the
/// parts of entry names.
pub fn enumerate_zip_entries(
    entries: &Vec<ZipEntryInfo>,
    src: &ZipSource,
    excludes: &Vec<String>,
    windows: bool,
) -> (r: ZipListing)
    ensures
        r.assets@.len() == asset_entries(entries@, windows).len(),
        forall|i: int|
            0 <= i < r.assets@.len() ==> asset_of_entry(
                #[trigger] r.assets@[i],
                asset_entries(entries@, windows)[i],
                *src,
                names_view(excludes@),
                windows,
            ),
        r.nested@.len() == nested_entries(entries@, windows).len(),
        forall|i: int|
            0 <= i < r.nested@.len() ==> nested_of_entry(
                #[trigger] r.nested@[i],
                nested_entries(entries@, windows)[i],
                *src,
            ),
{
    let mut assets: Vec<DiscoveredAsset> = Vec::new();
    let mut nested: Vec<NestedZip> = Vec::new();
    let zip_lit = "zip";
    let slash = "/";
    proof {
        reveal_strlit("zip");
        reveal_strlit("/");
    }
    let mut i: usize = 0;
    while i < entries.len()
        invariant
            i <= entries@.len(),
            zip_lit@ == zip_ext(),
            slash@ == seq!['/'],
            assets@.len() == asset_entries(entries@.take(i as int), windows).len(),
            forall|k: int|
                0 <= k < assets@.len() ==> asset_of_entry(
                    #[trigger] assets@[k],
                    asset_entries(entries@.take(i as int), windows)[k],
                    *src,
                    names_view(excludes@),
                    windows,
                ),
            nested@.len() == nested_entries(entries@.take(i as int), windows).len(),
            forall|k: int|
                0 <= k < nested@.len() ==> nested_of_entry(
                    #[trigger] nested@[k],
                    nested_entries(entries@.take(i as int), windows)[k],
                    *src,
                ),
        decreases entries@.len() - i,
    {
        let e = &entries[i];
        let ghost before = entries@.take(i as int);
        proof {
            let t = entries@.take(i + 1);
            assert(t.drop_last() =~= before);
            assert(t.last() == entries@[i as int]);
        }
        match entry_kind(e, windows) {
            None => {},
            Some((fa, fb, t)) => {
                if str_eq(t, zip_lit) {
                    let cache_path = if src.cache_path.as_str().unicode_len() == 0 {
                        String::from_str(e.name.as_str())
                    } else {
                        String::from_str(src.cache_path.as_str()).concat(slash).concat(e.name.as_str())
                    };
                    let prefix = String::from_str(src.prefix.as_str()).concat(e.name.as_str()).concat(slash);
                    let n = NestedZip { cache_path, size: e.size, prefix };
                    proof {
                        assert(!(is_image_ext(t@) || is_audio_ext(t@)));
                    }
                    nested.push(n);
                } else {
                    let entry = String::from_str(src.prefix.as_str()).concat(e.name.as_str());
                    let searchable_path = compute_searchable_path(
                        src.rel_path.as_str(),
                        Some(src.zip_filename.as_str()),
                        Some(entry.as_str()),
                        excludes,
                    );
                    let asset_type = match detect_asset_type_from_ext(t) {
                        Some(a) => a,
                        None => AssetType::Image,
                    };
                    let a = DiscoveredAsset {
                        filename: String::from_str(e.name.as_str().substring_char(fa, fb)),
                        folder_id: src.folder_id,
                        rel_path: String::from_str(src.rel_path.as_str()),
                        zip_file: Some(String::from_str(src.zip_filename.as_str())),
                        zip_entry: Some(entry),
                        zip_compression: Some(String::from_str(compression_method_str(e.method))),
                        searchable_path,
                        format: String::from_str(t),
                        asset_type,
                        file_size: e.size as i64,
                        fs_modified_at: src.zip_mtime,
                    };
                    assets.push(a);
                }
            },
        }
        i = i + 1;
    }
    proof {
        assert(entries@.take(i as int) =~= entries@);
    }
    ZipListing { assets, nested }
}

/// Where an archive that could not be read sits, for the scan's warnings: the outer
/// archive's path relative to the scanned root, then the path inside it when the archive
/// is a nested one.
pub open spec fn archive_location(rel_path: Seq<char>, zip_filename: Seq<char>, cache_path: Option<Seq<char>>) -> Seq<char> {
    let outer = if rel_path.len() == 0 {
        zip_filename
    } else {
        rel_path + seq!['/'] + zip_filename
    };
    match cache_path {
        Some(c) => outer + seq!['/'] + c,
        None => outer,
    }
}

/// The location of an archive in a scan warning: `rel_path/zip_filename` (just
/// `zip_filename` at the root), followed by `/cache_path` for a nested archive.
pub fn archive_warning_location(rel_path: &str, zip_filename: &str, cache_path: Option<&str>) -> (r: String)
    ensures
        r@ == archive_location(
            rel_path@,
            zip_filename@,
            match cache_path {
                Some(c) => Some(c@),
                None => None,
            },
        ),
{
    let slash = "/";
    proof {
        reveal_strlit("/");
    }
    let outer = if rel_path.unicode_len() == 0 {
        String::from_str(zip_filename)
    } else {
        String::from_str(rel_path).concat(slash).concat(zip_filename)
    };
    match cache_path {
        Some(c) => outer.concat(slash).concat(c),
        None => outer,
    }
}

/// The prefix that entries of the archive reached along `chain` get: each nested
/// archive's path in its parent, followed by `/`. A nested archive's listing prefix is
/// its parent's prefix, its name and `/` (see `nested_of_entry` and
/// `lemma_chain_prefix_push`).
pub open spec fn chain_prefix(chain: Seq<Seq<char>>) -> Seq<char>
    decreases chain.len(),
{
    if chain.len() == 0 {
        Seq::empty()
    } else {
        chain[0] + seq!['/'] + chain_prefix(chain.drop_first())
    }
}

/// Extending the chain by one nested archive extends the prefix by its name and `/`.
pub proof fn lemma_chain_prefix_push(chain: Seq<Seq<char>>, n: Seq<char>)
    ensures
        chain_prefix(chain.push(n)) == chain_prefix(chain) + n + seq!['/'],
    decreases chain.len(),
{
    if chain.len() == 0 {
        assert(chain.push(n).drop_first() =~= Seq::<Seq<char>>::empty());
        assert(chain.push(n)[0] == n);
        assert(chain_prefix(chain.push(n).drop_first()) =~= Seq::<char>::empty());
        assert(chain_prefix(chain) =~= Seq::<char>::empty());
        assert(chain_prefix(chain.push(n)) =~= n + seq!['/']);
    } else {
        assert(chain.push(n).drop_first() =~= chain.drop_first().push(n));
        lemma_chain_prefix_push(chain.drop_first(), n);
        assert(chain_prefix(chain.push(n)) =~= chain_prefix(chain) + n + seq!['/']);
    }
}

/// The archive reached from `outer` by opening, in turn, the nested archives named along
/// `chain`.
pub open spec fn archive_along(outer: Seq<u8>, chain: Seq<Seq<char>>) -> Option<Seq<u8>>
    decreases chain.len(),
{
    if chain.len() == 0 {
        Some(outer)
    } else {
        match zip_entry_content(outer, chain[0]) {
            Some(inner) => archive_along(inner, chain.drop_first()),
            None => None,
        }
    }
}

/// The UTF-8 bytes of `name` end with `.zip` (the letters in any ASCII case).
pub open spec fn ends_with_zip_bytes(name: Seq<char>) -> bool {
    let b = encode_utf8(name);
    &&& b.len() >= 4
    &&& b[b.len() - 4] == 46u8
    &&& crate::text::ascii_lower(b[b.len() - 3]) == 122u8
    &&& crate::text::ascii_lower(b[b.len() - 2]) == 105u8
    &&& crate::text::ascii_lower(b[b.len() - 1]) == 112u8
}

/// The UTF-8 bytes of `name` hold no `.zip/`.
pub open spec fn no_zip_sep_bytes(name: Seq<char>) -> bool {
    no_zip_sep_in(encode_utf8(name), 0, encode_utf8(name).len() as int)
}

proof fn lemma_encode_concat(a: Seq<char>, b: Seq<char>)
    ensures
        encode_utf8(a + b) == encode_utf8(a) + encode_utf8(b),
    decreases a.len(),
{
    if a.len() > 0 {
        assert((a + b).drop_first() =~= a.drop_first() + b);
        assert((a + b)[0] == a[0]);
        lemma_encode_concat(a.drop_first(), b);
        assert(encode_utf8(a + b) =~= encode_utf8(a) + encode_utf8(b));
    } else {
        assert(a + b =~= b);
        assert(encode_utf8(a) =~= Seq::<u8>::empty());
        assert(encode_utf8(a) + encode_utf8(b) =~= encode_utf8(b));
    }
}

/// Reading a path `head/rest` whose head ends with `.zip` and holds no `.zip/` opens the
/// head and reads the rest inside it.
proof fn lemma_read_first_part(archive: Seq<u8>, head: Seq<char>, rest: Seq<char>)
    requires
        ends_with_zip_bytes(head),
        no_zip_sep_bytes(head),
    ensures
        nested_entry_content(archive, encode_utf8(head + seq!['/'] + rest)) == match zip_entry_content(
            archive,
            head,
        ) {
            Some(inner) => nested_entry_content(inner, encode_utf8(rest)),
            None => None,
        },
{
    let h = encode_utf8(head);
    let r = encode_utf8(rest);
    let slash = encode_utf8(seq!['/']);
    lemma_encode_concat(head, seq!['/']);
    lemma_encode_concat(head + seq!['/'], rest);
    assert(slash =~= seq![47u8]) by {
        let c = seq!['/'];
        assert(c[0] == '/');
        assert(c.drop_first() =~= Seq::<char>::empty());
        assert(('/' as u32) == 47u32);
        assert((47u32 & 0x7Fu32) == 47u32) by (bit_vector);
        assert(encode_utf8(Seq::<char>::empty()) =~= Seq::<u8>::empty());
    }
    let path = h + seq![47u8] + r;
    assert(encode_utf8(head + seq!['/'] + rest) =~= path);
    let i = h.len() - 4;
    assert(zip_sep_at(path, i)) by {
        assert(path[i] == h[i]);
        assert(path[i + 1] == h[i + 1]);
        assert(path[i + 2] == h[i + 2]);
        assert(path[i + 3] == h[i + 3]);
        assert(path[i + 4] == 47u8);
    }
    assert(no_zip_sep_in(path, 0, i)) by {
        assert forall|j: int| 0 <= j < i implies !#[trigger] zip_sep_at(path, j) by {
            lemma_zip_sep_in_part(path, 0, h.len() as int, j);
            assert(path.subrange(0, h.len() as int) =~= h);
        }
    }
    lemma_first_zip_boundary_at(path, i);
    let b = h.len() as int;
    assert(path.subrange(0, b) =~= h);
    assert(path.subrange(b + 1, path.len() as int) =~= r);
    reveal(utf8_text);
    vstd::utf8::encode_utf8_decode_utf8(head);
}

/// Reading a name with no `.zip/` in its bytes reads that entry of the archive itself.
proof fn lemma_read_plain_name(archive: Seq<u8>, name: Seq<char>)
    requires
        no_zip_sep_bytes(name),
    ensures
        nested_entry_content(archive, encode_utf8(name)) == zip_entry_content(archive, name),
{
    let b = encode_utf8(name);
    crate::text::lemma_first_zip_boundary(b);
    if crate::text::first_zip_boundary(b) is Some {
        let k = crate::text::first_zip_boundary(b)->0;
        assert(zip_sep_at(b, k - 4));
    }
    reveal(utf8_text);
    vstd::utf8::encode_utf8_decode_utf8(name);
}

/// What a scan records for an entry reads that entry back, through any depth of nested
/// archives: when `chain` holds the paths of the nested archives descended into (each in
/// its parent, each ending in `.zip`) and `name` an entry of the innermost one, reading
/// `chain_prefix(chain) + name` (the entry's recorded `zip_entry`) from the outer archive
/// gives that entry of the archive reached along `chain`. It holds when no path holds
/// `.zip/` itself, since a reader takes each `.zip/` for a nested archive.
pub proof fn law_recorded_entry_reads_back(outer: Seq<u8>, chain: Seq<Seq<char>>, name: Seq<char>)
    requires
        forall|i: int| 0 <= i < chain.len() ==> ends_with_zip_bytes(#[trigger] chain[i]) && no_zip_sep_bytes(chain[i]),
        no_zip_sep_bytes(name),
    ensures
        nested_entry_content(outer, encode_utf8(chain_prefix(chain) + name)) == match archive_along(outer, chain) {
            Some(inner) => zip_entry_content(inner, name),
            None => None,
        },
    decreases chain.len(),
{
    if chain.len() == 0 {
        assert(chain_prefix(chain) + name =~= name);
        lemma_read_plain_name(outer, name);
    } else {
        let head = chain[0];
        let tail = chain.drop_first();
        let rest = chain_prefix(tail) + name;
        assert(chain_prefix(chain) + name =~= head + seq!['/'] + rest);
        assert(ends_with_zip_bytes(chain[0]) && no_zip_sep_bytes(chain[0]));
        lemma_read_first_part(outer, head, rest);
        match zip_entry_content(outer, head) {
            Some(inner) => {
                assert forall|i: int| 0 <= i < tail.len() implies ends_with_zip_bytes(#[trigger] tail[i])
                    && no_zip_sep_bytes(tail[i]) by {
                    assert(tail[i] == chain[i + 1]);
                }
                law_recorded_entry_reads_back(inner, tail, name);
            },
            None => {},
        }
    }
}

} // verus!
