//! What a folder scan finds and reports: discovered files, progress, asset types by
//! extension, and the text under which an asset's location is searchable.

use vstd::prelude::*;
use vstd::string::StrSliceExecFns;
use crate::models::{AssetType, copy_text};
use crate::grouping::names_view;
use crate::text::{chars_of, str_eq};

verus! {

/// Progress of a scan, as reported to the frontend.
pub struct ScanProgress {
    pub phase: String,
    pub files_found: usize,
    pub files_inserted: usize,
    pub files_total: usize,
    pub zips_scanned: usize,
    pub current_path: Option<String>,
    pub warnings: Vec<String>,
    /// Root folder of the scan, telling concurrent scans apart.
    pub folder_path: Option<String>,
}

/// A file found on disk, or an entry found inside a ZIP archive.
pub struct DiscoveredAsset {
    pub filename: String,
    pub folder_id: i64,
    pub rel_path: String,
    pub zip_file: Option<String>,
    pub zip_entry: Option<String>,
    pub zip_compression: Option<String>,
    pub searchable_path: String,
    pub format: String,
    pub asset_type: AssetType,
    pub file_size: i64,
    pub fs_modified_at: i64,
}

impl DiscoveredAsset {
    /// A field-by-field copy.
    pub fn copy(&self) -> (r: DiscoveredAsset)
        ensures
            r == *self,
    {
        DiscoveredAsset {
            filename: self.filename.clone(),
            folder_id: self.folder_id,
            rel_path: self.rel_path.clone(),
            zip_file: copy_text(&self.zip_file),
            zip_entry: copy_text(&self.zip_entry),
            zip_compression: copy_text(&self.zip_compression),
            searchable_path: self.searchable_path.clone(),
            format: self.format.clone(),
            asset_type: self.asset_type,
            file_size: self.file_size,
            fs_modified_at: self.fs_modified_at,
        }
    }
}

/// The index of the first `/` in `s`, or -1.
pub open spec fn first_slash(s: Seq<char>) -> int
    decreases s.len(),
{
    if s.len() == 0 {
        -1
    } else if s[0] == '/' {
        0
    } else {
        let r = first_slash(s.skip(1));
        if r < 0 {
            -1
        } else {
            r + 1
        }
    }
}

/// Where the first `/` is.
pub proof fn lemma_first_slash(s: Seq<char>)
    ensures
        -1 <= first_slash(s) < s.len(),
        first_slash(s) >= 0 ==> s[first_slash(s)] == '/',
        forall|t: int| 0 <= t < s.len() && (first_slash(s) < 0 || t < first_slash(s)) ==> s[t] != '/',
    decreases s.len(),
{
    if s.len() > 0 && s[0] != '/' {
        lemma_first_slash(s.skip(1));
        assert forall|t: int| 1 <= t < s.len() implies #[trigger] s[t] == s.skip(1)[t - 1] by {}
    }
}

/// The non-empty parts of `s` between `/` separators.
pub open spec fn segments(s: Seq<char>) -> Seq<Seq<char>>
    decreases s.len(),
{
    let i = first_slash(s);
    proof {
        lemma_first_slash(s);
    }
    if i < 0 {
        if s.len() > 0 {
            seq![s]
        } else {
            Seq::empty()
        }
    } else {
        (if i > 0 {
            seq![s.take(i)]
        } else {
            Seq::empty()
        }) + segments(s.skip(i + 1))
    }
}

/// `parts` joined with `sep` between them.
pub open spec fn join(parts: Seq<Seq<char>>, sep: char) -> Seq<char>
    decreases parts.len(),
{
    if parts.len() == 0 {
        Seq::empty()
    } else if parts.len() == 1 {
        parts[0]
    } else {
        join(parts.drop_last(), sep) + seq![sep] + parts.last()
    }
}

/// The exclusion key of a directory: the archive it lies in (empty for none), a NUL,
/// and its path.
pub open spec fn exclude_key(zip_file: Seq<char>, path: Seq<char>) -> Seq<char> {
    zip_file + seq!['\0'] + path
}

/// Encodes an exclusion as the key looked up when indexing.
pub fn encode_exclude_key(zip_file: Option<&str>, path: &str) -> (r: String)
    ensures
        r@ == exclude_key(
            match zip_file {
                Some(z) => z@,
                None => Seq::empty(),
            },
            path@,
        ),
{
    let nul = "\0";
    proof {
        reveal_strlit("\0");
    }
    let mut key = match zip_file {
        Some(z) => String::from_str(z),
        None => String::new(),
    };
    key.append(nul);
    key.append(path);
    key
}

proof fn lemma_first_slash_prefix(cur: Seq<char>, rest: Seq<char>)
    requires
        forall|t: int| 0 <= t < cur.len() ==> cur[t] != '/',
    ensures
        first_slash(cur + rest) == (if first_slash(rest) < 0 { -1 } else { cur.len() + first_slash(rest) }),
    decreases cur.len(),
{
    if cur.len() > 0 {
        assert((cur + rest).skip(1) =~= cur.skip(1) + rest);
        lemma_first_slash_prefix(cur.skip(1), rest);
    } else {
        assert(cur + rest =~= rest);
    }
}

/// The `/`-separated parts of `s` that are not empty.
pub fn split_segments(s: &str) -> (r: Vec<String>)
    ensures
        names_view(r@) == segments(s@),
{
    let cs = chars_of(s);
    let n = cs.len();
    let mut out: Vec<String> = Vec::new();
    let mut start: usize = 0;
    let mut i: usize = 0;
    proof {
        assert(s@.skip(0) =~= s@);
        assert(names_view(out@) + segments(s@) =~= segments(s@));
    }
    while i < n
        invariant
            cs@ == s@,
            n == s@.len(),
            start <= i <= n,
            forall|t: int| start <= t < i ==> s@[t] != '/',
            segments(s@) == names_view(out@) + segments(s@.skip(start as int)),
        decreases n - i,
    {
        if cs[i] == '/' {
            let ghost cur = s@.subrange(start as int, i as int);
            let ghost rest = s@.skip(i as int);
            proof {
                assert(s@.skip(start as int) =~= cur + rest);
                lemma_first_slash_prefix(cur, rest);
                assert(first_slash(rest) == 0);
                assert((cur + rest).take(cur.len() as int) =~= cur);
                assert((cur + rest).skip(cur.len() as int + 1) =~= s@.skip(i + 1));
            }
            let ghost before = out@;
            if start < i {
                let piece = s.substring_char(start, i);
                out.push(String::from_str(piece));
                proof {
                    assert(names_view(out@) =~= names_view(before).push(cur));
                    assert(names_view(out@) + segments(s@.skip(i + 1)) =~= names_view(before) + (seq![cur] + segments(s@.skip(i + 1))));
                }
            } else {
                proof {
                    assert(cur.len() == 0);
                    assert(Seq::<Seq<char>>::empty() + segments(s@.skip(i + 1)) =~= segments(s@.skip(i + 1)));
                }
            }
            start = i + 1;
        }
        i = i + 1;
    }
    let ghost cur = s@.skip(start as int);
    proof {
        assert(cur =~= cur + Seq::<char>::empty());
        lemma_first_slash_prefix(cur, Seq::<char>::empty());
    }
    let ghost before = out@;
    if start < n {
        let piece = s.substring_char(start, n);
        out.push(String::from_str(piece));
        proof {
            assert(piece@ =~= cur);
            assert(names_view(out@) =~= names_view(before).push(cur));
        }
    } else {
        proof {
            assert(names_view(out@) =~= names_view(before) + Seq::<Seq<char>>::empty());
        }
    }
    out
}

/// The index of the last `/` in `s`, or -1.
pub open spec fn last_slash(s: Seq<char>) -> int
    decreases s.len(),
{
    if s.len() == 0 {
        -1
    } else if s.last() == '/' {
        s.len() - 1
    } else {
        last_slash(s.drop_last())
    }
}

/// The last `/` lies within `s`.
pub proof fn lemma_last_slash(s: Seq<char>)
    ensures
        -1 <= last_slash(s) < s.len(),
        last_slash(s) >= 0 ==> s[last_slash(s)] == '/',
        forall|t: int| last_slash(s) < t < s.len() ==> s[t] != '/',
    decreases s.len(),
{
    if s.len() > 0 {
        let init = s.drop_last();
        lemma_last_slash(init);
        if s.last() != '/' {
            assert forall|t: int| last_slash(s) < t < s.len() implies s[t] != '/' by {
                if t < s.len() - 1 {
                    assert(init[t] == s[t]);
                }
            }
            if last_slash(s) >= 0 {
                assert(init[last_slash(s)] == s[last_slash(s)]);
            }
        }
    }
}

/// The directory part of a ZIP entry name: what comes before its last `/`.
pub open spec fn entry_dir(e: Seq<char>) -> Seq<char> {
    if last_slash(e) < 0 {
        Seq::empty()
    } else {
        e.take(last_slash(e))
    }
}

/// `c` is the character `lower` or its upper-case form.
pub open spec fn char_is(c: char, lower: char, upper: char) -> bool {
    c == lower || c == upper
}

/// An archive's name without its `.zip` ending, of any case.
pub open spec fn archive_stem(z: Seq<char>) -> Seq<char> {
    let n = z.len() as int;
    if n >= 4 && z[n - 4] == '.' && char_is(z[n - 3], 'z', 'Z') && char_is(z[n - 2], 'i', 'I') && char_is(
        z[n - 1],
        'p',
        'P',
    ) {
        z.take(n - 4)
    } else {
        z
    }
}

/// The parts shown among the first `n`, each shown unless the exclusion key of its
/// path, `keys` joined by `/` up to it, is in `ex`.
pub open spec fn kept_segments(
    zip_file: Seq<char>,
    keys: Seq<Seq<char>>,
    shown: Seq<Seq<char>>,
    ex: Seq<Seq<char>>,
    n: int,
) -> Seq<Seq<char>>
    decreases n,
{
    if n <= 0 {
        Seq::empty()
    } else {
        let prev = kept_segments(zip_file, keys, shown, ex, n - 1);
        if ex.contains(exclude_key(zip_file, join(keys.take(n), '/'))) {
            prev
        } else {
            prev.push(shown[n - 1])
        }
    }
}

/// The searchable text of an asset: the directories of its folder path, then the
/// archive's name without `.zip`, then the directories inside the archive, separated by
/// spaces, leaving out every directory whose exclusion key is in `ex`. Directories on
/// disk, and the archive itself, are keyed by their path from the folder root; those
/// inside the archive by the archive's name and their path inside it.
pub open spec fn searchable_text(
    rel_path: Seq<char>,
    zip_file: Option<Seq<char>>,
    zip_entry: Option<Seq<char>>,
    ex: Seq<Seq<char>>,
) -> Seq<char> {
    let fs = segments(rel_path);
    let with_zip = match zip_file {
        Some(z) => archive_stem(z).len() > 0,
        None => false,
    };
    let keys = if with_zip { fs.push(zip_file->0) } else { fs };
    let shown = if with_zip { fs.push(archive_stem(zip_file->0)) } else { fs };
    let zp = match zip_file {
        Some(z) => z,
        None => Seq::empty(),
    };
    let inner = match zip_entry {
        Some(e) => segments(entry_dir(e)),
        None => Seq::empty(),
    };
    join(
        kept_segments(Seq::empty(), keys, shown, ex, keys.len() as int) + kept_segments(
            zp,
            inner,
            inner,
            ex,
            inner.len() as int,
        ),
        ' ',
    )
}

/// Whether `list` holds `key`.
fn contains_text(list: &Vec<String>, key: &str) -> (r: bool)
    ensures
        r == names_view(list@).contains(key@),
{
    let mut i: usize = 0;
    while i < list.len()
        invariant
            i <= list@.len(),
            forall|t: int| 0 <= t < i ==> list@[t]@ != key@,
        decreases list@.len() - i,
    {
        if str_eq(list[i].as_str(), key) {
            proof {
                assert(names_view(list@)[i as int] == key@);
            }
            return true;
        }
        i = i + 1;
    }
    proof {
        if names_view(list@).contains(key@) {
            let t = choose|t: int| 0 <= t < names_view(list@).len() && names_view(list@)[t] == key@;
            assert(list@[t]@ == key@);
        }
    }
    false
}

/// The index of the last `/` of `s`.
pub fn find_last_slash(s: &str) -> (r: Option<usize>)
    ensures
        match r {
            Some(i) => i as int == last_slash(s@) && i < s@.len(),
            None => last_slash(s@) < 0,
        },
{
    let cs = chars_of(s);
    let n = cs.len();
    let mut i: usize = n;
    proof {
        assert(s@.take(n as int) =~= s@);
        lemma_last_slash(s@);
    }
    while i > 0
        invariant
            cs@ == s@,
            n == s@.len(),
            i <= n,
            last_slash(s@) == last_slash(s@.take(i as int)),
            -1 <= last_slash(s@) < s@.len(),
        decreases i,
    {
        proof {
            assert(s@.take(i as int).drop_last() =~= s@.take(i - 1));
        }
        if cs[i - 1] == '/' {
            return Some(i - 1);
        }
        i = i - 1;
    }
    None
}

/// An archive's name without its `.zip` ending.
fn stem_of(z: &str) -> (r: String)
    ensures
        r@ == archive_stem(z@),
{
    let cs = chars_of(z);
    let n = cs.len();
    if n >= 4 && cs[n - 4] == '.' && (cs[n - 3] == 'z' || cs[n - 3] == 'Z') && (cs[n - 2] == 'i' || cs[n - 2] == 'I')
        && (cs[n - 1] == 'p' || cs[n - 1] == 'P') {
        String::from_str(z.substring_char(0, n - 4))
    } else {
        String::from_str(z)
    }
}

/// Appends to `out` the parts of `shown` whose exclusion key is not in `excludes`.
fn push_kept(out: &mut Vec<String>, zip_file: &str, keys: &Vec<String>, shown: &Vec<String>, excludes: &Vec<String>)
    requires
        keys@.len() == shown@.len(),
    ensures
        names_view(final(out)@) == names_view(old(out)@) + kept_segments(
            zip_file@,
            names_view(keys@),
            names_view(shown@),
            names_view(excludes@),
            keys@.len() as int,
        ),
{
    let ghost kv = names_view(keys@);
    let ghost sv = names_view(shown@);
    let ghost ev = names_view(excludes@);
    let ghost start = names_view(out@);
    let slash = "/";
    let nul = "\0";
    proof {
        reveal_strlit("/");
        reveal_strlit("\0");
    }
    let n = keys.len();
    let mut path = String::new();
    let mut j: usize = 0;
    while j < n
        invariant
            j <= n,
            n == keys@.len(),
            keys@.len() == shown@.len(),
            kv == names_view(keys@),
            sv == names_view(shown@),
            ev == names_view(excludes@),
            slash@ == seq!['/'],
            nul@ == seq!['\0'],
            path@ == join(kv.take(j as int), '/'),
            names_view(out@) == start + kept_segments(zip_file@, kv, sv, ev, j as int),
        decreases n - j,
    {
        proof {
            let t = kv.take(j + 1);
            assert(t.drop_last() =~= kv.take(j as int));
            assert(t.last() == kv[j as int]);
            if j == 0 {
                assert(t.len() == 1);
            }
        }
        if j > 0 {
            path.append(slash);
        }
        path.append(keys[j].as_str());
        let mut key = String::from_str(zip_file);
        key.append(nul);
        key.append(path.as_str());
        let ghost before = names_view(out@);
        if !contains_text(excludes, key.as_str()) {
            out.push(shown[j].clone());
            proof {
                assert(names_view(out@) =~= before.push(sv[j as int]));
            }
        }
        j = j + 1;
    }
}

/// The parts joined with single spaces.
fn join_with_spaces(parts: &Vec<String>) -> (r: String)
    ensures
        r@ == join(names_view(parts@), ' '),
{
    let ghost pv = names_view(parts@);
    let space = " ";
    proof {
        reveal_strlit(" ");
    }
    let n = parts.len();
    let mut out = String::new();
    let mut j: usize = 0;
    while j < n
        invariant
            j <= n,
            n == parts@.len(),
            pv == names_view(parts@),
            space@ == seq![' '],
            out@ == join(pv.take(j as int), ' '),
        decreases n - j,
    {
        proof {
            let t = pv.take(j + 1);
            assert(t.drop_last() =~= pv.take(j as int));
            assert(t.last() == pv[j as int]);
            if j == 0 {
                assert(t.len() == 1);
            }
        }
        if j > 0 {
            out.append(space);
        }
        out.append(parts[j].as_str());
        j = j + 1;
    }
    proof {
        assert(pv.take(n as int) =~= pv);
    }
    out
}

/// The searchable text of an asset; `excludes` holds the exclusion keys of the folder.
pub fn compute_searchable_path(
    rel_path: &str,
    zip_file: Option<&str>,
    zip_entry: Option<&str>,
    excludes: &Vec<String>,
) -> (r: String)
    ensures
        r@ == searchable_text(
            rel_path@,
            match zip_file {
                Some(z) => Some(z@),
                None => None,
            },
            match zip_entry {
                Some(e) => Some(e@),
                None => None,
            },
            names_view(excludes@),
        ),
{
    let fs = split_segments(rel_path);
    let mut keys: Vec<String> = Vec::new();
    let mut shown: Vec<String> = Vec::new();
    let mut i: usize = 0;
    while i < fs.len()
        invariant
            i <= fs@.len(),
            names_view(keys@) == names_view(fs@).take(i as int),
            names_view(shown@) == names_view(fs@).take(i as int),
        decreases fs@.len() - i,
    {
        let ghost k0 = names_view(keys@);
        let ghost s0 = names_view(shown@);
        keys.push(fs[i].clone());
        shown.push(fs[i].clone());
        proof {
            assert(names_view(keys@) =~= k0.push(fs@[i as int]@));
            assert(names_view(shown@) =~= s0.push(fs@[i as int]@));
            assert(names_view(fs@).take(i + 1) =~= names_view(fs@).take(i as int).push(fs@[i as int]@));
        }
        i = i + 1;
    }
    proof {
        assert(names_view(fs@).take(fs@.len() as int) =~= names_view(fs@));
    }
    let empty = "";
    proof {
        reveal_strlit("");
    }
    let zp: &str = match zip_file {
        Some(z) => {
            let stem = stem_of(z);
            if stem.as_str().unicode_len() > 0 {
                let ghost k0 = names_view(keys@);
                let ghost s0 = names_view(shown@);
                keys.push(String::from_str(z));
                shown.push(stem);
                proof {
                    assert(names_view(keys@) =~= k0.push(z@));
                    assert(names_view(shown@) =~= s0.push(archive_stem(z@)));
                }
            }
            z
        },
        None => empty,
    };
    let ghost zf = match zip_file {
        Some(z) => Some(z@),
        None => None::<Seq<char>>,
    };
    let ghost fsv = segments(rel_path@);
    let ghost with_zip = match zf {
        Some(z) => archive_stem(z).len() > 0,
        None => false,
    };
    proof {
        assert(names_view(keys@) == (if with_zip { fsv.push(zf->0) } else { fsv }));
        assert(names_view(shown@) == (if with_zip { fsv.push(archive_stem(zf->0)) } else { fsv }));
        assert(zp@ == match zf {
            Some(z) => z,
            None => Seq::<char>::empty(),
        });
    }
    let mut parts: Vec<String> = Vec::new();
    proof {
        assert(names_view(parts@) =~= Seq::<Seq<char>>::empty());
    }
    push_kept(&mut parts, empty, &keys, &shown, excludes);
    let ghost outer = names_view(parts@);
    let ghost ev = names_view(excludes@);
    proof {
        assert(empty@ =~= Seq::<char>::empty());
        assert(outer =~= kept_segments(Seq::<char>::empty(), names_view(keys@), names_view(shown@), ev, keys@.len() as int));
    }
    match zip_entry {
        Some(e) => match find_last_slash(e) {
            Some(i) => {
                let dir = e.substring_char(0, i);
                let inner = split_segments(dir);
                proof {
                    assert(entry_dir(e@) == dir@);
                }
                push_kept(&mut parts, zp, &inner, &inner, excludes);
                proof {
                    assert(names_view(parts@) == outer + kept_segments(zp@, segments(entry_dir(e@)), segments(entry_dir(e@)), ev,
                        segments(entry_dir(e@)).len() as int));
                }
            },
            None => {
                proof {
                    assert(segments(entry_dir(e@)) =~= Seq::<Seq<char>>::empty());
                    assert(outer + Seq::<Seq<char>>::empty() =~= outer);
                    assert(kept_segments(zp@, Seq::<Seq<char>>::empty(), Seq::<Seq<char>>::empty(), ev, 0) =~= Seq::<Seq<char>>::empty());
                }
            },
        },
        None => {
            proof {
                assert(outer + Seq::<Seq<char>>::empty() =~= outer);
                assert(kept_segments(zp@, Seq::<Seq<char>>::empty(), Seq::<Seq<char>>::empty(), ev, 0) =~= Seq::<Seq<char>>::empty());
            }
        },
    }
    join_with_spaces(&parts)
}

/// The image extensions the scan indexes.
pub open spec fn is_image_ext(e: Seq<char>) -> bool {
    e == seq!['p', 'n', 'g'] || e == seq!['j', 'p', 'g'] || e == seq!['j', 'p', 'e', 'g'] || e == seq![
        'w',
        'e',
        'b',
        'p',
    ] || e == seq!['g', 'i', 'f'] || e == seq!['b', 'm', 'p']
}

/// The audio extensions the scan indexes.
pub open spec fn is_audio_ext(e: Seq<char>) -> bool {
    e == seq!['m', 'p', '3'] || e == seq!['w', 'a', 'v'] || e == seq!['o', 'g', 'g'] || e == seq![
        'f',
        'l',
        'a',
        'c',
    ] || e == seq!['m', '4', 'a'] || e == seq!['a', 'a', 'c']
}

/// Whether `e` is one of the literals in `list`.
fn ext_in(e: &str, list: &[&str]) -> (r: bool)
    ensures
        r == exists|t: int| 0 <= t < list@.len() && list@[t]@ == e@,
{
    let mut i: usize = 0;
    while i < list.len()
        invariant
            i <= list@.len(),
            forall|t: int| 0 <= t < i ==> list@[t]@ != e@,
        decreases list@.len() - i,
    {
        if str_eq(list[i], e) {
            return true;
        }
        i = i + 1;
    }
    false
}

/// The asset type of a lower-case file extension, if the scan indexes it.
pub fn detect_asset_type_from_ext(ext: &str) -> (r: Option<AssetType>)
    ensures
        r == (if is_image_ext(ext@) {
            Some(AssetType::Image)
        } else if is_audio_ext(ext@) {
            Some(AssetType::Audio)
        } else {
            None
        }),
{
    let images: [&str; 6] = ["png", "jpg", "jpeg", "webp", "gif", "bmp"];
    let audio: [&str; 6] = ["mp3", "wav", "ogg", "flac", "m4a", "aac"];
    proof {
        reveal_strlit("png");
        reveal_strlit("jpg");
        reveal_strlit("jpeg");
        reveal_strlit("webp");
        reveal_strlit("gif");
        reveal_strlit("bmp");
        reveal_strlit("mp3");
        reveal_strlit("wav");
        reveal_strlit("ogg");
        reveal_strlit("flac");
        reveal_strlit("m4a");
        reveal_strlit("aac");
    }
    let is_image = ext_in(ext, &images);
    proof {
        assert(images@[0]@ =~= seq!['p', 'n', 'g']);
        assert(images@[1]@ =~= seq!['j', 'p', 'g']);
        assert(images@[2]@ =~= seq!['j', 'p', 'e', 'g']);
        assert(images@[3]@ =~= seq!['w', 'e', 'b', 'p']);
        assert(images@[4]@ =~= seq!['g', 'i', 'f']);
        assert(images@[5]@ =~= seq!['b', 'm', 'p']);
        if is_image_ext(ext@) {
            if ext@ == seq!['p', 'n', 'g'] { assert(images@[0]@ == ext@); }
            if ext@ == seq!['j', 'p', 'g'] { assert(images@[1]@ == ext@); }
            if ext@ == seq!['j', 'p', 'e', 'g'] { assert(images@[2]@ == ext@); }
            if ext@ == seq!['w', 'e', 'b', 'p'] { assert(images@[3]@ == ext@); }
            if ext@ == seq!['g', 'i', 'f'] { assert(images@[4]@ == ext@); }
            if ext@ == seq!['b', 'm', 'p'] { assert(images@[5]@ == ext@); }
        }
    }
    if is_image {
        return Some(AssetType::Image);
    }
    let is_audio = ext_in(ext, &audio);
    proof {
        assert(audio@[0]@ =~= seq!['m', 'p', '3']);
        assert(audio@[1]@ =~= seq!['w', 'a', 'v']);
        assert(audio@[2]@ =~= seq!['o', 'g', 'g']);
        assert(audio@[3]@ =~= seq!['f', 'l', 'a', 'c']);
        assert(audio@[4]@ =~= seq!['m', '4', 'a']);
        assert(audio@[5]@ =~= seq!['a', 'a', 'c']);
        if is_audio_ext(ext@) {
            if ext@ == seq!['m', 'p', '3'] { assert(audio@[0]@ == ext@); }
            if ext@ == seq!['w', 'a', 'v'] { assert(audio@[1]@ == ext@); }
            if ext@ == seq!['o', 'g', 'g'] { assert(audio@[2]@ == ext@); }
            if ext@ == seq!['f', 'l', 'a', 'c'] { assert(audio@[3]@ == ext@); }
            if ext@ == seq!['m', '4', 'a'] { assert(audio@[4]@ == ext@); }
            if ext@ == seq!['a', 'a', 'c'] { assert(audio@[5]@ == ext@); }
        }
    }
    if is_audio {
        Some(AssetType::Audio)
    } else {
        None
    }
}

} // verus!
