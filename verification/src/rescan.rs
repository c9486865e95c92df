//! Comparing a fresh scan of a folder with the assets recorded for it: which files are
//! new, which changed, which are unchanged and which records lost their file.

use vstd::prelude::*;
use std::collections::HashMap;
use std::collections::hash_map::DefaultHasher;
use std::hash::Hasher;
use vstd::std_specs::hash::DefaultHasherAdditionalSpecFns;
use vstd::utf8::encode_utf8;
use crate::scan::DiscoveredAsset;
use crate::text::str_eq;
use crate::drag_files::{signed_decimal, signed_decimal_text};
use crate::grouping::{positions_of, lemma_positions_valid, lemma_positions_complete, lemma_positions_step};

verus! {

broadcast use vstd::std_specs::hash::group_hash_axioms;

/// The recorded fields of an asset that a rescan compares.
pub struct ExistingAsset {
    pub id: i64,
    pub rel_path: String,
    pub filename: String,
    pub zip_file: Option<String>,
    pub zip_entry: Option<String>,
    pub file_size: i64,
    pub fs_modified_at: Option<i64>,
}

/// The identity of an asset within its folder, as the unique index of the asset table
/// has it: directory, archive (empty for none) and entry (the file name for a file).
pub struct AssetKey {
    pub rel_path: String,
    pub zip_file_key: String,
    pub entry_key: String,
}

/// Counts of a rescan preview, as reported to the frontend.
pub struct RescanPreviewResult {
    pub preview_id: String,
    pub added_count: usize,
    pub removed_count: usize,
    pub modified_count: usize,
    pub unchanged_count: usize,
}

/// Counts of an applied rescan.
pub struct RescanApplyResult {
    pub inserted: usize,
    pub deleted: usize,
    pub updated: usize,
}

/// The changes a rescan found.
pub struct RescanDiff {
    /// Files with no record, in the order found.
    pub added: Vec<DiscoveredAsset>,
    /// Records whose file is gone.
    pub removed: Vec<i64>,
    /// Files whose size or modification time changed, with their record's id.
    pub modified: Vec<(i64, DiscoveredAsset)>,
    pub unchanged_count: usize,
}

/// An optional text, or `d` where there is none.
pub open spec fn text_or(t: Option<String>, d: Seq<char>) -> Seq<char> {
    match t {
        Some(s) => s@,
        None => d,
    }
}

/// The view of a key.
pub open spec fn key_of(k: AssetKey) -> (Seq<char>, Seq<char>, Seq<char>) {
    (k.rel_path@, k.zip_file_key@, k.entry_key@)
}

/// The key of a file found on disk.
pub open spec fn disc_key(d: DiscoveredAsset) -> (Seq<char>, Seq<char>, Seq<char>) {
    (d.rel_path@, text_or(d.zip_file, Seq::empty()), text_or(d.zip_entry, d.filename@))
}

/// The key of a record.
pub open spec fn row_key(e: ExistingAsset) -> (Seq<char>, Seq<char>, Seq<char>) {
    (e.rel_path@, text_or(e.zip_file, Seq::empty()), text_or(e.zip_entry, e.filename@))
}

/// The text, or a copy of `d` where there is none.
fn text_or_copy(t: &Option<String>, d: &String) -> (r: String)
    ensures
        r@ == text_or(*t, d@),
{
    match t {
        Some(s) => s.clone(),
        None => d.clone(),
    }
}

impl AssetKey {
    pub fn from_discovered(asset: &DiscoveredAsset) -> (r: AssetKey)
        ensures
            key_of(r) == disc_key(*asset),
    {
        AssetKey {
            rel_path: asset.rel_path.clone(),
            zip_file_key: text_or_copy(&asset.zip_file, &String::new()),
            entry_key: text_or_copy(&asset.zip_entry, &asset.filename),
        }
    }

    pub fn from_existing(asset: &ExistingAsset) -> (r: AssetKey)
        ensures
            key_of(r) == row_key(*asset),
    {
        AssetKey {
            rel_path: asset.rel_path.clone(),
            zip_file_key: text_or_copy(&asset.zip_file, &String::new()),
            entry_key: text_or_copy(&asset.zip_entry, &asset.filename),
        }
    }
}

/// The hash under which a key is filed: the default hasher fed the three parts' bytes.
pub open spec fn key_hash(k: (Seq<char>, Seq<char>, Seq<char>)) -> u64 {
    DefaultHasher::spec_finish(seq![encode_utf8(k.0), encode_utf8(k.1), encode_utf8(k.2)])
}

fn hash_asset_key(k: &AssetKey) -> (r: u64)
    ensures
        r == key_hash(key_of(*k)),
{
    let mut h = DefaultHasher::new();
    h.write(k.rel_path.as_str().as_bytes());
    h.write(k.zip_file_key.as_str().as_bytes());
    h.write(k.entry_key.as_str().as_bytes());
    proof {
        assert(h@ =~= seq![encode_utf8(k.rel_path@), encode_utf8(k.zip_file_key@), encode_utf8(k.entry_key@)]);
    }
    h.finish()
}

fn same_key(a: &AssetKey, b: &AssetKey) -> (r: bool)
    ensures
        r == (key_of(*a) == key_of(*b)),
{
    str_eq(a.rel_path.as_str(), b.rel_path.as_str()) && str_eq(a.zip_file_key.as_str(), b.zip_file_key.as_str())
        && str_eq(a.entry_key.as_str(), b.entry_key.as_str())
}

/// The last record with key `k`, or -1 where none has it. Records are looked up by key,
/// a later record replacing an earlier one with the same key.
pub open spec fn last_row_with(es: Seq<ExistingAsset>, k: (Seq<char>, Seq<char>, Seq<char>)) -> int
    decreases es.len(),
{
    if es.len() == 0 {
        -1
    } else if row_key(es.last()) == k {
        es.len() - 1
    } else {
        last_row_with(es.drop_last(), k)
    }
}

/// The last record with a key is the largest index with that key.
pub proof fn lemma_last_row(es: Seq<ExistingAsset>, k: (Seq<char>, Seq<char>, Seq<char>))
    ensures
        -1 <= last_row_with(es, k) < es.len(),
        last_row_with(es, k) == -1 ==> forall|e: int| 0 <= e < es.len() ==> row_key(#[trigger] es[e]) != k,
        last_row_with(es, k) >= 0 ==> row_key(es[last_row_with(es, k)]) == k && forall|e: int|
            last_row_with(es, k) < e < es.len() ==> row_key(#[trigger] es[e]) != k,
    decreases es.len(),
{
    if es.len() > 0 {
        let init = es.drop_last();
        lemma_last_row(init, k);
        if row_key(es.last()) != k {
            let r = last_row_with(init, k);
            assert(last_row_with(es, k) == r);
            assert forall|e: int| r < e < es.len() implies row_key(#[trigger] es[e]) != k by {
                if e < es.len() - 1 {
                    assert(es[e] == init[e]);
                    assert(row_key(init[e]) != k);
                }
            }
            if r >= 0 {
                assert(es[r] == init[r]);
            }
        }
    }
}

/// `ds[j]` is the first file found with its key and some record has that key: the file
/// is compared with that record; a later file with the same key counts as new.
pub open spec fn is_first_match(ds: Seq<DiscoveredAsset>, es: Seq<ExistingAsset>, j: int) -> bool {
    &&& last_row_with(es, disc_key(ds[j])) >= 0
    &&& forall|j2: int| 0 <= j2 < j ==> disc_key(#[trigger] ds[j2]) != disc_key(ds[j])
}

/// A file differs from its record in size or modification time, or the record has no
/// modification time.
pub open spec fn differs(d: DiscoveredAsset, e: ExistingAsset) -> bool {
    d.file_size != e.file_size || match e.fs_modified_at {
        None => true,
        Some(m) => d.fs_modified_at != m,
    }
}

/// The files with no record to compare with, in the order found.
pub open spec fn added_files(ds: Seq<DiscoveredAsset>, es: Seq<ExistingAsset>) -> Seq<DiscoveredAsset>
    decreases ds.len(),
{
    if ds.len() == 0 {
        Seq::empty()
    } else {
        let prev = added_files(ds.drop_last(), es);
        if is_first_match(ds, es, ds.len() - 1) {
            prev
        } else {
            prev.push(ds.last())
        }
    }
}

/// The files that differ from their record, with the record's id, in the order found.
pub open spec fn modified_files(ds: Seq<DiscoveredAsset>, es: Seq<ExistingAsset>) -> Seq<(i64, DiscoveredAsset)>
    decreases ds.len(),
{
    if ds.len() == 0 {
        Seq::empty()
    } else {
        let prev = modified_files(ds.drop_last(), es);
        let e = last_row_with(es, disc_key(ds.last()));
        if is_first_match(ds, es, ds.len() - 1) && differs(ds.last(), es[e]) {
            prev.push((es[e].id, ds.last()))
        } else {
            prev
        }
    }
}

/// How many files match their record.
pub open spec fn unchanged_files(ds: Seq<DiscoveredAsset>, es: Seq<ExistingAsset>) -> nat
    decreases ds.len(),
{
    if ds.len() == 0 {
        0
    } else {
        let prev = unchanged_files(ds.drop_last(), es);
        let e = last_row_with(es, disc_key(ds.last()));
        if is_first_match(ds, es, ds.len() - 1) && !differs(ds.last(), es[e]) {
            prev + 1
        } else {
            prev
        }
    }
}

/// The ids, in record order among the first `n` records, of the records that stand for
/// their key and whose key no file has.
pub open spec fn removed_rows(es: Seq<ExistingAsset>, ds: Seq<DiscoveredAsset>, n: int) -> Seq<i64>
    decreases n,
{
    if n <= 0 {
        Seq::empty()
    } else {
        let prev = removed_rows(es, ds, n - 1);
        let e = n - 1;
        if last_row_with(es, row_key(es[e])) == e && forall|j: int| 0 <= j < ds.len() ==> disc_key(#[trigger] ds[j])
            != row_key(es[e]) {
            prev.push(es[e].id)
        } else {
            prev
        }
    }
}

/// Some file among the first `j` has key `k`.
pub open spec fn seen_before(ds: Seq<DiscoveredAsset>, j: int, k: (Seq<char>, Seq<char>, Seq<char>)) -> bool {
    exists|j2: int| 0 <= j2 < j && #[trigger] disc_key(ds[j2]) == k
}

/// The hashes of the record keys.
pub open spec fn row_hashes(es: Seq<ExistingAsset>) -> Seq<u64> {
    es.map_values(|x: ExistingAsset| key_hash(row_key(x)))
}

/// `index` files every record under the hash of its key, in record order.
spec fn indexes(index: Map<u64, Vec<usize>>, hs: Seq<u64>) -> bool {
    &&& forall|h: u64| #[trigger] index.contains_key(h) ==> index[h]@ == positions_of(hs, h)
    &&& forall|h: u64| !#[trigger] index.contains_key(h) ==> positions_of(hs, h).len() == 0
}

/// The last record with the key `k`, looked up through the hash index of record keys.
fn find_last_row(
    ekeys: &Vec<AssetKey>,
    index: &HashMap<u64, Vec<usize>>,
    k: &AssetKey,
    Ghost(es): Ghost<Seq<ExistingAsset>>,
) -> (r: Option<usize>)
    requires
        ekeys@.len() == es.len(),
        forall|e: int| 0 <= e < es.len() ==> key_of(#[trigger] ekeys@[e]) == row_key(es[e]),
        indexes(index@, row_hashes(es)),
    ensures
        match r {
            None => last_row_with(es, key_of(*k)) == -1,
            Some(e) => e as int == last_row_with(es, key_of(*k)),
        },
{
    let ghost kv = key_of(*k);
    let ghost hs = row_hashes(es);
    let count = ekeys.len();
    let h = hash_asset_key(k);
    proof {
        lemma_last_row(es, kv);
        lemma_positions_valid(hs, h);
        let l = last_row_with(es, kv);
        if l >= 0 {
            assert(hs[l] == h);
            lemma_positions_complete(hs, h, l);
        }
    }
    match index.get(&h) {
        None => None,
        Some(bucket) => {
            let mut found: Option<usize> = None;
            let ghost mut at: int = -1;
            let mut t: usize = 0;
            while t < bucket.len()
                invariant
                    ekeys@.len() == es.len(),
                    count == es.len(),
                    forall|e: int| 0 <= e < es.len() ==> key_of(#[trigger] ekeys@[e]) == row_key(es[e]),
                    bucket@ == positions_of(hs, h),
                    hs == row_hashes(es),
                    forall|x: int| 0 <= x < positions_of(hs, h).len() ==> #[trigger] positions_of(hs, h)[x] < hs.len()
                        && hs[positions_of(hs, h)[x] as int] == h,
                    t <= bucket@.len(),
                    kv == key_of(*k),
                    found is None ==> forall|t2: int| 0 <= t2 < t ==> row_key(es[#[trigger] bucket@[t2] as int]) != kv,
                    found matches Some(e) ==> 0 <= at < t && bucket@[at] == e && row_key(es[e as int]) == kv
                        && forall|t2: int| at < t2 < t ==> row_key(es[#[trigger] bucket@[t2] as int]) != kv,
                decreases bucket@.len() - t,
            {
                let e = bucket[t];
                proof {
                    assert(e < hs.len());
                }
                if same_key(&ekeys[e], k) {
                    found = Some(e);
                    proof {
                        at = t as int;
                    }
                }
                t = t + 1;
            }
            proof {
                let l = last_row_with(es, kv);
                if l >= 0 {
                    let tl = choose|x: int| 0 <= x < bucket@.len() && bucket@[x] == l as usize;
                    assert(row_key(es[bucket@[tl] as int]) == kv);
                    match found {
                        None => {},
                        Some(e) => {
                            assert(row_key(es[e as int]) == kv);
                            assert(e as int <= l);
                            if (e as int) < l {
                                if tl <= at {
                                    if tl < at {
                                        assert(bucket@[tl] < bucket@[at]);
                                    }
                                }
                            }
                        },
                    }
                } else {
                    match found {
                        None => {},
                        Some(e) => {
                            assert(row_key(es[e as int]) == kv);
                        },
                    }
                }
            }
            found
        },
    }
}

/// Compares the files found on disk with the records of the folder: a file whose key no
/// record has is new; the first file with a record's key is compared with it and is
/// modified when its size or modification time differs, unchanged otherwise; a record
/// whose key no file has is removed. Where records share a key, the last one stands
/// for it.
pub fn compute_rescan_diff(discovered: Vec<DiscoveredAsset>, existing: Vec<ExistingAsset>) -> (r: RescanDiff)
    ensures
        r.added@ == added_files(discovered@, existing@),
        r.modified@ == modified_files(discovered@, existing@),
        r.unchanged_count == unchanged_files(discovered@, existing@),
        r.removed@ == removed_rows(existing@, discovered@, existing@.len() as int),
{
    let ghost ds = discovered@;
    let ghost es = existing@;
    let ghost hs = row_hashes(es);
    let m = existing.len();
    let mut ekeys: Vec<AssetKey> = Vec::new();
    let mut consumed: Vec<bool> = Vec::new();
    let mut index: HashMap<u64, Vec<usize>> = HashMap::new();
    let mut i: usize = 0;
    while i < m
        invariant
            i <= m,
            m == es.len(),
            es == existing@,
            hs == row_hashes(es),
            ekeys@.len() == i,
            forall|e: int| 0 <= e < i ==> key_of(#[trigger] ekeys@[e]) == row_key(es[e]),
            consumed@.len() == i,
            forall|e: int| 0 <= e < i ==> !#[trigger] consumed@[e],
            indexes(index@, hs.take(i as int)),
        decreases m - i,
    {
        let k = AssetKey::from_existing(&existing[i]);
        let h = hash_asset_key(&k);
        let ghost before = index@;
        let mut bucket: Vec<usize> = match index.remove(&h) {
            Some(b) => b,
            None => Vec::new(),
        };
        proof {
            assert(bucket@ == positions_of(hs.take(i as int), h));
            assert(index@ == before.remove(h));
        }
        bucket.push(i);
        index.insert(h, bucket);
        let ghost before_keys = ekeys@;
        ekeys.push(k);
        consumed.push(false);
        proof {
            assert(hs[i as int] == h);
            assert forall|hh: u64| #[trigger] positions_of(hs.take(i + 1), hh) == (if hs[i as int] == hh {
                positions_of(hs.take(i as int), hh).push(i)
            } else {
                positions_of(hs.take(i as int), hh)
            }) by {
                lemma_positions_step(hs, i as int, hh);
            }
            assert forall|hh: u64| #[trigger] index@.contains_key(hh) implies index@[hh]@ == positions_of(hs.take(i + 1), hh) by {
                if hh != h {
                    assert(before.contains_key(hh));
                }
            }
            assert forall|hh: u64| !#[trigger] index@.contains_key(hh) implies positions_of(hs.take(i + 1), hh).len() == 0 by {
                assert(hh != h);
                assert(!before.contains_key(hh));
            }
            assert forall|e: int| 0 <= e < i + 1 implies key_of(#[trigger] ekeys@[e]) == row_key(es[e]) by {
                if e < i {
                    assert(ekeys@[e] == before_keys[e]);
                }
            }
        }
        i = i + 1;
    }
    proof {
        assert(hs.take(m as int) =~= hs);
        assert forall|e: int| 0 <= e < m implies #[trigger] consumed@[e] == (last_row_with(es, row_key(es[e])) == e
            && seen_before(ds, 0, row_key(es[e]))) by {
            assert(!consumed@[e]);
        }
    }
    let n = discovered.len();
    let mut added: Vec<DiscoveredAsset> = Vec::new();
    let mut modified: Vec<(i64, DiscoveredAsset)> = Vec::new();
    let mut unchanged: usize = 0;
    let mut j: usize = 0;
    proof {
        assert(ds.take(0) =~= Seq::<DiscoveredAsset>::empty());
    }
    while j < n
        invariant
            j <= n,
            n == ds.len(),
            ds == discovered@,
            m == es.len(),
            es == existing@,
            hs == row_hashes(es),
            ekeys@.len() == m,
            forall|e: int| 0 <= e < m ==> key_of(#[trigger] ekeys@[e]) == row_key(es[e]),
            indexes(index@, hs),
            consumed@.len() == m,
            forall|e: int| 0 <= e < m ==> #[trigger] consumed@[e] == (last_row_with(es, row_key(es[e])) == e
                && seen_before(ds, j as int, row_key(es[e]))),
            added@ == added_files(ds.take(j as int), es),
            modified@ == modified_files(ds.take(j as int), es),
            unchanged == unchanged_files(ds.take(j as int), es),
            unchanged <= j,
        decreases n - j,
    {
        let d = &discovered[j];
        let k = AssetKey::from_discovered(d);
        let found = find_last_row(&ekeys, &index, &k, Ghost(es));
        let ghost kv = disc_key(ds[j as int]);
        let ghost pre = ds.take(j as int);
        let ghost post = ds.take(j + 1);
        proof {
            lemma_last_row(es, kv);
            assert(post.drop_last() =~= pre);
            assert(post.last() == ds[j as int]);
            assert(post.len() - 1 == j);
            assert(is_first_match(post, es, j as int) == (last_row_with(es, kv) >= 0 && !seen_before(ds, j as int, kv))) by {
                if seen_before(ds, j as int, kv) {
                    let j2 = choose|j2: int| 0 <= j2 < j && #[trigger] disc_key(ds[j2]) == kv;
                    assert(post[j2] == ds[j2]);
                }
                assert forall|j2: int| 0 <= j2 < j implies #[trigger] post[j2] == ds[j2] by {}
            }
            assert forall|e: int| 0 <= e < m && row_key(es[e]) != kv implies seen_before(ds, j + 1, row_key(es[e]))
                == seen_before(ds, j as int, row_key(es[e])) by {
                if seen_before(ds, j + 1, row_key(es[e])) {
                    let j2 = choose|j2: int| 0 <= j2 < j + 1 && #[trigger] disc_key(ds[j2]) == row_key(es[e]);
                    assert(j2 < j);
                }
            }
        }
        match found {
            Some(e) => {
                proof {
                    assert(consumed@[e as int] == seen_before(ds, j as int, kv));
                }
                if !consumed[e] {
                    let ghost before = consumed@;
                    consumed.set(e, true);
                    let ex = &existing[e];
                    let changed = d.file_size != ex.file_size || match ex.fs_modified_at {
                        None => true,
                        Some(mt) => d.fs_modified_at != mt,
                    };
                    proof {
                        assert(changed == differs(ds[j as int], es[e as int]));
                        assert forall|x: int| 0 <= x < m implies #[trigger] consumed@[x] == (last_row_with(es, row_key(es[x])) == x
                            && seen_before(ds, j + 1, row_key(es[x]))) by {
                            if x == e as int {
                                assert(disc_key(ds[j as int]) == row_key(es[x]));
                            } else {
                                assert(consumed@[x] == before[x]);
                                if row_key(es[x]) == kv {
                                    assert(last_row_with(es, row_key(es[x])) != x);
                                }
                            }
                        }
                    }
                    if changed {
                        modified.push((ex.id, d.copy()));
                    } else {
                        unchanged = unchanged + 1;
                    }
                } else {
                    added.push(d.copy());
                    proof {
                        assert forall|x: int| 0 <= x < m implies #[trigger] consumed@[x] == (last_row_with(es, row_key(es[x])) == x
                            && seen_before(ds, j + 1, row_key(es[x]))) by {
                            if row_key(es[x]) == kv {
                                assert(seen_before(ds, j + 1, kv));
                                if x != e as int {
                                    assert(last_row_with(es, row_key(es[x])) != x);
                                }
                            }
                        }
                    }
                }
            },
            None => {
                added.push(d.copy());
                proof {
                    assert forall|x: int| 0 <= x < m implies #[trigger] consumed@[x] == (last_row_with(es, row_key(es[x])) == x
                        && seen_before(ds, j + 1, row_key(es[x]))) by {
                        assert(row_key(es[x]) != kv);
                    }
                }
            },
        }
        j = j + 1;
    }
    proof {
        assert(ds.take(n as int) =~= ds);
    }
    let mut removed: Vec<i64> = Vec::new();
    let mut e: usize = 0;
    while e < m
        invariant
            e <= m,
            n == ds.len(),
            m == es.len(),
            es == existing@,
            ekeys@.len() == m,
            forall|x: int| 0 <= x < m ==> key_of(#[trigger] ekeys@[x]) == row_key(es[x]),
            indexes(index@, row_hashes(es)),
            consumed@.len() == m,
            forall|x: int| 0 <= x < m ==> #[trigger] consumed@[x] == (last_row_with(es, row_key(es[x])) == x
                && seen_before(ds, n as int, row_key(es[x]))),
            removed@ == removed_rows(es, ds, e as int),
        decreases m - e,
    {
        let last = find_last_row(&ekeys, &index, &ekeys[e], Ghost(es));
        let stands = match last {
            Some(l) => l == e,
            None => false,
        };
        proof {
            let kx = row_key(es[e as int]);
            assert(seen_before(ds, n as int, kx) == !(forall|jj: int| 0 <= jj < ds.len() ==> disc_key(#[trigger] ds[jj]) != kx));
            lemma_last_row(es, kx);
            assert(stands == (last_row_with(es, kx) == e));
        }
        if stands && !consumed[e] {
            removed.push(existing[e].id);
        }
        e = e + 1;
    }
    RescanDiff { added, removed, modified, unchanged_count: unchanged }
}

/// Every file found is counted once: as new, modified or unchanged.
pub proof fn law_rescan_accounts_for_every_file(ds: Seq<DiscoveredAsset>, es: Seq<ExistingAsset>)
    ensures
        added_files(ds, es).len() + modified_files(ds, es).len() + unchanged_files(ds, es) == ds.len(),
    decreases ds.len(),
{
    if ds.len() > 0 {
        law_rescan_accounts_for_every_file(ds.drop_last(), es);
    }
}

/// Each file found settles its own place in the diff. Let record `e` be the last record
/// with the file's key. The first file with that key is reported modified, with the
/// record's id, exactly when its size differs from the record's or its modification
/// time is not the recorded one (earlier or later, or none recorded), and counted
/// unchanged exactly when both are equal; a later file with the same key is new. A
/// file adds nothing to the lists it does not go to.
pub proof fn law_file_against_its_record(ds: Seq<DiscoveredAsset>, es: Seq<ExistingAsset>, j: int, e: int)
    requires
        0 <= j < ds.len(),
        0 <= e < es.len(),
        row_key(es[e]) == disc_key(ds[j]),
        forall|e2: int| e < e2 < es.len() ==> row_key(#[trigger] es[e2]) != disc_key(ds[j]),
    ensures
        ({
            let first = forall|j2: int| 0 <= j2 < j ==> disc_key(#[trigger] ds[j2]) != disc_key(ds[j]);
            let changed = ds[j].file_size != es[e].file_size || es[e].fs_modified_at != Some(ds[j].fs_modified_at);
            let (a0, m0, u0) = (added_files(ds.take(j), es), modified_files(ds.take(j), es), unchanged_files(ds.take(j), es));
            let (a1, m1, u1) = (added_files(ds.take(j + 1), es), modified_files(ds.take(j + 1), es), unchanged_files(ds.take(j + 1), es));
            &&& first && changed ==> a1 == a0 && m1 == m0.push((es[e].id, ds[j])) && u1 == u0
            &&& first && !changed ==> a1 == a0 && m1 == m0 && u1 == u0 + 1
            &&& !first ==> a1 == a0.push(ds[j]) && m1 == m0 && u1 == u0
        }),
{
    lemma_last_row(es, disc_key(ds[j]));
    let l = last_row_with(es, disc_key(ds[j]));
    if l != e {
        if l < e {
            assert(row_key(es[e]) != disc_key(ds[j]));
        } else {
            assert(row_key(es[l]) != disc_key(ds[j]));
        }
    }
    lemma_file_step(ds, es, j);
}

/// A file whose key no record has is new: it is added, and adds nothing to the modified
/// files or the unchanged count.
pub proof fn law_unrecorded_file_is_added(ds: Seq<DiscoveredAsset>, es: Seq<ExistingAsset>, j: int)
    requires
        0 <= j < ds.len(),
        forall|e: int| 0 <= e < es.len() ==> row_key(#[trigger] es[e]) != disc_key(ds[j]),
    ensures
        added_files(ds.take(j + 1), es) == added_files(ds.take(j), es).push(ds[j]),
        modified_files(ds.take(j + 1), es) == modified_files(ds.take(j), es),
        unchanged_files(ds.take(j + 1), es) == unchanged_files(ds.take(j), es),
{
    lemma_last_row(es, disc_key(ds[j]));
    if last_row_with(es, disc_key(ds[j])) >= 0 {
        assert(row_key(es[last_row_with(es, disc_key(ds[j]))]) == disc_key(ds[j]));
    }
    lemma_file_step(ds, es, j);
}

/// In particular, a file of the recorded size whose modification time is not the
/// recorded one, in either direction, is never counted unchanged: it is reported
/// modified, so it is indexed again.
pub proof fn law_moved_time_is_modified(ds: Seq<DiscoveredAsset>, es: Seq<ExistingAsset>, j: int, e: int, m: i64)
    requires
        0 <= j < ds.len(),
        0 <= e < es.len(),
        row_key(es[e]) == disc_key(ds[j]),
        forall|e2: int| e < e2 < es.len() ==> row_key(#[trigger] es[e2]) != disc_key(ds[j]),
        forall|j2: int| 0 <= j2 < j ==> disc_key(#[trigger] ds[j2]) != disc_key(ds[j]),
        es[e].fs_modified_at == Some(m),
        ds[j].fs_modified_at != m,
    ensures
        modified_files(ds.take(j + 1), es) == modified_files(ds.take(j), es).push((es[e].id, ds[j])),
        unchanged_files(ds.take(j + 1), es) == unchanged_files(ds.take(j), es),
{
    law_file_against_its_record(ds, es, j, e);
}

/// One step of the three lists, over the file at `j`.
proof fn lemma_file_step(ds: Seq<DiscoveredAsset>, es: Seq<ExistingAsset>, j: int)
    requires
        0 <= j < ds.len(),
    ensures
        ({
            let e = last_row_with(es, disc_key(ds[j]));
            let first = e >= 0 && forall|j2: int| 0 <= j2 < j ==> disc_key(#[trigger] ds[j2]) != disc_key(ds[j]);
            let changed = ds[j].file_size != es[e].file_size || es[e].fs_modified_at != Some(ds[j].fs_modified_at);
            let (a0, m0, u0) = (added_files(ds.take(j), es), modified_files(ds.take(j), es), unchanged_files(ds.take(j), es));
            let (a1, m1, u1) = (added_files(ds.take(j + 1), es), modified_files(ds.take(j + 1), es), unchanged_files(ds.take(j + 1), es));
            &&& first && changed ==> a1 == a0 && m1 == m0.push((es[e].id, ds[j])) && u1 == u0
            &&& first && !changed ==> a1 == a0 && m1 == m0 && u1 == u0 + 1
            &&& !first ==> a1 == a0.push(ds[j]) && m1 == m0 && u1 == u0
        }),
{
    let d1 = ds.take(j + 1);
    assert(d1.drop_last() =~= ds.take(j));
    assert(d1.last() == ds[j]);
    assert forall|j2: int| 0 <= j2 < j implies d1[j2] == ds[j2] by {}
    let e = last_row_with(es, disc_key(ds[j]));
    assert(is_first_match(d1, es, j) == (e >= 0 && forall|j2: int| 0 <= j2 < j ==> disc_key(#[trigger] ds[j2]) != disc_key(ds[j])));
    assert(differs(ds[j], es[e]) == (ds[j].file_size != es[e].file_size || es[e].fs_modified_at != Some(ds[j].fs_modified_at)));
}

/// The removed records are exactly those that stand for their key (no later record has
/// the same key) and whose key no file has.
pub proof fn law_removed_records(es: Seq<ExistingAsset>, ds: Seq<DiscoveredAsset>, n: int)
    requires
        0 <= n <= es.len(),
    ensures
        removed_rows(es, ds, n).len() <= n,
        forall|t: int| 0 <= t < removed_rows(es, ds, n).len() ==> exists|e: int| 0 <= e < n
            && #[trigger] removed_rows(es, ds, n)[t] == es[e].id && last_row_with(es, row_key(es[e])) == e
            && forall|j: int| 0 <= j < ds.len() ==> disc_key(#[trigger] ds[j]) != row_key(es[e]),
        forall|e: int| 0 <= e < n && last_row_with(es, row_key(es[e])) == e
            && (forall|j: int| 0 <= j < ds.len() ==> disc_key(#[trigger] ds[j]) != row_key(es[e]))
            ==> removed_rows(es, ds, n).contains(es[e].id),
    decreases n,
{
    if n > 0 {
        law_removed_records(es, ds, n - 1);
        let prev = removed_rows(es, ds, n - 1);
        let cur = removed_rows(es, ds, n);
        assert forall|e: int| 0 <= e < n && last_row_with(es, row_key(es[e])) == e
            && (forall|j: int| 0 <= j < ds.len() ==> disc_key(#[trigger] ds[j]) != row_key(es[e]))
            implies cur.contains(es[e].id) by {
            if e < n - 1 {
                assert(prev.contains(es[e].id));
                let t = choose|t: int| 0 <= t < prev.len() && prev[t] == es[e].id;
                assert(cur[t] == es[e].id);
            } else {
                assert(cur.last() == es[e].id);
            }
        }
        assert forall|t: int| 0 <= t < cur.len() implies exists|e: int| 0 <= e < n
            && #[trigger] cur[t] == es[e].id && last_row_with(es, row_key(es[e])) == e
            && forall|j: int| 0 <= j < ds.len() ==> disc_key(#[trigger] ds[j]) != row_key(es[e]) by {
            if t < prev.len() {
                assert(cur[t] == prev[t]);
                let e = choose|e: int| 0 <= e < n - 1 && #[trigger] prev[t] == es[e].id && last_row_with(es, row_key(es[e])) == e
                    && forall|j: int| 0 <= j < ds.len() ==> disc_key(#[trigger] ds[j]) != row_key(es[e]);
                assert(cur[t] == es[e].id);
            } else {
                assert(cur[t] == es[n - 1].id);
            }
        }
    }
}

/// How long a preview may wait before it is applied, in seconds.
pub const PREVIEW_MAX_AGE_SECS: u64 = 1800;

/// A preview older than `PREVIEW_MAX_AGE_SECS` is refused: the disk may have changed.
pub open spec fn preview_expired_spec(age_secs: u64) -> bool {
    age_secs > PREVIEW_MAX_AGE_SECS
}

/// A preview older than `PREVIEW_MAX_AGE_SECS` is refused: the disk may have changed.
pub fn preview_expired(age_secs: u64) -> (r: bool)
    ensures
        r == preview_expired_spec(age_secs),
{
    age_secs > PREVIEW_MAX_AGE_SECS
}

/// The text refusing an apply request for a folder that has no preview waiting.
pub open spec fn no_preview_text(folder_id: int) -> Seq<char> {
    "No pending rescan preview for folder "@ + signed_decimal(folder_id)
}

/// The text refusing an apply request for a preview that waited too long.
pub open spec fn expired_text() -> Seq<char> {
    "Rescan preview expired (older than 30 minutes). Please preview again."@
}

/// The seconds from `created_at` to `now`; none where the clock went back.
pub open spec fn preview_age(created_at: u64, now: u64) -> u64 {
    if now >= created_at {
        (now - created_at) as u64
    } else {
        0
    }
}

/// A preview waiting to be applied: the changes found, and when they were found, in
/// seconds.
pub struct PendingPreview {
    pub diff: RescanDiff,
    pub created_at: u64,
}

/// The previews waiting to be applied, at most one per folder.
pub struct RescanPreviews {
    pending: HashMap<i64, PendingPreview>,
}

impl View for RescanPreviews {
    type V = Map<i64, PendingPreview>;

    closed spec fn view(&self) -> Map<i64, PendingPreview> {
        self.pending@
    }
}

impl RescanPreviews {
    /// No preview waiting.
    pub fn new() -> (r: RescanPreviews)
        ensures
            r@ == Map::<i64, PendingPreview>::empty(),
    {
        RescanPreviews { pending: HashMap::new() }
    }

    /// Keeps the preview of `folder_id`, made at `now`, in place of any earlier one.
    pub fn store(&mut self, folder_id: i64, diff: RescanDiff, now: u64)
        ensures
            final(self)@ == old(self)@.insert(folder_id, PendingPreview { diff, created_at: now }),
    {
        broadcast use vstd::std_specs::hash::group_hash_axioms;
        self.pending.insert(folder_id, PendingPreview { diff, created_at: now });
    }

    /// Takes the preview of `folder_id` out, whatever comes of it, and hands its changes
    /// back when it is at most `PREVIEW_MAX_AGE_SECS` old at `now`. With no preview
    /// waiting, or an expired one, the request is refused with the reason.
    pub fn take(&mut self, folder_id: i64, now: u64) -> (r: Result<RescanDiff, String>)
        ensures
            final(self)@ == old(self)@.remove(folder_id),
            !old(self)@.contains_key(folder_id) ==> (r matches Err(e) && e@ == no_preview_text(folder_id as int)),
            old(self)@.contains_key(folder_id) ==> {
                let p = old(self)@[folder_id];
                if preview_expired_spec(preview_age(p.created_at, now)) {
                    (r matches Err(e) && e@ == expired_text())
                } else {
                    r == Ok::<RescanDiff, String>(p.diff)
                }
            },
    {
        broadcast use vstd::std_specs::hash::group_hash_axioms;
        match self.pending.remove(&folder_id) {
            None => {
                let id = signed_decimal_text(folder_id);
                let msg = "No pending rescan preview for folder ".to_string().concat(id.as_str());
                proof {
                    reveal_strlit("No pending rescan preview for folder ");
                }
                Err(msg)
            },
            Some(p) => {
                let age = if now >= p.created_at {
                    now - p.created_at
                } else {
                    0
                };
                if preview_expired(age) {
                    proof {
                        reveal_strlit("Rescan preview expired (older than 30 minutes). Please preview again.");
                    }
                    Err("Rescan preview expired (older than 30 minutes). Please preview again.".to_string())
                } else {
                    Ok(p.diff)
                }
            },
        }
    }
}

impl RescanDiff {
    /// The counts of the preview reported to the frontend.
    pub fn preview_result(&self, preview_id: String) -> (r: RescanPreviewResult)
        ensures
            r.preview_id == preview_id,
            r.added_count == self.added@.len(),
            r.removed_count == self.removed@.len(),
            r.modified_count == self.modified@.len(),
            r.unchanged_count == self.unchanged_count,
    {
        RescanPreviewResult {
            preview_id,
            added_count: self.added.len(),
            removed_count: self.removed.len(),
            modified_count: self.modified.len(),
            unchanged_count: self.unchanged_count,
        }
    }

    /// The counts reported once the preview is applied.
    pub fn apply_result(&self) -> (r: RescanApplyResult)
        ensures
            r.inserted == self.added@.len(),
            r.deleted == self.removed@.len(),
            r.updated == self.modified@.len(),
    {
        RescanApplyResult { inserted: self.added.len(), deleted: self.removed.len(), updated: self.modified.len() }
    }
}

/// Storing a preview for a folder replaces what was kept for it and leaves the other
/// folders alone; taking it out leaves nothing for that folder, so a second apply of
/// the same preview finds none.
pub proof fn law_preview_kept_once(m: Map<i64, PendingPreview>, folder_id: i64, other: i64, diff: RescanDiff, now: u64)
    requires
        other != folder_id,
    ensures
        m.insert(folder_id, PendingPreview { diff, created_at: now })[folder_id] == (PendingPreview { diff, created_at: now }),
        m.insert(folder_id, PendingPreview { diff, created_at: now }).contains_key(other) == m.contains_key(other),
        m.contains_key(other) ==> m.insert(folder_id, PendingPreview { diff, created_at: now })[other] == m[other],
        !m.insert(folder_id, PendingPreview { diff, created_at: now }).remove(folder_id).contains_key(folder_id),
{
}

} // verus!
