//! Planning a processing run: which assets share a batch, and in which order batches are
//! handed to the workers.
//!
//! Image and audio runs group the assets of each nested archive together, so that the
//! archive is unpacked once, and hand out the largest groups first; the other assets go
//! one per batch. Embedding runs order the assets by group key and cut batches that never
//! mix two keys.

use vstd::prelude::*;
use vstd::utf8::encode_utf8;
use crate::models::{Asset, ProcessingCategory};
use crate::zip_cache::{group_key_of, nested_zip_group_key};
use crate::grouping::{group_by_key, key_view, keys_view, names_view, positions_of, groups_by_key,
    lemma_positions_valid, lemma_positions_complete};
use crate::text::{bytes_lt, str_lt, lemma_bytes_lt_total, lemma_bytes_lt_transitive};

verus! {

/// Assets per embedding batch.
pub const CLAP_BATCH_SIZE: usize = 16;

/// Assets per batch of a nested-archive group.
pub const NESTED_ZIP_BATCH_SIZE: usize = 8;

/// A batch of assets handed to one worker.
pub struct WorkBatch {
    pub category: ProcessingCategory,
    /// The run the batch belongs to; batches of an earlier run are dropped.
    pub generation: u64,
    pub assets: Vec<Asset>,
    pub pre_generate_thumbnails: bool,
}

/// The batches of one nested archive.
pub struct ZipBatchGroup {
    pub key: String,
    pub batches: Vec<WorkBatch>,
}

/// The dispatch plan of a run.
pub struct BatchPlan {
    /// Batches grouped by nested archive, largest group first.
    pub zip_groups: Vec<ZipBatchGroup>,
    /// The other batches: single assets, or the embedding batches.
    pub non_zip: Vec<WorkBatch>,
}

/// `s` cut into consecutive pieces of `n` items; the last piece may be shorter.
pub open spec fn chunks<A>(s: Seq<A>, n: nat) -> Seq<Seq<A>>
    decreases s.len(),
{
    if s.len() == 0 || n == 0 {
        Seq::empty()
    } else if s.len() <= n {
        seq![s]
    } else {
        seq![s.take(n as int)] + chunks(s.skip(n as int), n)
    }
}

/// The assets at the positions `ps`, in that order.
pub open spec fn picks(assets: Seq<Asset>, ps: Seq<usize>) -> Seq<Asset> {
    ps.map_values(|p: usize| assets[p as int])
}

/// The group key of each asset.
pub open spec fn asset_keys(assets: Seq<Asset>) -> Seq<Option<Seq<char>>> {
    assets.map_values(|a: Asset| group_key_of(a))
}

/// The assets of each batch.
pub open spec fn batch_assets(bs: Seq<WorkBatch>) -> Seq<Seq<Asset>> {
    bs.map_values(|b: WorkBatch| b.assets@)
}

/// Every batch carries the run's category, generation and thumbnail flag.
pub open spec fn batches_tagged(bs: Seq<WorkBatch>, category: ProcessingCategory, generation: u64, pre: bool) -> bool {
    forall|j: int| 0 <= j < bs.len() ==> #[trigger] bs[j].category == category && bs[j].generation == generation
        && bs[j].pre_generate_thumbnails == pre
}

/// The order of group keys: no key first, then keys by their UTF-8 bytes.
pub open spec fn key_lt(a: Option<Seq<char>>, b: Option<Seq<char>>) -> bool {
    match (a, b) {
        (None, Some(_)) => true,
        (Some(x), Some(y)) => bytes_lt(encode_utf8(x), encode_utf8(y)),
        _ => false,
    }
}

/// The batches of the keys of `order`, key after key, each key's assets cut into
/// pieces of `n`.
pub open spec fn batches_in_key_order(
    assets: Seq<Asset>,
    ks: Seq<Option<Seq<char>>>,
    order: Seq<Option<Seq<char>>>,
    n: nat,
) -> Seq<Seq<Asset>>
    decreases order.len(),
{
    if order.len() == 0 {
        Seq::empty()
    } else {
        batches_in_key_order(assets, ks, order.drop_last(), n) + chunks(picks(assets, positions_of(ks, order.last())), n)
    }
}

/// `order` lists each key of `ks` once, in increasing key order.
pub open spec fn is_key_order(ks: Seq<Option<Seq<char>>>, order: Seq<Option<Seq<char>>>) -> bool {
    &&& forall|a: int| 0 <= a < order.len() - 1 ==> key_lt(#[trigger] order[a], order[a + 1])
    &&& forall|a: int| 0 <= a < order.len() ==> #[trigger] positions_of(ks, order[a]).len() > 0
    &&& forall|i: int| 0 <= i < ks.len() ==> order.contains(#[trigger] ks[i])
}

/// Appends to `out` the batches of the assets at `ps`, `size` assets per batch.
fn push_batches(
    out: &mut Vec<WorkBatch>,
    assets: &Vec<Asset>,
    ps: &Vec<usize>,
    size: usize,
    category: ProcessingCategory,
    generation: u64,
    pre: bool,
)
    requires
        size > 0,
        forall|j: int| 0 <= j < ps@.len() ==> #[trigger] ps@[j] < assets@.len(),
        batches_tagged(old(out)@, category, generation, pre),
    ensures
        batch_assets(final(out)@) == batch_assets(old(out)@) + chunks(picks(assets@, ps@), size as nat),
        batches_tagged(final(out)@, category, generation, pre),
{
    let ghost x = picks(assets@, ps@);
    let ghost start = batch_assets(out@);
    let n = ps.len();
    let mut s: usize = 0;
    proof {
        assert(x.skip(0) =~= x);
    }
    while s < n
        invariant
            s <= n,
            n == ps@.len(),
            size > 0,
            x == picks(assets@, ps@),
            forall|j: int| 0 <= j < ps@.len() ==> #[trigger] ps@[j] < assets@.len(),
            batch_assets(out@) + chunks(x.skip(s as int), size as nat) == start + chunks(x, size as nat),
            batches_tagged(out@, category, generation, pre),
        decreases n - s,
    {
        let end: usize = if n - s <= size { n } else { s + size };
        let mut piece: Vec<Asset> = Vec::new();
        let mut t: usize = s;
        while t < end
            invariant
                s <= t <= end,
                end <= n,
                n == ps@.len(),
                x == picks(assets@, ps@),
                forall|j: int| 0 <= j < ps@.len() ==> #[trigger] ps@[j] < assets@.len(),
                piece@ == x.subrange(s as int, t as int),
            decreases end - t,
        {
            let p = ps[t];
            piece.push(assets[p].copy());
            proof {
                assert(x.subrange(s as int, t + 1) =~= x.subrange(s as int, t as int).push(x[t as int]));
            }
            t = t + 1;
        }
        proof {
            let y = x.skip(s as int);
            if n - s <= size {
                assert(y =~= x.subrange(s as int, end as int));
                assert(x.skip(end as int) =~= Seq::<Asset>::empty());
                assert(chunks(x.skip(end as int), size as nat) =~= Seq::<Seq<Asset>>::empty());
            } else {
                assert(y.take(size as int) =~= x.subrange(s as int, end as int));
                assert(y.skip(size as int) =~= x.skip(end as int));
            }
            assert(chunks(y, size as nat) == seq![piece@] + chunks(x.skip(end as int), size as nat));
        }
        let ghost before = out@;
        out.push(WorkBatch { category, generation, assets: piece, pre_generate_thumbnails: pre });
        proof {
            assert(batch_assets(out@) =~= batch_assets(before).push(piece@));
            assert(batch_assets(out@) + chunks(x.skip(end as int), size as nat) =~= batch_assets(before) + (seq![piece@]
                + chunks(x.skip(end as int), size as nat)));
            assert forall|j: int| 0 <= j < out@.len() implies #[trigger] out@[j].category == category
                && out@[j].generation == generation && out@[j].pre_generate_thumbnails == pre by {
                if j < before.len() {
                    assert(out@[j] == before[j]);
                }
            }
        }
        s = end;
    }
    proof {
        assert(x.skip(n as int) =~= Seq::<Asset>::empty());
        assert(batch_assets(out@) + chunks(x.skip(n as int), size as nat) =~= batch_assets(out@));
    }
}

/// `s` lists each of `0..n` exactly once.
pub open spec fn is_arrangement(s: Seq<usize>, n: nat) -> bool {
    &&& s.len() == n
    &&& forall|j: int| 0 <= j < s.len() ==> #[trigger] s[j] < n
    &&& forall|a: int, b: int| 0 <= a < b < s.len() ==> #[trigger] s[a] != #[trigger] s[b]
    &&& forall|x: usize| x < n ==> #[trigger] s.contains(x)
}

/// Inserting the next number anywhere keeps an arrangement.
proof fn lemma_arrangement_insert(s: Seq<usize>, p: int)
    requires
        is_arrangement(s, s.len()),
        0 <= p <= s.len(),
        s.len() < usize::MAX,
    ensures
        is_arrangement(s.insert(p, s.len() as usize), s.len() + 1),
{
    let n = s.len();
    let t = s.insert(p, n as usize);
    s.insert_ensures(p, n as usize);
    assert forall|j: int| 0 <= j < t.len() implies #[trigger] t[j] < n + 1 by {
        if j > p {
            assert(t[j] == s[j - 1]);
        }
    }
    assert forall|a: int, b: int| 0 <= a < b < t.len() implies #[trigger] t[a] != #[trigger] t[b] by {
        if b < p {
            assert(s[a] != s[b]);
        } else if b == p {
            assert(t[a] == s[a]);
        } else if a < p {
            assert(t[b] == s[b - 1]);
            assert(s[a] != s[b - 1]);
        } else if a == p {
            assert(t[b] == s[b - 1]);
        } else {
            assert(t[a] == s[a - 1]);
            assert(t[b] == s[b - 1]);
            assert(s[a - 1] != s[b - 1]);
        }
    }
    assert forall|x: usize| x < n + 1 implies #[trigger] t.contains(x) by {
        if x == n {
            assert(t[p] == x);
        } else {
            assert(s.contains(x));
            let j = choose|j: int| 0 <= j < s.len() && s[j] == x;
            if j < p {
                assert(t[j] == x);
            } else {
                assert(t[j + 1] == x);
            }
        }
    }
}

/// The group numbers `0..sizes.len()`, largest size first; equal sizes keep their order.
fn order_by_size_desc(sizes: &Vec<usize>) -> (r: Vec<usize>)
    ensures
        is_arrangement(r@, sizes@.len() as nat),
        forall|a: int, b: int| 0 <= a < b < r@.len() ==> sizes@[#[trigger] r@[a] as int] >= sizes@[#[trigger] r@[b] as int],
{
    let n = sizes.len();
    let mut r: Vec<usize> = Vec::new();
    let mut g: usize = 0;
    while g < n
        invariant
            g <= n,
            n == sizes@.len(),
            is_arrangement(r@, g as nat),
            forall|a: int, b: int| 0 <= a < b < r@.len() ==> sizes@[#[trigger] r@[a] as int] >= sizes@[#[trigger] r@[b] as int],
        decreases n - g,
    {
        let mut p: usize = 0;
        while p < r.len() && sizes[r[p]] >= sizes[g]
            invariant
                p <= r@.len(),
                g < n,
                n == sizes@.len(),
                is_arrangement(r@, g as nat),
                forall|q: int| 0 <= q < p ==> sizes@[#[trigger] r@[q] as int] >= sizes@[g as int],
            decreases r@.len() - p,
        {
            p = p + 1;
        }
        let ghost old_r = r@;
        r.insert(p, g);
        proof {
            lemma_arrangement_insert(old_r, p as int);
            old_r.insert_ensures(p as int, g);
            let t = r@;
            assert forall|a: int, b: int| 0 <= a < b < t.len() implies sizes@[#[trigger] t[a] as int] >= sizes@[#[trigger] t[b] as int] by {
                if b < p {
                    assert(sizes@[old_r[a] as int] >= sizes@[old_r[b] as int]);
                } else if b == p {
                    assert(t[a] == old_r[a]);
                    assert(sizes@[old_r[a] as int] >= sizes@[g as int]);
                } else if a < p {
                    assert(t[b] == old_r[b - 1]);
                    assert(sizes@[old_r[a] as int] >= sizes@[old_r[b - 1] as int]);
                } else if a == p {
                    assert(t[b] == old_r[b - 1]);
                    assert(sizes@[old_r[p as int] as int] < sizes@[g as int]);
                    if p < b - 1 {
                        assert(sizes@[old_r[p as int] as int] >= sizes@[old_r[b - 1] as int]);
                    }
                } else {
                    assert(t[a] == old_r[a - 1]);
                    assert(t[b] == old_r[b - 1]);
                    assert(sizes@[old_r[a - 1] as int] >= sizes@[old_r[b - 1] as int]);
                }
            }
        }
        g = g + 1;
    }
    r
}

/// The positions `0..names.len()` ordered by the names' UTF-8 bytes.
fn order_by_name(names: &Vec<String>) -> (r: Vec<usize>)
    requires
        forall|a: int, b: int| 0 <= a < b < names@.len() ==> #[trigger] names@[a]@ != #[trigger] names@[b]@,
    ensures
        is_arrangement(r@, names@.len() as nat),
        forall|a: int, b: int| 0 <= a < b < r@.len() ==> bytes_lt(
            encode_utf8(names@[#[trigger] r@[a] as int]@),
            encode_utf8(names@[#[trigger] r@[b] as int]@),
        ),
{
    let n = names.len();
    let mut r: Vec<usize> = Vec::new();
    let mut g: usize = 0;
    while g < n
        invariant
            g <= n,
            n == names@.len(),
            forall|a: int, b: int| 0 <= a < b < names@.len() ==> #[trigger] names@[a]@ != #[trigger] names@[b]@,
            is_arrangement(r@, g as nat),
            forall|a: int, b: int| 0 <= a < b < r@.len() ==> bytes_lt(
                encode_utf8(names@[#[trigger] r@[a] as int]@),
                encode_utf8(names@[#[trigger] r@[b] as int]@),
            ),
        decreases n - g,
    {
        let mut p: usize = 0;
        while p < r.len() && !str_lt(names[g].as_str(), names[r[p]].as_str())
            invariant
                p <= r@.len(),
                g < n,
                n == names@.len(),
                is_arrangement(r@, g as nat),
                forall|q: int| 0 <= q < p ==> !bytes_lt(encode_utf8(names@[g as int]@), encode_utf8(names@[#[trigger] r@[q] as int]@)),
            decreases r@.len() - p,
        {
            p = p + 1;
        }
        let ghost old_r = r@;
        r.insert(p, g);
        proof {
            lemma_arrangement_insert(old_r, p as int);
            old_r.insert_ensures(p as int, g);
            let t = r@;
            let bg = encode_utf8(names@[g as int]@);
            assert forall|a: int, b: int| 0 <= a < b < t.len() implies bytes_lt(
                encode_utf8(names@[#[trigger] t[a] as int]@),
                encode_utf8(names@[#[trigger] t[b] as int]@),
            ) by {
                if b < p {
                    assert(t[a] == old_r[a] && t[b] == old_r[b]);
                } else if b == p {
                    assert(t[a] == old_r[a]);
                    let ba = encode_utf8(names@[old_r[a] as int]@);
                    assert(!bytes_lt(bg, ba));
                    assert(old_r[a] < g);
                    assert(names@[old_r[a] as int]@ != names@[g as int]@);
                    vstd::utf8::encode_utf8_decode_utf8(names@[old_r[a] as int]@);
                    vstd::utf8::encode_utf8_decode_utf8(names@[g as int]@);
                    lemma_bytes_lt_total(ba, bg);
                } else if a < p {
                    assert(t[a] == old_r[a]);
                    assert(t[b] == old_r[b - 1]);
                } else if a == p {
                    assert(t[b] == old_r[b - 1]);
                    let bp = encode_utf8(names@[old_r[p as int] as int]@);
                    assert(bytes_lt(bg, bp));
                    if p < b - 1 {
                        assert(bytes_lt(bp, encode_utf8(names@[old_r[b - 1] as int]@)));
                        lemma_bytes_lt_transitive(bg, bp, encode_utf8(names@[old_r[b - 1] as int]@));
                    }
                } else {
                    assert(t[a] == old_r[a - 1]);
                    assert(t[b] == old_r[b - 1]);
                }
            }
        }
        g = g + 1;
    }
    r
}

/// The group key of each asset.
fn group_keys(assets: &Vec<Asset>) -> (r: Vec<Option<String>>)
    ensures
        keys_view(r@) == asset_keys(assets@),
{
    let n = assets.len();
    let mut keys: Vec<Option<String>> = Vec::new();
    let mut i: usize = 0;
    while i < n
        invariant
            i <= n,
            n == assets@.len(),
            keys_view(keys@) == asset_keys(assets@).take(i as int),
        decreases n - i,
    {
        let k = nested_zip_group_key(&assets[i]);
        let ghost before = keys@;
        keys.push(k);
        proof {
            assert(key_view(k) == group_key_of(assets@[i as int]));
            assert(keys_view(keys@) =~= keys_view(before).push(key_view(k)));
            assert(asset_keys(assets@).take(i + 1) =~= asset_keys(assets@).take(i as int).push(group_key_of(assets@[i as int])));
        }
        i = i + 1;
    }
    proof {
        assert(asset_keys(assets@).take(n as int) =~= asset_keys(assets@));
    }
    keys
}

/// The plan of an image or audio run: the assets of each nested archive in one group,
/// cut into batches of `NESTED_ZIP_BATCH_SIZE`, larger groups first; every other asset
/// in a batch of its own, in the order given.
pub open spec fn is_zip_plan(
    assets: Seq<Asset>,
    category: ProcessingCategory,
    generation: u64,
    pre: bool,
    plan: BatchPlan,
) -> bool {
    let ks = asset_keys(assets);
    let zs = plan.zip_groups@;
    &&& forall|a: int, b: int| 0 <= a < b < zs.len() ==> #[trigger] zs[a].key@ != #[trigger] zs[b].key@
    &&& forall|z: int| 0 <= z < zs.len() ==> #[trigger] positions_of(ks, Some(zs[z].key@)).len() > 0
    &&& forall|i: int| 0 <= i < ks.len() && #[trigger] ks[i] is Some ==> exists|z: int|
        0 <= z < zs.len() && #[trigger] zs[z].key@ == ks[i]->0
    &&& forall|z: int| 0 <= z < zs.len() ==> #[trigger] batch_assets(zs[z].batches@) == chunks(
        picks(assets, positions_of(ks, Some(zs[z].key@))),
        NESTED_ZIP_BATCH_SIZE as nat,
    )
    &&& forall|z: int| 0 <= z < zs.len() ==> batches_tagged(#[trigger] zs[z].batches@, category, generation, pre)
    &&& forall|a: int, b: int| 0 <= a < b < zs.len() ==> positions_of(ks, Some(#[trigger] zs[a].key@)).len()
        >= positions_of(ks, Some(#[trigger] zs[b].key@)).len()
    &&& batch_assets(plan.non_zip@) == chunks(picks(assets, positions_of(ks, None::<Seq<char>>)), 1)
    &&& batches_tagged(plan.non_zip@, category, generation, pre)
}

/// The plan of an embedding run: the assets in key order (stable within a key), cut
/// into batches of at most `CLAP_BATCH_SIZE` that never mix two keys; no thumbnails.
pub open spec fn is_key_order_plan(
    assets: Seq<Asset>,
    category: ProcessingCategory,
    generation: u64,
    plan: BatchPlan,
) -> bool {
    let ks = asset_keys(assets);
    &&& plan.zip_groups@.len() == 0
    &&& batches_tagged(plan.non_zip@, category, generation, false)
    &&& exists|order: Seq<Option<Seq<char>>>| #[trigger] is_key_order(ks, order)
        && batch_assets(plan.non_zip@) == batches_in_key_order(assets, ks, order, CLAP_BATCH_SIZE as nat)
}

/// Plans an image or audio run.
fn plan_zip_groups(category: ProcessingCategory, generation: u64, assets: &Vec<Asset>, pre: bool) -> (r: BatchPlan)
    ensures
        is_zip_plan(assets@, category, generation, pre, r),
{
    let ghost ks = asset_keys(assets@);
    let keys = group_keys(assets);
    let kg = group_by_key(&keys);
    let ghost nv = names_view(kg.names@);
    let ghost gv = kg.groups@.map_values(|v: Vec<usize>| v@);
    let asset_count = assets.len();
    proof {
        assert forall|k: Option<Seq<char>>, t: int| 0 <= t < positions_of(ks, k).len() implies
            #[trigger] positions_of(ks, k)[t] < assets@.len() by {
            lemma_positions_valid(ks, k);
        }
    }
    let group_count = kg.groups.len();
    let mut sizes: Vec<usize> = Vec::new();
    let mut g: usize = 0;
    while g < group_count
        invariant
            g <= group_count,
            group_count == kg.groups@.len(),
            sizes@.len() == g,
            forall|h: int| 0 <= h < g ==> #[trigger] sizes@[h] == kg.groups@[h]@.len(),
        decreases group_count - g,
    {
        sizes.push(kg.groups[g].len());
        g = g + 1;
    }
    let order = order_by_size_desc(&sizes);
    let mut zip_groups: Vec<ZipBatchGroup> = Vec::new();
    let mut j: usize = 0;
    while j < group_count
        invariant
            j <= group_count,
            group_count == kg.groups@.len(),
            group_count == kg.names@.len(),
            is_arrangement(order@, group_count as nat),
            ks == asset_keys(assets@),
            nv == names_view(kg.names@),
            gv == kg.groups@.map_values(|v: Vec<usize>| v@),
            groups_by_key(ks, nv, gv, kg.unkeyed@),
            forall|k: Option<Seq<char>>, t: int| 0 <= t < positions_of(ks, k).len() ==> #[trigger] positions_of(ks, k)[t] < assets@.len(),
            zip_groups@.len() == j,
            forall|z: int| 0 <= z < j ==> #[trigger] zip_groups@[z].key@ == nv[order@[z] as int],
            forall|z: int| 0 <= z < j ==> #[trigger] batch_assets(zip_groups@[z].batches@) == chunks(
                picks(assets@, gv[order@[z] as int]),
                NESTED_ZIP_BATCH_SIZE as nat,
            ),
            forall|z: int| 0 <= z < j ==> batches_tagged(#[trigger] zip_groups@[z].batches@, category, generation, pre),
        decreases group_count - j,
    {
        let g = order[j];
        let mut batches: Vec<WorkBatch> = Vec::new();
        proof {
            assert(gv[g as int] == kg.groups@[g as int]@);
            assert(gv[g as int] == positions_of(ks, Some(nv[g as int])));
            assert forall|t: int| 0 <= t < kg.groups@[g as int]@.len() implies #[trigger] kg.groups@[g as int]@[t] < assets@.len() by {
                assert(positions_of(ks, Some(nv[g as int]))[t] < assets@.len());
            }
        }
        push_batches(&mut batches, assets, &kg.groups[g], NESTED_ZIP_BATCH_SIZE, category, generation, pre);
        let ghost before = zip_groups@;
        zip_groups.push(ZipBatchGroup { key: kg.names[g].clone(), batches });
        proof {
            assert(zip_groups@[j as int].key@ == nv[g as int]);
            assert forall|z: int| 0 <= z < j + 1 implies #[trigger] zip_groups@[z].key@ == nv[order@[z] as int] by {
                if z < j {
                    assert(zip_groups@[z] == before[z]);
                }
            }
            assert forall|z: int| 0 <= z < j + 1 implies #[trigger] batch_assets(zip_groups@[z].batches@) == chunks(
                picks(assets@, gv[order@[z] as int]),
                NESTED_ZIP_BATCH_SIZE as nat,
            ) by {
                if z < j {
                    assert(zip_groups@[z] == before[z]);
                }
            }
            assert forall|z: int| 0 <= z < j + 1 implies batches_tagged(#[trigger] zip_groups@[z].batches@, category, generation, pre) by {
                if z < j {
                    assert(zip_groups@[z] == before[z]);
                }
            }
        }
        j = j + 1;
    }
    let mut non_zip: Vec<WorkBatch> = Vec::new();
    proof {
        assert forall|t: int| 0 <= t < kg.unkeyed@.len() implies #[trigger] kg.unkeyed@[t] < assets@.len() by {
            assert(positions_of(ks, None::<Seq<char>>)[t] < assets@.len());
        }
    }
    push_batches(&mut non_zip, assets, &kg.unkeyed, 1, category, generation, pre);
    let plan = BatchPlan { zip_groups, non_zip };
    proof {
        let zs = plan.zip_groups@;
        assert forall|z: int| 0 <= z < zs.len() implies #[trigger] zs[z].key@ == nv[order@[z] as int]
            && gv[order@[z] as int] == positions_of(ks, Some(zs[z].key@)) by {
            assert(order@[z] < group_count);
        }
        assert forall|a: int, b: int| 0 <= a < b < zs.len() implies #[trigger] zs[a].key@ != #[trigger] zs[b].key@ by {
            assert(order@[a] != order@[b]);
            if order@[a] < order@[b] {
                assert(nv[order@[a] as int] != nv[order@[b] as int]);
            } else {
                assert(nv[order@[b] as int] != nv[order@[a] as int]);
            }
        }
        assert forall|z: int| 0 <= z < zs.len() implies #[trigger] positions_of(ks, Some(zs[z].key@)).len() > 0 by {
            assert(order@[z] < group_count);
            assert(gv[order@[z] as int].len() > 0);
        }
        assert forall|i: int| 0 <= i < ks.len() && #[trigger] ks[i] is Some implies exists|z: int|
            0 <= z < zs.len() && #[trigger] zs[z].key@ == ks[i]->0 by {
            let g = choose|g: int| 0 <= g < nv.len() && #[trigger] nv[g] == ks[i]->0;
            assert(order@.contains(g as usize));
            let z = choose|z: int| 0 <= z < order@.len() && order@[z] == g as usize;
            assert(zs[z].key@ == nv[g]);
        }
        assert forall|a: int, b: int| 0 <= a < b < zs.len() implies positions_of(ks, Some(#[trigger] zs[a].key@)).len()
            >= positions_of(ks, Some(#[trigger] zs[b].key@)).len() by {
            assert(sizes@[order@[a] as int] >= sizes@[order@[b] as int]);
            assert(order@[a] < group_count && order@[b] < group_count);
            assert(sizes@[order@[a] as int] == kg.groups@[order@[a] as int]@.len());
            assert(sizes@[order@[b] as int] == kg.groups@[order@[b] as int]@.len());
            assert(gv[order@[a] as int] == kg.groups@[order@[a] as int]@);
            assert(gv[order@[b] as int] == kg.groups@[order@[b] as int]@);
        }
    }
    plan
}

/// Plans an embedding run.
fn plan_key_order(category: ProcessingCategory, generation: u64, assets: &Vec<Asset>) -> (r: BatchPlan)
    ensures
        is_key_order_plan(assets@, category, generation, r),
{
    let ghost ks = asset_keys(assets@);
    let keys = group_keys(assets);
    let kg = group_by_key(&keys);
    let ghost nv = names_view(kg.names@);
    let ghost gv = kg.groups@.map_values(|v: Vec<usize>| v@);
    let asset_count = assets.len();
    proof {
        assert forall|k: Option<Seq<char>>, t: int| 0 <= t < positions_of(ks, k).len() implies
            #[trigger] positions_of(ks, k)[t] < assets@.len() by {
            lemma_positions_valid(ks, k);
        }
        assert forall|a: int, b: int| 0 <= a < b < kg.names@.len() implies #[trigger] kg.names@[a]@ != #[trigger] kg.names@[b]@ by {
            assert(nv[a] != nv[b]);
        }
    }
    let order = order_by_name(&kg.names);
    let group_count = kg.groups.len();
    let mut out: Vec<WorkBatch> = Vec::new();
    proof {
        assert(out@ =~= Seq::<WorkBatch>::empty());
    }
    let ghost mut first: Seq<Option<Seq<char>>> = Seq::empty();
    if kg.unkeyed.len() > 0 {
        proof {
            assert forall|t: int| 0 <= t < kg.unkeyed@.len() implies #[trigger] kg.unkeyed@[t] < assets@.len() by {
                assert(positions_of(ks, None::<Seq<char>>)[t] < assets@.len());
            }
        }
        push_batches(&mut out, assets, &kg.unkeyed, CLAP_BATCH_SIZE, category, generation, false);
        proof {
            first = seq![None::<Seq<char>>];
            assert(first.drop_last() =~= Seq::<Option<Seq<char>>>::empty());
            assert(first.last() == None::<Seq<char>>);
            assert(kg.unkeyed@ == positions_of(ks, None::<Seq<char>>));
            assert(batch_assets(Seq::<WorkBatch>::empty()) =~= Seq::<Seq<Asset>>::empty());
            assert(batches_in_key_order(assets@, ks, Seq::<Option<Seq<char>>>::empty(), CLAP_BATCH_SIZE as nat)
                =~= Seq::<Seq<Asset>>::empty());
            assert(batch_assets(out@) =~= batches_in_key_order(assets@, ks, first, CLAP_BATCH_SIZE as nat));
        }
    } else {
        proof {
            assert(batch_assets(out@) =~= batches_in_key_order(assets@, ks, first, CLAP_BATCH_SIZE as nat));
        }
    }
    let ghost named = order@.map_values(|g: usize| Some(nv[g as int]));
    let mut j: usize = 0;
    while j < group_count
        invariant
            j <= group_count,
            group_count == kg.groups@.len(),
            group_count == kg.names@.len(),
            is_arrangement(order@, group_count as nat),
            ks == asset_keys(assets@),
            nv == names_view(kg.names@),
            gv == kg.groups@.map_values(|v: Vec<usize>| v@),
            named == order@.map_values(|g: usize| Some(nv[g as int])),
            groups_by_key(ks, nv, gv, kg.unkeyed@),
            forall|k: Option<Seq<char>>, t: int| 0 <= t < positions_of(ks, k).len() ==> #[trigger] positions_of(ks, k)[t] < assets@.len(),
            batches_tagged(out@, category, generation, false),
            batch_assets(out@) == batches_in_key_order(assets@, ks, first + named.take(j as int), CLAP_BATCH_SIZE as nat),
        decreases group_count - j,
    {
        let g = order[j];
        proof {
            assert(gv[g as int] == kg.groups@[g as int]@);
            assert(gv[g as int] == positions_of(ks, Some(nv[g as int])));
            assert forall|t: int| 0 <= t < kg.groups@[g as int]@.len() implies #[trigger] kg.groups@[g as int]@[t] < assets@.len() by {
                assert(positions_of(ks, Some(nv[g as int]))[t] < assets@.len());
            }
        }
        push_batches(&mut out, assets, &kg.groups[g], CLAP_BATCH_SIZE, category, generation, false);
        proof {
            let o1 = first + named.take(j + 1);
            assert(o1.drop_last() =~= first + named.take(j as int));
            assert(o1.last() == Some(nv[g as int]));
        }
        j = j + 1;
    }
    let ghost ord = first + named;
    proof {
        assert(named.take(group_count as int) =~= named);
        let fl = first.len() as int;
        assert forall|a: int, b: int| 0 <= a < b < ord.len() implies key_lt(#[trigger] ord[a], #[trigger] ord[b]) by {
            if a < fl {
                assert(ord[a] == None::<Seq<char>>);
                assert(ord[b] == named[b - fl]);
            } else {
                assert(ord[a] == named[a - fl]);
                assert(ord[b] == named[b - fl]);
            }
        }
        assert forall|a: int| 0 <= a < ord.len() implies #[trigger] positions_of(ks, ord[a]).len() > 0 by {
            if a >= fl {
                let g = order@[a - fl];
                assert(g < group_count);
                assert(ord[a] == Some(nv[g as int]));
                assert(gv[g as int].len() > 0);
            }
        }
        assert forall|i: int| 0 <= i < ks.len() implies ord.contains(#[trigger] ks[i]) by {
            match ks[i] {
                None => {
                    lemma_positions_complete(ks, None::<Seq<char>>, i);
                    assert(kg.unkeyed@.len() > 0);
                    assert(ord[0] == ks[i]);
                },
                Some(k) => {
                    assert(ks[i] is Some);
                    let g = choose|g: int| 0 <= g < nv.len() && #[trigger] nv[g] == ks[i]->0;
                    assert(order@.contains(g as usize));
                    let z = choose|z: int| 0 <= z < order@.len() && order@[z] == g as usize;
                    assert(ord[fl + z] == ks[i]);
                },
            }
        }
        assert(is_key_order(ks, ord));
    }
    BatchPlan { zip_groups: Vec::new(), non_zip: out }
}

/// Plans a run over `assets`: embedding runs by key order, image and audio runs by
/// nested archive.
pub fn build_batch_plan(
    category: ProcessingCategory,
    generation: u64,
    assets: Vec<Asset>,
    pre_generate_thumbnails: bool,
) -> (r: BatchPlan)
    ensures
        category == ProcessingCategory::Clap ==> is_key_order_plan(assets@, category, generation, r),
        category != ProcessingCategory::Clap ==> is_zip_plan(assets@, category, generation, pre_generate_thumbnails, r),
{
    match category {
        ProcessingCategory::Clap => plan_key_order(category, generation, &assets),
        ProcessingCategory::Image | ProcessingCategory::Audio => plan_zip_groups(
            category,
            generation,
            &assets,
            pre_generate_thumbnails,
        ),
    }
}

/// Counts down the batches of a group handed out together; the dispatcher waits until
/// the count reaches zero.
pub struct BatchGroupCompletion {
    pub remaining: usize,
}

impl BatchGroupCompletion {
    pub fn new(count: usize) -> (r: Self)
        ensures
            r.remaining == count,
    {
        BatchGroupCompletion { remaining: count }
    }

    /// Records one finished batch; true when it was the last one, the moment to wake
    /// the dispatcher. The count wraps as an atomic counter does.
    pub fn batch_done(&mut self) -> (r: bool)
        ensures
            final(self).remaining == (if old(self).remaining == 0 { usize::MAX } else { (old(self).remaining - 1) as usize }),
            r == (old(self).remaining == 1),
    {
        let before = self.remaining;
        self.remaining = if before == 0 { usize::MAX } else { before - 1 };
        before == 1
    }
}

/// What a worker finds when it polls a channel of batches.
#[derive(Clone, Copy, PartialEq, Eq, Structural, Debug)]
pub enum ChannelPoll {
    Batch,
    Empty,
    Disconnected,
}

/// What a worker learns at one step of its loop.
#[derive(Clone, Copy, PartialEq, Eq, Structural, Debug)]
pub enum WorkerEvent {
    /// The archive channel was polled, and then, where it was empty, the other one.
    Polled { zip: ChannelPoll, nonzip: ChannelPoll },
    /// After the idle pause: whether every category has stopped and both channels are
    /// empty.
    Idle { all_stopped: bool, both_empty: bool },
    /// After the grace pause that follows: whether both channels are still empty.
    Grace { both_empty: bool },
    /// A batch is in hand; its category's state as read now (the flags count only for a
    /// known category).
    Category { known: bool, batch_generation: u64, generation: u64, stopped: bool, paused: bool },
    /// The category's concurrency permit was acquired, or the limiter was closed.
    Permit { acquired: bool },
    /// Before the next asset of an image or audio batch: the category's flags.
    NextAsset { stopped: bool, paused: bool },
}

/// What a worker does next.
#[derive(Clone, Copy, PartialEq, Eq, Structural, Debug)]
pub enum WorkerAction {
    /// Work on the batch from the archive channel.
    TakeZipBatch,
    /// Work on the batch from the other channel.
    TakeOtherBatch,
    /// Pause briefly, then check whether all work is over.
    IdleWait,
    /// Pause the grace period, then look at the channels once more.
    GraceWait,
    /// Poll the channels again.
    Poll,
    /// Count the batch's group as done and poll again.
    SkipBatch,
    /// Pause while the category is paused, then read its state again.
    WaitPaused,
    /// Acquire the category's concurrency permit.
    AcquirePermit,
    /// Process the batch.
    Process,
    /// Process the next asset of the batch.
    ProcessAsset,
    /// Leave the rest of the batch: its category was stopped.
    EndBatch,
    /// Count the batch's group as done and stop the worker.
    SkipAndExit,
    /// Stop the worker.
    Exit,
}

/// The worker's decision on each event: the archive channel comes first; a closed
/// channel ends the worker; with nothing to do it ends once every category has stopped
/// and both channels stayed empty over the grace pause; a batch of an unknown category,
/// of an earlier run or of a stopped category is dropped, its group counted done; a
/// paused category is waited for; a batch is processed once the permit is held.
pub open spec fn worker_next(ev: WorkerEvent) -> WorkerAction {
    match ev {
        WorkerEvent::Polled { zip, nonzip } => match zip {
            ChannelPoll::Batch => WorkerAction::TakeZipBatch,
            ChannelPoll::Disconnected => WorkerAction::Exit,
            ChannelPoll::Empty => match nonzip {
                ChannelPoll::Batch => WorkerAction::TakeOtherBatch,
                ChannelPoll::Disconnected => WorkerAction::Exit,
                ChannelPoll::Empty => WorkerAction::IdleWait,
            },
        },
        WorkerEvent::Idle { all_stopped, both_empty } => if all_stopped && both_empty {
            WorkerAction::GraceWait
        } else {
            WorkerAction::Poll
        },
        WorkerEvent::Grace { both_empty } => if both_empty {
            WorkerAction::Exit
        } else {
            WorkerAction::Poll
        },
        WorkerEvent::Category { known, batch_generation, generation, stopped, paused } => if !known
            || batch_generation != generation || stopped {
            WorkerAction::SkipBatch
        } else if paused {
            WorkerAction::WaitPaused
        } else {
            WorkerAction::AcquirePermit
        },
        WorkerEvent::Permit { acquired } => if acquired {
            WorkerAction::Process
        } else {
            WorkerAction::SkipAndExit
        },
        WorkerEvent::NextAsset { stopped, paused } => if stopped {
            WorkerAction::EndBatch
        } else if paused {
            WorkerAction::WaitPaused
        } else {
            WorkerAction::ProcessAsset
        },
    }
}

/// One decision of a processing worker; the caller performs the action (polls, pauses,
/// reads the category state, processes) and hands back what it saw.
pub fn worker_step(ev: WorkerEvent) -> (r: WorkerAction)
    ensures
        r == worker_next(ev),
{
    match ev {
        WorkerEvent::Polled { zip, nonzip } => match zip {
            ChannelPoll::Batch => WorkerAction::TakeZipBatch,
            ChannelPoll::Disconnected => WorkerAction::Exit,
            ChannelPoll::Empty => match nonzip {
                ChannelPoll::Batch => WorkerAction::TakeOtherBatch,
                ChannelPoll::Disconnected => WorkerAction::Exit,
                ChannelPoll::Empty => WorkerAction::IdleWait,
            },
        },
        WorkerEvent::Idle { all_stopped, both_empty } => if all_stopped && both_empty {
            WorkerAction::GraceWait
        } else {
            WorkerAction::Poll
        },
        WorkerEvent::Grace { both_empty } => if both_empty {
            WorkerAction::Exit
        } else {
            WorkerAction::Poll
        },
        WorkerEvent::Category { known, batch_generation, generation, stopped, paused } => if !known
            || batch_generation != generation || stopped {
            WorkerAction::SkipBatch
        } else if paused {
            WorkerAction::WaitPaused
        } else {
            WorkerAction::AcquirePermit
        },
        WorkerEvent::Permit { acquired } => if acquired {
            WorkerAction::Process
        } else {
            WorkerAction::SkipAndExit
        },
        WorkerEvent::NextAsset { stopped, paused } => if stopped {
            WorkerAction::EndBatch
        } else if paused {
            WorkerAction::WaitPaused
        } else {
            WorkerAction::ProcessAsset
        },
    }
}

/// A batch is never processed for a stopped category nor for an earlier run: whatever
/// the pause flag, such a batch is dropped with its group counted done.
pub proof fn law_stale_or_stopped_batches_are_dropped(known: bool, batch_generation: u64, generation: u64, stopped: bool, paused: bool)
    requires
        !known || batch_generation != generation || stopped,
    ensures
        worker_next(WorkerEvent::Category { known, batch_generation, generation, stopped, paused })
            == WorkerAction::SkipBatch,
{
}

/// A worker stops on its own only when a channel is closed, the permit limiter is
/// closed, or every category has stopped with both channels empty over the grace pause.
pub proof fn law_worker_exits_only_when_done(ev: WorkerEvent)
    requires
        worker_next(ev) == WorkerAction::Exit || worker_next(ev) == WorkerAction::SkipAndExit,
    ensures
        match ev {
            WorkerEvent::Polled { zip, nonzip } => zip == ChannelPoll::Disconnected || (zip == ChannelPoll::Empty
                && nonzip == ChannelPoll::Disconnected),
            WorkerEvent::Grace { both_empty } => both_empty,
            WorkerEvent::Permit { acquired } => !acquired,
            _ => false,
        },
{
}

/// Each piece of `chunks(s, n)` holds between 1 and `n` items, all of them items of `s`.
pub proof fn lemma_chunk_pieces<A>(s: Seq<A>, n: nat)
    requires
        n > 0,
    ensures
        forall|p: int| 0 <= p < chunks(s, n).len() ==> 0 < #[trigger] chunks(s, n)[p].len() <= n,
        forall|p: int, x: int| 0 <= p < chunks(s, n).len() && 0 <= x < chunks(s, n)[p].len() ==> s.contains(
            #[trigger] chunks(s, n)[p][x],
        ),
    decreases s.len(),
{
    if s.len() > n {
        let rest = s.skip(n as int);
        lemma_chunk_pieces(rest, n);
        let c = chunks(s, n);
        assert(c == seq![s.take(n as int)] + chunks(rest, n));
        assert forall|p: int, x: int| 0 <= p < c.len() && 0 <= x < c[p].len() implies s.contains(#[trigger] c[p][x]) by {
            if p == 0 {
                assert(c[p][x] == s[x]);
            } else {
                assert(c[p] == chunks(rest, n)[p - 1]);
                assert(c[p][x] == chunks(rest, n)[p - 1][x]);
                assert(0 <= p - 1 < chunks(rest, n).len() && 0 <= x < chunks(rest, n)[p - 1].len());
                assert(rest.contains(chunks(rest, n)[p - 1][x]));
                let i = choose|i: int| 0 <= i < rest.len() && rest[i] == chunks(rest, n)[p - 1][x];
                assert(rest[i] == s[i + n]);
                assert(c[p][x] == s[i + n]);
            }
        }
        assert forall|p: int| 0 <= p < c.len() implies 0 < #[trigger] c[p].len() <= n by {
            if p > 0 {
                assert(c[p] == chunks(rest, n)[p - 1]);
            }
        }
    } else if s.len() > 0 {
        assert forall|p: int, x: int| 0 <= p < chunks(s, n).len() && 0 <= x < chunks(s, n)[p].len() implies s.contains(
            #[trigger] chunks(s, n)[p][x],
        ) by {
            assert(chunks(s, n)[p][x] == s[x]);
        }
    }
}

/// Every asset of the batches of `order` has the key whose batches it is in: a batch
/// holds 1 to `n` assets, all with one key.
proof fn lemma_key_order_batches_uniform(
    assets: Seq<Asset>,
    order: Seq<Option<Seq<char>>>,
    n: nat,
)
    requires
        n > 0,
        assets.len() <= usize::MAX,
    ensures
        forall|b: int| 0 <= b < batches_in_key_order(assets, asset_keys(assets), order, n).len() ==> {
            let piece = #[trigger] batches_in_key_order(assets, asset_keys(assets), order, n)[b];
            &&& 0 < piece.len() <= n
            &&& forall|x: int, y: int| 0 <= x < piece.len() && 0 <= y < piece.len() ==> group_key_of(#[trigger] piece[x])
                == group_key_of(#[trigger] piece[y])
        },
    decreases order.len(),
{
    let ks = asset_keys(assets);
    if order.len() > 0 {
        lemma_key_order_batches_uniform(assets, order.drop_last(), n);
        let k = order.last();
        let ps = positions_of(ks, k);
        let picked = picks(assets, ps);
        lemma_positions_valid(ks, k);
        lemma_chunk_pieces(picked, n);
        let prev = batches_in_key_order(assets, ks, order.drop_last(), n);
        let all = batches_in_key_order(assets, ks, order, n);
        assert(all == prev + chunks(picked, n));
        assert forall|b: int| 0 <= b < all.len() implies {
            let piece = #[trigger] all[b];
            &&& 0 < piece.len() <= n
            &&& forall|x: int, y: int| 0 <= x < piece.len() && 0 <= y < piece.len() ==> group_key_of(#[trigger] piece[x])
                == group_key_of(#[trigger] piece[y])
        } by {
            if b >= prev.len() {
                let c = chunks(picked, n);
                let p = b - prev.len();
                assert(all[b] == c[p]);
                assert forall|x: int| 0 <= x < c[p].len() implies group_key_of(#[trigger] c[p][x]) == k by {
                    assert(picked.contains(c[p][x]));
                    let i = choose|i: int| 0 <= i < picked.len() && picked[i] == c[p][x];
                    assert(picked[i] == assets[ps[i] as int]);
                    assert(ks[ps[i] as int] == k);
                }
            } else {
                assert(all[b] == prev[b]);
            }
        }
    }
}

/// No embedding batch mixes assets of two group keys, and none holds more than
/// `CLAP_BATCH_SIZE` assets or none.
pub proof fn law_key_order_batches_do_not_mix_keys(
    assets: Seq<Asset>,
    category: ProcessingCategory,
    generation: u64,
    plan: BatchPlan,
)
    requires
        is_key_order_plan(assets, category, generation, plan),
        assets.len() <= usize::MAX,
    ensures
        forall|b: int| 0 <= b < plan.non_zip@.len() ==> {
            let piece = (#[trigger] plan.non_zip@[b]).assets@;
            &&& 0 < piece.len() <= CLAP_BATCH_SIZE
            &&& forall|x: int, y: int| 0 <= x < piece.len() && 0 <= y < piece.len() ==> group_key_of(#[trigger] piece[x])
                == group_key_of(#[trigger] piece[y])
        },
{
    let ks = asset_keys(assets);
    let order = choose|order: Seq<Option<Seq<char>>>| #[trigger] is_key_order(ks, order)
        && batch_assets(plan.non_zip@) == batches_in_key_order(assets, ks, order, CLAP_BATCH_SIZE as nat);
    lemma_key_order_batches_uniform(assets, order, CLAP_BATCH_SIZE as nat);
    assert forall|b: int| 0 <= b < plan.non_zip@.len() implies {
        let piece = (#[trigger] plan.non_zip@[b]).assets@;
        &&& 0 < piece.len() <= CLAP_BATCH_SIZE
        &&& forall|x: int, y: int| 0 <= x < piece.len() && 0 <= y < piece.len() ==> group_key_of(#[trigger] piece[x])
            == group_key_of(#[trigger] piece[y])
    } by {
        assert(batch_assets(plan.non_zip@)[b] == plan.non_zip@[b].assets@);
        assert(batches_in_key_order(assets, ks, order, CLAP_BATCH_SIZE as nat)[b] == plan.non_zip@[b].assets@);
    }
}

} // verus!
