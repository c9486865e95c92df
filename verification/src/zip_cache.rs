//! Memory-budgeted cache of decompressed nested ZIP archives.
//!
//! Holds several decompressed nested archives as shared immutable bytes, bounded by a
//! memory budget. When the budget is exceeded, the least recently used entries that no
//! reader holds are evicted. Each entry counts its active readers; an entry with readers
//! is never evicted.
//!
//! This module holds the state and every decision about it. Locking, waiting for other
//! threads and the actual decompression are done by the caller around these calls.

use vstd::prelude::*;
use std::sync::Arc;
use crate::text::{str_eq, last_zip_boundary, first_zip_boundary, find_first_zip_sep, find_last_zip_sep};
use crate::archive::{split_at_last_zip, split_at_first_zip, utf8_text, zip_entry_content, read_zip_entry};
use crate::models::Asset;
use crate::paths::{asset_zip_path, resolve_zip_path};
use vstd::string::StringSliceAdditionalSpecFns;
use vstd::utf8::encode_utf8;
use vstd::set::fold::{is_fun_commutative, lemma_fold_insert, lemma_fold_empty};

verus! {

/// Estimate of a nested archive's decompressed size before it is known (1 GiB).
/// It is not above `MIN_BUDGET_BYTES`, so an empty cache can always start a load.
pub const DEFAULT_ESTIMATED_SIZE: u64 = 1073741824;

/// Upper bound of the memory budget (8 GiB).
pub const MAX_BUDGET_BYTES: u64 = 8589934592;

/// Lower bound of the memory budget (1 GiB); it holds at least one entry.
pub const MIN_BUDGET_BYTES: u64 = 1073741824;

/// Available memory assumed where the platform gives no figure (4 GiB).
pub const DEFAULT_AVAILABLE_MEMORY_BYTES: u64 = 4294967296;

/// Fixed part of the slow-load warning threshold, in milliseconds.
pub const CACHE_LOAD_SEEK_MS: u128 = 4000;

/// Longest wait for the cache that passes without a warning, in milliseconds.
pub const CACHE_WAIT_WARN_MS: u128 = 5000;

/// The state of one cached nested archive.
pub enum EntryState {
    /// Some thread is decompressing it.
    Loading,
    /// Its decompressed bytes are available.
    Ready { bytes: Arc<Vec<u8>>, size_bytes: usize },
}

/// One cached nested archive.
pub struct CacheEntry {
    pub state: EntryState,
    /// Readers currently holding the entry; it cannot be evicted while this is not 0.
    pub active_users: usize,
    /// Recency stamp: a higher value was used more recently.
    pub last_access: u64,
}

struct Slot {
    key: String,
    entry: CacheEntry,
}

/// The cache: entries by key, recency counter, byte accounting and the budget.
pub struct ZipCache {
    slots: Vec<Slot>,
    access_counter: u64,
    total_cached_bytes: u64,
    in_flight_bytes: u64,
    budget_bytes: u64,
}

/// What an entry is, as contracts see it.
pub enum EntryStateView {
    Loading,
    Ready { bytes: Seq<u8>, size: nat },
}

/// An entry as contracts see it.
pub struct EntryView {
    pub state: EntryStateView,
    pub active_users: nat,
    pub last_access: nat,
}

/// The cache as contracts see it.
pub struct CacheView {
    /// Entries by key.
    pub entries: Map<Seq<char>, EntryView>,
    pub access_counter: nat,
    /// Bytes counted as cached.
    pub cached_bytes: nat,
    /// Total size of the entries that are ready.
    pub ready_bytes: nat,
    /// Bytes reserved for loads in progress.
    pub in_flight_bytes: nat,
    pub budget_bytes: nat,
}

pub open spec fn entry_view(e: CacheEntry) -> EntryView {
    EntryView {
        state: match e.state {
            EntryState::Loading => EntryStateView::Loading,
            EntryState::Ready { bytes, size_bytes } => EntryStateView::Ready {
                bytes: bytes@,
                size: size_bytes as nat,
            },
        },
        active_users: e.active_users as nat,
        last_access: e.last_access as nat,
    }
}

/// The bytes an entry counts for: its size when ready, nothing while loading.
pub open spec fn ready_size(e: EntryView) -> nat {
    match e.state {
        EntryStateView::Ready { size, .. } => size,
        EntryStateView::Loading => 0,
    }
}

/// A ready entry that no reader holds: the only kind eviction may remove.
pub open spec fn evictable(e: EntryView) -> bool {
    &&& e.state is Ready
    &&& e.active_users == 0
}

spec fn slots_map(s: Seq<Slot>) -> Map<Seq<char>, EntryView>
    decreases s.len(),
{
    if s.len() == 0 {
        Map::empty()
    } else {
        slots_map(s.drop_last()).insert(s.last().key@, entry_view(s.last().entry))
    }
}

spec fn slots_ready_total(s: Seq<Slot>) -> nat
    decreases s.len(),
{
    if s.len() == 0 {
        0
    } else {
        slots_ready_total(s.drop_last()) + ready_size(entry_view(s.last().entry))
    }
}

spec fn keys_distinct(s: Seq<Slot>) -> bool {
    forall|i: int, j: int| 0 <= i < j < s.len() ==> s[i].key@ != s[j].key@
}

spec fn sizes_match(s: Seq<Slot>) -> bool {
    forall|i: int|
        0 <= i < s.len() ==> match #[trigger] s[i].entry.state {
            EntryState::Ready { bytes, size_bytes } => bytes@.len() == size_bytes,
            EntryState::Loading => true,
        }
}

proof fn lemma_slots_map_dom(s: Seq<Slot>, k: Seq<char>)
    ensures
        slots_map(s).dom().contains(k) <==> exists|i: int| 0 <= i < s.len() && #[trigger] s[i].key@ == k,
    decreases s.len(),
{
    if s.len() > 0 {
        lemma_slots_map_dom(s.drop_last(), k);
        if slots_map(s).dom().contains(k) && k != s.last().key@ {
            let i = choose|i: int| 0 <= i < s.drop_last().len() && #[trigger] s.drop_last()[i].key@ == k;
            assert(s[i].key@ == k);
        }
        if exists|i: int| 0 <= i < s.len() && #[trigger] s[i].key@ == k {
            let i = choose|i: int| 0 <= i < s.len() && #[trigger] s[i].key@ == k;
            if i < s.len() - 1 {
                assert(s.drop_last()[i].key@ == k);
            }
        }
    }
}

proof fn lemma_slots_map_get(s: Seq<Slot>, i: int)
    requires
        keys_distinct(s),
        0 <= i < s.len(),
    ensures
        slots_map(s).dom().contains(s[i].key@),
        slots_map(s)[s[i].key@] == entry_view(s[i].entry),
    decreases s.len(),
{
    if i < s.len() - 1 {
        lemma_slots_map_get(s.drop_last(), i);
        assert(s.drop_last()[i] == s[i]);
        assert(s[i].key@ != s.last().key@);
    }
}

proof fn lemma_slots_remove(s: Seq<Slot>, i: int)
    requires
        keys_distinct(s),
        0 <= i < s.len(),
    ensures
        keys_distinct(s.remove(i)),
        slots_map(s.remove(i)) =~= slots_map(s).remove(s[i].key@),
        slots_ready_total(s.remove(i)) + ready_size(entry_view(s[i].entry)) == slots_ready_total(s),
    decreases s.len(),
{
    let r = s.remove(i);
    assert forall|a: int, b: int| 0 <= a < b < r.len() implies r[a].key@ != r[b].key@ by {
        let a2 = if a < i { a } else { a + 1 };
        let b2 = if b < i { b } else { b + 1 };
        assert(r[a] == s[a2]);
        assert(r[b] == s[b2]);
    }
    if i == s.len() - 1 {
        assert(r =~= s.drop_last());
        assert forall|k: Seq<char>| #[trigger] slots_map(r).dom().contains(k) implies k != s[i].key@ by {
            lemma_slots_map_dom(r, k);
            let j = choose|j: int| 0 <= j < r.len() && #[trigger] r[j].key@ == k;
            assert(r[j] == s[j]);
        }
    } else {
        let d = s.drop_last();
        assert forall|a: int, b: int| 0 <= a < b < d.len() implies d[a].key@ != d[b].key@ by {
            assert(d[a] == s[a]);
            assert(d[b] == s[b]);
        }
        lemma_slots_remove(d, i);
        assert(r.drop_last() =~= d.remove(i));
        assert(r.last() == s.last());
        assert(d[i] == s[i]);
    }
}

proof fn lemma_slots_update(s: Seq<Slot>, i: int, x: Slot)
    requires
        keys_distinct(s),
        0 <= i < s.len(),
        x.key@ == s[i].key@,
    ensures
        keys_distinct(s.update(i, x)),
        slots_map(s.update(i, x)) =~= slots_map(s).insert(x.key@, entry_view(x.entry)),
        slots_ready_total(s.update(i, x)) + ready_size(entry_view(s[i].entry)) == slots_ready_total(s)
            + ready_size(entry_view(x.entry)),
    decreases s.len(),
{
    let u = s.update(i, x);
    assert forall|a: int, b: int| 0 <= a < b < u.len() implies u[a].key@ != u[b].key@ by {
        assert(u[a].key@ == s[a].key@);
        assert(u[b].key@ == s[b].key@);
    }
    if i == s.len() - 1 {
        assert(u.drop_last() =~= s.drop_last());
    } else {
        let d = s.drop_last();
        assert forall|a: int, b: int| 0 <= a < b < d.len() implies d[a].key@ != d[b].key@ by {
            assert(d[a] == s[a]);
            assert(d[b] == s[b]);
        }
        lemma_slots_update(d, i, x);
        assert(u.drop_last() =~= d.update(i, x));
        assert(s.last().key@ != x.key@);
    }
}

/// The running total plus the size of the entry of `m` at `k`: the step of `ready_total`.
pub open spec fn add_ready_size(m: Map<Seq<char>, EntryView>) -> spec_fn(nat, Seq<char>) -> nat {
    |acc: nat, k: Seq<char>| acc + ready_size(m[k])
}

/// The bytes the ready entries of `m` hold together.
pub open spec fn ready_total(m: Map<Seq<char>, EntryView>) -> nat {
    m.dom().fold(0nat, add_ready_size(m))
}

/// The cached bytes counted are exactly the bytes of the ready entries.
pub open spec fn accounted(v: CacheView) -> bool {
    v.cached_bytes == v.ready_bytes
}

/// The bytes counted as cached beyond those of the ready entries (below zero when
/// fewer are counted).
pub open spec fn unaccounted(v: CacheView) -> int {
    v.cached_bytes - v.ready_bytes
}

/// An operation on the cache, as far as the byte accounting is concerned.
pub enum CacheOp {
    Lookup,
    Insert,
    Release,
    Evict,
    Clear,
    /// The load of `key` finished with `size` bytes.
    CompleteLoad { key: Seq<char>, size: nat },
    /// The load of `key` failed.
    AbortLoad { key: Seq<char> },
}

/// How `op` moves the bytes counted beyond the ready entries' bytes, from `old` to `new`:
/// most operations move both counts together; clearing empties both; a completed load
/// counts its bytes, which the entry holds when it is still there, in place of what the
/// entry held; an aborted load drops the entry without uncounting it.
pub open spec fn accounting_step(old: CacheView, new: CacheView, op: CacheOp) -> bool {
    match op {
        CacheOp::Clear => unaccounted(new) == 0,
        CacheOp::CompleteLoad { key, size } => unaccounted(new) == unaccounted(old) + size
            - (if old.entries.dom().contains(key) { size } else { 0 }) + ready_size_of(old.entries, key),
        CacheOp::AbortLoad { key } => unaccounted(new) == unaccounted(old) + ready_size_of(old.entries, key),
        _ => unaccounted(new) == unaccounted(old),
    }
}

/// `op` is used as the cache is meant to be used: a load is completed or aborted by the
/// loader whose placeholder it holds, so the entry is there and still loading (nothing
/// else makes it ready, eviction spares held entries, and `clear` is only called while
/// no load runs).
pub open spec fn in_protocol(v: CacheView, op: CacheOp) -> bool {
    match op {
        CacheOp::CompleteLoad { key, .. } => v.entries.dom().contains(key) && v.entries[key].state is Loading,
        CacheOp::AbortLoad { key } => v.entries.dom().contains(key) && v.entries[key].state is Loading,
        _ => true,
    }
}

proof fn lemma_trace_accounted(vs: Seq<CacheView>, ops: Seq<CacheOp>, i: int)
    requires
        vs.len() == ops.len() + 1,
        unaccounted(vs[0]) == 0,
        forall|j: int| #![trigger ops[j]] 0 <= j < ops.len() ==> accounting_step(vs[j], vs[j + 1], ops[j])
            && in_protocol(vs[j], ops[j]),
        0 <= i < vs.len(),
    ensures
        accounted(vs[i]),
    decreases i,
{
    if i > 0 {
        lemma_trace_accounted(vs, ops, i - 1);
        let o = ops[i - 1];
        assert(accounting_step(vs[i - 1], vs[i], o) && in_protocol(vs[i - 1], o));
    }
}

/// The cached bytes are the ready entries' bytes in every state the cache reaches: from
/// a new cache (`new`, `with_available_memory`: nothing counted, nothing ready), through
/// any sequence of operations used as meant, each related to the next state as its
/// contract says (`accounting_step`), every state is `accounted`. With
/// `law_ready_bytes_are_entry_sizes`, the cached bytes are then the sum of the sizes of
/// the ready entries.
pub proof fn law_cached_bytes_are_ready_bytes(vs: Seq<CacheView>, ops: Seq<CacheOp>)
    requires
        vs.len() == ops.len() + 1,
        vs[0].cached_bytes == 0,
        vs[0].ready_bytes == 0,
        forall|j: int| #![trigger ops[j]] 0 <= j < ops.len() ==> accounting_step(vs[j], vs[j + 1], ops[j])
            && in_protocol(vs[j], ops[j]),
    ensures
        forall|i: int| 0 <= i < vs.len() ==> accounted(#[trigger] vs[i]),
{
    assert forall|i: int| 0 <= i < vs.len() implies accounted(#[trigger] vs[i]) by {
        lemma_trace_accounted(vs, ops, i);
    }
}

proof fn lemma_add_ready_size_commutative(m: Map<Seq<char>, EntryView>)
    ensures
        is_fun_commutative(add_ready_size(m)),
{
}

/// Summing over the same keys gives the same total when the sizes agree on them.
proof fn lemma_fold_sizes_agree(s: Set<Seq<char>>, m1: Map<Seq<char>, EntryView>, m2: Map<Seq<char>, EntryView>)
    requires
        s.finite(),
        forall|k: Seq<char>| #[trigger] s.contains(k) ==> ready_size(m1[k]) == ready_size(m2[k]),
    ensures
        s.fold(0nat, add_ready_size(m1)) == s.fold(0nat, add_ready_size(m2)),
    decreases s.len(),
{
    lemma_add_ready_size_commutative(m1);
    lemma_add_ready_size_commutative(m2);
    if s.len() == 0 {
        assert(s =~= Set::<Seq<char>>::empty());
        lemma_fold_empty(0nat, add_ready_size(m1));
        lemma_fold_empty(0nat, add_ready_size(m2));
    } else {
        let a = s.choose();
        let r = s.remove(a);
        lemma_fold_sizes_agree(r, m1, m2);
        assert(r.insert(a) =~= s);
        lemma_fold_insert(r, 0nat, add_ready_size(m1), a);
        lemma_fold_insert(r, 0nat, add_ready_size(m2), a);
    }
}

/// An empty map holds no bytes.
pub proof fn lemma_ready_total_empty()
    ensures
        ready_total(Map::<Seq<char>, EntryView>::empty()) == 0,
{
    let m = Map::<Seq<char>, EntryView>::empty();
    assert(m.dom() =~= Set::<Seq<char>>::empty());
    lemma_fold_empty(0nat, add_ready_size(m));
}

/// Adding an entry under a new key adds its size to the total.
pub proof fn lemma_ready_total_insert(m: Map<Seq<char>, EntryView>, k: Seq<char>, e: EntryView)
    requires
        m.dom().finite(),
        !m.dom().contains(k),
    ensures
        ready_total(m.insert(k, e)) == ready_total(m) + ready_size(e),
{
    let m2 = m.insert(k, e);
    lemma_add_ready_size_commutative(m2);
    assert(m2.dom() =~= m.dom().insert(k));
    lemma_fold_insert(m.dom(), 0nat, add_ready_size(m2), k);
    assert forall|k2: Seq<char>| #[trigger] m.dom().contains(k2) implies ready_size(m2[k2]) == ready_size(m[k2]) by {
        assert(k2 != k);
    }
    lemma_fold_sizes_agree(m.dom(), m2, m);
}

/// Removing an entry takes its size off the total.
pub proof fn lemma_ready_total_remove(m: Map<Seq<char>, EntryView>, k: Seq<char>)
    requires
        m.dom().finite(),
        m.dom().contains(k),
    ensures
        ready_total(m) == ready_total(m.remove(k)) + ready_size(m[k]),
{
    lemma_ready_total_insert(m.remove(k), k, m[k]);
    assert(m.remove(k).insert(k, m[k]) =~= m);
}

/// The total of a map is the total of a part of it plus that of the rest.
proof fn lemma_ready_total_split(m: Map<Seq<char>, EntryView>, n: Map<Seq<char>, EntryView>)
    requires
        m.dom().finite(),
        n.dom().subset_of(m.dom()),
        forall|k: Seq<char>| #[trigger] n.dom().contains(k) ==> n[k] == m[k],
    ensures
        n.dom().finite(),
        ready_total(m) == ready_total(n) + ready_total(m.remove_keys(n.dom())),
    decreases m.dom().len(),
{
    let rest = m.remove_keys(n.dom());
    assert(rest.dom() =~= m.dom().difference(n.dom()));
    if m.dom() =~= n.dom() {
        assert(n =~= m);
        assert(rest =~= Map::<Seq<char>, EntryView>::empty());
        lemma_ready_total_empty();
    } else {
        let k = m.dom().difference(n.dom()).choose();
        assert(m.dom().difference(n.dom()).contains(k)) by {
            let w = choose|w: Seq<char>| m.dom().contains(w) && !n.dom().contains(w);
            assert(m.dom().difference(n.dom()).contains(w));
        }
        let m1 = m.remove(k);
        lemma_ready_total_split(m1, n);
        lemma_ready_total_remove(m, k);
        let rest1 = m1.remove_keys(n.dom());
        assert(rest1.dom() =~= m1.dom().difference(n.dom()));
        assert(rest =~= rest1.insert(k, m[k]));
        lemma_ready_total_insert(rest1, k, m[k]);
    }
}

proof fn lemma_slots_ready_total(s: Seq<Slot>)
    requires
        keys_distinct(s),
    ensures
        slots_map(s).dom().finite(),
        slots_ready_total(s) == ready_total(slots_map(s)),
    decreases s.len(),
{
    if s.len() == 0 {
        lemma_ready_total_empty();
    } else {
        let d = s.drop_last();
        assert forall|a: int, b: int| 0 <= a < b < d.len() implies d[a].key@ != d[b].key@ by {
            assert(d[a] == s[a]);
            assert(d[b] == s[b]);
        }
        lemma_slots_ready_total(d);
        lemma_slots_map_dom(d, s.last().key@);
        if slots_map(d).dom().contains(s.last().key@) {
            let j = choose|j: int| 0 <= j < d.len() && #[trigger] d[j].key@ == s.last().key@;
            assert(d[j] == s[j]);
        }
        lemma_ready_total_insert(slots_map(d), s.last().key@, entry_view(s.last().entry));
    }
}

impl View for ZipCache {
    type V = CacheView;

    closed spec fn view(&self) -> CacheView {
        CacheView {
            entries: slots_map(self.slots@),
            access_counter: self.access_counter as nat,
            cached_bytes: self.total_cached_bytes as nat,
            ready_bytes: slots_ready_total(self.slots@),
            in_flight_bytes: self.in_flight_bytes as nat,
            budget_bytes: self.budget_bytes as nat,
        }
    }
}

impl ZipCache {
    /// Internal consistency: one entry per key, a ready entry's size is its byte count,
    /// and the bytes counted as cached cover the ready entries.
    pub closed spec fn wf(&self) -> bool {
        &&& keys_distinct(self.slots@)
        &&& sizes_match(self.slots@)
        &&& slots_ready_total(self.slots@) <= self.total_cached_bytes
    }

    /// An empty cache with the given budget.
    pub fn new(budget_bytes: u64) -> (r: Self)
        ensures
            r.wf(),
            accounted(r@),
            r@.entries == Map::<Seq<char>, EntryView>::empty(),
            r@.access_counter == 0,
            r@.cached_bytes == 0,
            r@.ready_bytes == 0,
            r@.in_flight_bytes == 0,
            r@.budget_bytes == budget_bytes,
    {
        ZipCache {
            slots: Vec::new(),
            access_counter: 0,
            total_cached_bytes: 0,
            in_flight_bytes: 0,
            budget_bytes,
        }
    }
}

/// Whether `usage` plus `additional` bytes stay within `budget`.
pub open spec fn fits(v: CacheView, additional: nat) -> bool {
    v.cached_bytes + v.in_flight_bytes + additional <= v.budget_bytes
}

/// `new` is `old` after evicting least-recently-used unpinned entries until the usage
/// plus `additional` fits the budget, or until nothing more can be evicted.
pub open spec fn evicted_for(old: CacheView, new: CacheView, additional: nat) -> bool {
    // Only entries are removed; nothing else changes, and the cached bytes drop by
    // exactly the sizes removed.
    &&& new.entries.dom().subset_of(old.entries.dom())
    &&& forall|k: Seq<char>| #[trigger] new.entries.dom().contains(k) ==> new.entries[k] == old.entries[k]
    &&& new.access_counter == old.access_counter
    &&& new.in_flight_bytes == old.in_flight_bytes
    &&& new.budget_bytes == old.budget_bytes
    &&& new.cached_bytes + old.ready_bytes == old.cached_bytes + new.ready_bytes
    // Only evictable entries are removed, and never one used more recently than an
    // evictable entry that stays.
    &&& forall|k: Seq<char>| #[trigger] old.entries.dom().contains(k) && !new.entries.dom().contains(k)
        ==> evictable(old.entries[k]) && forall|k2: Seq<char>| #[trigger] new.entries.dom().contains(k2)
        && evictable(new.entries[k2]) ==> old.entries[k].last_access <= new.entries[k2].last_access
    // It stops as soon as the budget is met, or when nothing evictable is left.
    &&& fits(new, additional) || forall|k: Seq<char>| #[trigger] new.entries.dom().contains(k) ==> !evictable(new.entries[k])
    &&& fits(old, additional) ==> new.entries == old.entries
    &&& new.entries != old.entries ==> exists|k: Seq<char>| #![trigger old.entries[k]]
        old.entries.dom().contains(k) && !new.entries.dom().contains(k)
        && !fits(new, additional + ready_size(old.entries[k]))
        && forall|k2: Seq<char>| #[trigger] old.entries.dom().contains(k2) && !new.entries.dom().contains(k2)
            ==> old.entries[k2].last_access <= old.entries[k].last_access
}

/// Progress of an eviction from `old` to `cur`; `last` is the entry removed last.
spec fn evicted_state(old: CacheView, cur: CacheView, last: Option<Seq<char>>, additional: nat) -> bool {
    &&& cur.entries.dom().subset_of(old.entries.dom())
    &&& forall|k: Seq<char>| #[trigger] cur.entries.dom().contains(k) ==> cur.entries[k] == old.entries[k]
    &&& cur.access_counter == old.access_counter
    &&& cur.in_flight_bytes == old.in_flight_bytes
    &&& cur.budget_bytes == old.budget_bytes
    &&& cur.cached_bytes + old.ready_bytes == old.cached_bytes + cur.ready_bytes
    &&& cur.cached_bytes <= old.cached_bytes
    &&& forall|k: Seq<char>| #[trigger] old.entries.dom().contains(k) && !cur.entries.dom().contains(k)
        ==> evictable(old.entries[k]) && forall|k2: Seq<char>| #[trigger] cur.entries.dom().contains(k2)
        && evictable(cur.entries[k2]) ==> old.entries[k].last_access <= cur.entries[k2].last_access
    &&& match last {
        None => cur.entries == old.entries,
        Some(k) => {
            &&& old.entries.dom().contains(k)
            &&& !cur.entries.dom().contains(k)
            &&& !fits(cur, additional + ready_size(old.entries[k]))
            &&& old.cached_bytes >= cur.cached_bytes + ready_size(old.entries[k])
            &&& forall|k2: Seq<char>| #[trigger] old.entries.dom().contains(k2) && !cur.entries.dom().contains(k2)
                ==> old.entries[k2].last_access <= old.entries[k].last_access
        },
    }
}

proof fn lemma_evicted_state_done(old: CacheView, cur: CacheView, last: Option<Seq<char>>, additional: nat)
    requires
        evicted_state(old, cur, last, additional),
        fits(cur, additional) || forall|k: Seq<char>| #[trigger] cur.entries.dom().contains(k) ==> !evictable(cur.entries[k]),
    ensures
        evicted_for(old, cur, additional),
{
    match last {
        None => {},
        Some(k) => {
            assert(!cur.entries.dom().contains(k));
            assert(cur.entries != old.entries);
        },
    }
}

proof fn lemma_evicted_state_step(
    old: CacheView,
    before: CacheView,
    after: CacheView,
    last: Option<Seq<char>>,
    vk: Seq<char>,
    additional: nat,
)
    requires
        evicted_state(old, before, last, additional),
        !fits(before, additional),
        before.entries.dom().contains(vk),
        evictable(before.entries[vk]),
        forall|k2: Seq<char>| #[trigger] before.entries.dom().contains(k2) && evictable(before.entries[k2])
            ==> before.entries[vk].last_access <= before.entries[k2].last_access,
        after.entries == before.entries.remove(vk),
        after.cached_bytes + ready_size(before.entries[vk]) == before.cached_bytes,
        after.ready_bytes + ready_size(before.entries[vk]) == before.ready_bytes,
        after.access_counter == before.access_counter,
        after.in_flight_bytes == before.in_flight_bytes,
        after.budget_bytes == before.budget_bytes,
    ensures
        evicted_state(old, after, Some(vk), additional),
{
    assert forall|k: Seq<char>| #[trigger] old.entries.dom().contains(k) && !after.entries.dom().contains(k)
        implies evictable(old.entries[k]) && forall|k2: Seq<char>| #[trigger] after.entries.dom().contains(k2)
        && evictable(after.entries[k2]) ==> old.entries[k].last_access <= after.entries[k2].last_access by {
        if k != vk {
            assert(!before.entries.dom().contains(k));
        }
        assert forall|k2: Seq<char>| #[trigger] after.entries.dom().contains(k2)
            && evictable(after.entries[k2]) implies old.entries[k].last_access <= after.entries[k2].last_access by {
            assert(before.entries.dom().contains(k2));
            assert(after.entries[k2] == before.entries[k2]);
        }
    }
    assert forall|k2: Seq<char>| #[trigger] old.entries.dom().contains(k2) && !after.entries.dom().contains(k2)
        implies old.entries[k2].last_access <= old.entries[vk].last_access by {
        if k2 != vk {
            assert(!before.entries.dom().contains(k2));
        }
    }
}

impl ZipCache {
    fn find(&self, key: &str) -> (r: Option<usize>)
        requires
            self.wf(),
        ensures
            match r {
                Some(i) => i < self.slots@.len() && self.slots@[i as int].key@ == key@,
                None => !self@.entries.dom().contains(key@),
            },
    {
        let mut i: usize = 0;
        while i < self.slots.len()
            invariant
                i <= self.slots@.len(),
                forall|j: int| 0 <= j < i ==> self.slots@[j].key@ != key@,
            decreases self.slots@.len() - i,
        {
            if str_eq(self.slots[i].key.as_str(), key) {
                return Some(i);
            }
            i = i + 1;
        }
        proof {
            lemma_slots_map_dom(self.slots@, key@);
        }
        None
    }

    /// The least recently used evictable entry, if there is one.
    fn find_victim(&self) -> (r: Option<usize>)
        requires
            self.wf(),
        ensures
            match r {
                Some(i) => i < self.slots@.len() && evictable(entry_view(self.slots@[i as int].entry))
                    && forall|j: int| 0 <= j < self.slots@.len() && evictable(entry_view(#[trigger] self.slots@[j].entry))
                    ==> self.slots@[i as int].entry.last_access <= self.slots@[j].entry.last_access,
                None => forall|j: int| 0 <= j < self.slots@.len() ==> !evictable(entry_view(#[trigger] self.slots@[j].entry)),
            },
    {
        let mut best: Option<usize> = None;
        let mut i: usize = 0;
        while i < self.slots.len()
            invariant
                i <= self.slots@.len(),
                match best {
                    Some(b) => b < i && evictable(entry_view(self.slots@[b as int].entry))
                        && forall|j: int| 0 <= j < i && evictable(entry_view(#[trigger] self.slots@[j].entry))
                        ==> self.slots@[b as int].entry.last_access <= self.slots@[j].entry.last_access,
                    None => forall|j: int| 0 <= j < i ==> !evictable(entry_view(#[trigger] self.slots@[j].entry)),
                },
            decreases self.slots@.len() - i,
        {
            let e = &self.slots[i].entry;
            let candidate = match e.state {
                EntryState::Ready { .. } => e.active_users == 0,
                EntryState::Loading => false,
            };
            if candidate {
                match best {
                    None => {
                        best = Some(i);
                    },
                    Some(b) => {
                        if e.last_access < self.slots[b].entry.last_access {
                            best = Some(i);
                        }
                    },
                }
            }
            i = i + 1;
        }
        best
    }

    /// Evicts least-recently-used entries that no reader holds until the cached and
    /// in-flight bytes plus `additional` fit the budget; stops early when every
    /// remaining entry is held or loading (the budget is then exceeded for a while).
    pub fn evict_for_budget(&mut self, additional: u64)
        requires
            old(self).wf(),
        ensures
            final(self).wf(),
            accounting_step(old(self)@, final(self)@, CacheOp::Evict),
            evicted_for(old(self)@, final(self)@, additional as nat),
    {
        let ghost old_view = self@;
        let ghost mut last_removed: Option<Seq<char>> = None;
        loop
            invariant_except_break
                self.wf(),
                evicted_state(old_view, self@, last_removed, additional as nat),
            ensures
                self.wf(),
                evicted_for(old_view, self@, additional as nat),
            decreases self.slots@.len(),
        {
            let usage = self.total_cached_bytes as u128 + self.in_flight_bytes as u128 + additional as u128;
            if usage <= self.budget_bytes as u128 {
                proof {
                    lemma_evicted_state_done(old_view, self@, last_removed, additional as nat);
                }
                break;
            }
            match self.find_victim() {
                None => {
                    proof {
                        assert forall|k: Seq<char>| #[trigger] self@.entries.dom().contains(k)
                            implies !evictable(self@.entries[k]) by {
                            lemma_slots_map_dom(self.slots@, k);
                            let j = choose|j: int| 0 <= j < self.slots@.len() && #[trigger] self.slots@[j].key@ == k;
                            lemma_slots_map_get(self.slots@, j);
                        }
                        lemma_evicted_state_done(old_view, self@, last_removed, additional as nat);
                    }
                    break;
                },
                Some(i) => {
                    let ghost before = self@;
                    let ghost before_slots = self.slots@;
                    let ghost vk = self.slots@[i as int].key@;
                    proof {
                        lemma_slots_map_get(self.slots@, i as int);
                        lemma_slots_remove(self.slots@, i as int);
                        assert forall|k2: Seq<char>| #[trigger] before.entries.dom().contains(k2)
                            && evictable(before.entries[k2]) implies before.entries[vk].last_access
                            <= before.entries[k2].last_access by {
                            lemma_slots_map_dom(self.slots@, k2);
                            let j = choose|j: int| 0 <= j < self.slots@.len() && #[trigger] self.slots@[j].key@ == k2;
                            lemma_slots_map_get(self.slots@, j);
                        }
                    }
                    let slot = self.slots.remove(i);
                    let size = match &slot.entry.state {
                        EntryState::Ready { size_bytes, .. } => *size_bytes,
                        EntryState::Loading => 0,
                    };
                    proof {
                        assert(ready_size(entry_view(slot.entry)) == size);
                    }
                    self.total_cached_bytes = self.total_cached_bytes - size as u64;
                    proof {
                        assert(sizes_match(self.slots@)) by {
                            assert forall|j: int| 0 <= j < self.slots@.len() implies match #[trigger] self.slots@[j].entry.state {
                                EntryState::Ready { bytes, size_bytes } => bytes@.len() == size_bytes,
                                EntryState::Loading => true,
                            } by {
                                let j2 = if j < i { j } else { j + 1 };
                                assert(self.slots@[j] == before_slots[j2]);
                            }
                        }
                        lemma_evicted_state_step(old_view, before, self@, last_removed, vk, additional as nat);
                        last_removed = Some(vk);
                    }
                },
            }
        }
    }
}

/// What a lookup decided.
pub enum CacheLookup {
    /// The entry is ready: here are its bytes; the caller now holds the entry.
    Hit(Arc<Vec<u8>>),
    /// Wait for the cache to change, then look again: the entry is being loaded by
    /// someone else, or the budget has no room yet.
    Wait,
    /// A placeholder was inserted and budget reserved: the caller loads the archive and
    /// then calls `complete_load` or `abort_load`; it holds the entry.
    Load,
}

/// The estimate a load reserves: the given size, or the default when 0 is given.
pub open spec fn effective_estimate(estimated_size: u64) -> nat {
    if estimated_size == 0 {
        DEFAULT_ESTIMATED_SIZE as nat
    } else {
        estimated_size as nat
    }
}

/// The bytes an entry of `m` under `k` counts for, 0 when there is none.
pub open spec fn ready_size_of(m: Map<Seq<char>, EntryView>, k: Seq<char>) -> nat {
    if m.dom().contains(k) {
        ready_size(m[k])
    } else {
        0
    }
}

proof fn lemma_slots_map_len(s: Seq<Slot>)
    requires
        keys_distinct(s),
    ensures
        slots_map(s).dom().finite(),
        slots_map(s).dom().len() == s.len(),
    decreases s.len(),
{
    if s.len() > 0 {
        let d = s.drop_last();
        assert forall|a: int, b: int| 0 <= a < b < d.len() implies d[a].key@ != d[b].key@ by {
            assert(d[a] == s[a]);
            assert(d[b] == s[b]);
        }
        lemma_slots_map_len(d);
        lemma_slots_map_dom(d, s.last().key@);
        if slots_map(d).dom().contains(s.last().key@) {
            let j = choose|j: int| 0 <= j < d.len() && #[trigger] d[j].key@ == s.last().key@;
            assert(d[j] == s[j]);
        }
    }
}

proof fn lemma_ready_size_le_total(s: Seq<Slot>, i: int)
    requires
        keys_distinct(s),
        0 <= i < s.len(),
    ensures
        ready_size(entry_view(s[i].entry)) <= slots_ready_total(s),
{
    lemma_slots_remove(s, i);
}

impl ZipCache {
    /// The bytes counted as cached.
    fn cached_bytes(&self) -> (r: u64)
        ensures
            r == self@.cached_bytes,
    {
        self.total_cached_bytes
    }

    /// The memory budget.
    fn budget_bytes(&self) -> (r: u64)
        ensures
            r == self@.budget_bytes,
    {
        self.budget_bytes
    }

    /// The bytes reserved for loads in progress.
    pub fn in_flight_bytes(&self) -> (r: u64)
        ensures
            r == self@.in_flight_bytes,
    {
        self.in_flight_bytes
    }

    /// The number of entries.
    fn entry_count(&self) -> (r: usize)
        requires
            self.wf(),
        ensures
            r == self@.entries.dom().len(),
    {
        proof {
            lemma_slots_map_len(self.slots@);
        }
        self.slots.len()
    }

    /// Whether an entry is cached under `key`.
    pub fn contains_key(&self, key: &str) -> (r: bool)
        requires
            self.wf(),
        ensures
            r == self@.entries.dom().contains(key@),
    {
        match self.find(key) {
            Some(i) => {
                proof {
                    lemma_slots_map_get(self.slots@, i as int);
                }
                true
            },
            None => false,
        }
    }

    /// Whether a lookup of `key` can count one more access and one more reader without
    /// overflowing its counters.
    pub fn has_headroom(&self, key: &str) -> (r: bool)
        requires
            self.wf(),
        ensures
            r == (self@.access_counter < u64::MAX && (self@.entries.dom().contains(key@)
                ==> self@.entries[key@].active_users < usize::MAX)),
    {
        if self.access_counter == u64::MAX {
            return false;
        }
        match self.find(key) {
            Some(i) => {
                proof {
                    lemma_slots_map_get(self.slots@, i as int);
                }
                self.slots[i].entry.active_users < usize::MAX
            },
            None => true,
        }
    }

    /// Puts `entry` under `key`, replacing any entry there, and counts its bytes in place
    /// of the replaced entry's.
    pub fn insert(&mut self, key: String, entry: CacheEntry)
        requires
            old(self).wf(),
            match entry.state {
                EntryState::Ready { bytes, size_bytes } => bytes@.len() == size_bytes,
                EntryState::Loading => true,
            },
            old(self)@.cached_bytes + ready_size(entry_view(entry)) <= u64::MAX + ready_size_of(
                old(self)@.entries,
                key@,
            ),
        ensures
            final(self).wf(),
            accounting_step(old(self)@, final(self)@, CacheOp::Insert),
            final(self)@.entries == old(self)@.entries.insert(key@, entry_view(entry)),
            final(self)@.cached_bytes + ready_size_of(old(self)@.entries, key@)
                == old(self)@.cached_bytes + ready_size(entry_view(entry)),
            final(self)@.ready_bytes + ready_size_of(old(self)@.entries, key@)
                == old(self)@.ready_bytes + ready_size(entry_view(entry)),
            final(self)@.access_counter == old(self)@.access_counter,
            final(self)@.in_flight_bytes == old(self)@.in_flight_bytes,
            final(self)@.budget_bytes == old(self)@.budget_bytes,
    {
        let new_size: u64 = match &entry.state {
            EntryState::Ready { size_bytes, .. } => *size_bytes as u64,
            EntryState::Loading => 0,
        };
        let ghost old_slots = self.slots@;
        match self.find(key.as_str()) {
            Some(i) => {
                let old_size: u64 = match &self.slots[i].entry.state {
                    EntryState::Ready { size_bytes, .. } => *size_bytes as u64,
                    EntryState::Loading => 0,
                };
                proof {
                    lemma_slots_map_get(old_slots, i as int);
                    lemma_ready_size_le_total(old_slots, i as int);
                    lemma_slots_update(old_slots, i as int, Slot { key, entry });
                }
                self.total_cached_bytes = self.total_cached_bytes - old_size + new_size;
                self.slots.set(i, Slot { key, entry });
                proof {
                    assert(self.slots@ == old_slots.update(i as int, Slot { key, entry }));
                    assert forall|j: int| 0 <= j < self.slots@.len() implies match #[trigger] self.slots@[j].entry.state {
                        EntryState::Ready { bytes, size_bytes } => bytes@.len() == size_bytes,
                        EntryState::Loading => true,
                    } by {
                        if j != i {
                            assert(self.slots@[j] == old_slots[j]);
                        }
                    }
                }
            },
            None => {
                let ghost k = key@;
                self.total_cached_bytes = self.total_cached_bytes + new_size;
                self.slots.push(Slot { key, entry });
                proof {
                    assert(self.slots@.drop_last() == old_slots);
                    assert forall|a: int, b: int| 0 <= a < b < self.slots@.len()
                        implies self.slots@[a].key@ != self.slots@[b].key@ by {
                        if b == self.slots@.len() - 1 {
                            assert(self.slots@[a] == old_slots[a]);
                            lemma_slots_map_dom(old_slots, k);
                            assert(old_slots[a].key@ == self.slots@[a].key@);
                        } else {
                            assert(self.slots@[a] == old_slots[a]);
                            assert(self.slots@[b] == old_slots[b]);
                        }
                    }
                    assert forall|j: int| 0 <= j < self.slots@.len() implies match #[trigger] self.slots@[j].entry.state {
                        EntryState::Ready { bytes, size_bytes } => bytes@.len() == size_bytes,
                        EntryState::Loading => true,
                    } by {
                        if j < old_slots.len() {
                            assert(self.slots@[j] == old_slots[j]);
                        }
                    }
                }
            },
        }
    }
}

impl ZipCache {
    /// One round of getting the bytes for `key`: a hit takes a reader's hold on a ready
    /// entry and marks it most recently used; a miss first evicts for the estimate, then
    /// either reserves the estimate and inserts a loading placeholder held by the caller,
    /// or asks the caller to wait while the budget is full.
    pub fn lookup(&mut self, key: &str, estimated_size: u64) -> (r: CacheLookup)
        requires
            old(self).wf(),
            old(self)@.access_counter < u64::MAX,
            old(self)@.entries.dom().contains(key@) ==> old(self)@.entries[key@].active_users < usize::MAX,
        ensures
            final(self).wf(),
            accounting_step(old(self)@, final(self)@, CacheOp::Lookup),
            old(self)@.entries.dom().contains(key@) ==> match old(self)@.entries[key@].state {
                EntryStateView::Ready { bytes, size } => {
                    &&& r matches CacheLookup::Hit(b) && b@ == bytes
                    &&& final(self)@.entries == old(self)@.entries.insert(
                        key@,
                        EntryView {
                            state: old(self)@.entries[key@].state,
                            active_users: old(self)@.entries[key@].active_users + 1,
                            last_access: old(self)@.access_counter + 1,
                        },
                    )
                    &&& final(self)@.access_counter == old(self)@.access_counter + 1
                    &&& final(self)@.cached_bytes == old(self)@.cached_bytes
                    &&& final(self)@.ready_bytes == old(self)@.ready_bytes
                    &&& final(self)@.in_flight_bytes == old(self)@.in_flight_bytes
                    &&& final(self)@.budget_bytes == old(self)@.budget_bytes
                },
                EntryStateView::Loading => r is Wait && final(self)@ == old(self)@,
            },
            !old(self)@.entries.dom().contains(key@) ==> exists|mid: CacheView|
                evicted_for(old(self)@, mid, effective_estimate(estimated_size)) && if fits(
                    mid,
                    effective_estimate(estimated_size),
                ) {
                    &&& r is Load
                    &&& final(self)@.entries == mid.entries.insert(
                        key@,
                        EntryView {
                            state: EntryStateView::Loading,
                            active_users: 1,
                            last_access: old(self)@.access_counter + 1,
                        },
                    )
                    &&& final(self)@.access_counter == old(self)@.access_counter + 1
                    &&& final(self)@.in_flight_bytes == mid.in_flight_bytes + effective_estimate(
                        estimated_size,
                    )
                    &&& final(self)@.cached_bytes == mid.cached_bytes
                    &&& final(self)@.ready_bytes == mid.ready_bytes
                    &&& final(self)@.budget_bytes == mid.budget_bytes
                } else {
                    r is Wait && final(self)@ == mid
                },
    {
        let est: u64 = if estimated_size == 0 {
            DEFAULT_ESTIMATED_SIZE
        } else {
            estimated_size
        };
        match self.find(key) {
            Some(i) => {
                proof {
                    lemma_slots_map_get(self.slots@, i as int);
                }
                let (found, users, size) = match &self.slots[i].entry.state {
                    EntryState::Ready { bytes, size_bytes } => (Some(bytes.clone()), self.slots[i].entry.active_users, *size_bytes),
                    EntryState::Loading => (None, 0, 0),
                };
                match found {
                    Some(bytes) => {
                        self.access_counter = self.access_counter + 1;
                        let entry = CacheEntry {
                            state: EntryState::Ready { bytes: bytes.clone(), size_bytes: size },
                            active_users: users + 1,
                            last_access: self.access_counter,
                        };
                        let ghost before = self@;
                        let k = self.slots[i].key.clone();
                        self.insert(k, entry);
                        CacheLookup::Hit(bytes)
                    },
                    None => CacheLookup::Wait,
                }
            },
            None => {
                let ghost start = self@;
                self.evict_for_budget(est);
                let ghost mid = self@;
                proof {
                    assert(effective_estimate(estimated_size) == est);
                    assert(evicted_for(start, mid, est as nat));
                }
                let usage = self.total_cached_bytes as u128 + self.in_flight_bytes as u128 + est as u128;
                if usage > self.budget_bytes as u128 {
                    proof {
                        assert(!fits(mid, effective_estimate(estimated_size)));
                    }
                    return CacheLookup::Wait;
                }
                self.in_flight_bytes = self.in_flight_bytes + est;
                self.access_counter = self.access_counter + 1;
                let entry = CacheEntry {
                    state: EntryState::Loading,
                    active_users: 1,
                    last_access: self.access_counter,
                };
                let k = String::from_str(key);
                proof {
                    lemma_slots_map_dom(self.slots@, key@);
                    assert(!self@.entries.dom().contains(key@));
                }
                self.insert(k, entry);
                proof {
                    assert(fits(mid, effective_estimate(estimated_size)));
                }
                CacheLookup::Load
            },
        }
    }
}

/// `a - b`, or 0 when `b` is larger.
pub open spec fn saturating_sub(a: nat, b: nat) -> nat {
    if a >= b {
        (a - b) as nat
    } else {
        0
    }
}

impl ZipCache {
    fn remove_at(&mut self, i: usize) -> (r: Slot)
        requires
            old(self).wf(),
            i < old(self).slots@.len(),
        ensures
            final(self).wf(),
            r == old(self).slots@[i as int],
            final(self).slots@ == old(self).slots@.remove(i as int),
            final(self)@.entries == old(self)@.entries.remove(r.key@),
            final(self)@.ready_bytes + ready_size(entry_view(r.entry)) == old(self)@.ready_bytes,
            final(self).total_cached_bytes == old(self).total_cached_bytes,
            final(self)@.access_counter == old(self)@.access_counter,
            final(self)@.in_flight_bytes == old(self)@.in_flight_bytes,
            final(self)@.budget_bytes == old(self)@.budget_bytes,
            old(self)@.entries.dom().contains(r.key@),
            old(self)@.entries[r.key@] == entry_view(r.entry),
    {
        let ghost old_slots = self.slots@;
        proof {
            lemma_slots_remove(old_slots, i as int);
            lemma_slots_map_get(old_slots, i as int);
        }
        let slot = self.slots.remove(i);
        proof {
            assert forall|j: int| 0 <= j < self.slots@.len() implies match #[trigger] self.slots@[j].entry.state {
                EntryState::Ready { bytes, size_bytes } => bytes@.len() == size_bytes,
                EntryState::Loading => true,
            } by {
                let j2 = if j < i { j } else { j + 1 };
                assert(self.slots@[j] == old_slots[j2]);
            }
        }
        slot
    }

    /// Records the bytes of a finished load of `key`: the placeholder becomes ready
    /// (keeping its readers and recency), the bytes are counted, the reservation of the
    /// estimate is released, and entries are evicted if the actual size overran the
    /// budget. Returns the shared bytes.
    pub fn complete_load(&mut self, key: &str, estimated_size: u64, bytes: Vec<u8>) -> (r: Arc<Vec<u8>>)
        requires
            old(self).wf(),
            old(self)@.cached_bytes + bytes@.len() <= u64::MAX,
        ensures
            final(self).wf(),
            accounting_step(old(self)@, final(self)@, CacheOp::CompleteLoad { key: key@, size: bytes@.len() }),
            r@ == bytes@,
            exists|mid: CacheView|
                {
                    &&& mid.entries == if old(self)@.entries.dom().contains(key@) {
                        old(self)@.entries.insert(
                            key@,
                            EntryView {
                                state: EntryStateView::Ready { bytes: bytes@, size: bytes@.len() },
                                active_users: old(self)@.entries[key@].active_users,
                                last_access: old(self)@.entries[key@].last_access,
                            },
                        )
                    } else {
                        old(self)@.entries
                    }
                    &&& mid.cached_bytes == old(self)@.cached_bytes + bytes@.len()
                    &&& mid.ready_bytes + ready_size_of(old(self)@.entries, key@) == old(self)@.ready_bytes
                        + if old(self)@.entries.dom().contains(key@) { bytes@.len() } else { 0 }
                    &&& mid.in_flight_bytes == saturating_sub(
                        old(self)@.in_flight_bytes,
                        effective_estimate(estimated_size),
                    )
                    &&& mid.access_counter == old(self)@.access_counter
                    &&& mid.budget_bytes == old(self)@.budget_bytes
                    &&& evicted_for(mid, final(self)@, 0)
                },
    {
        let est: u64 = if estimated_size == 0 {
            DEFAULT_ESTIMATED_SIZE
        } else {
            estimated_size
        };
        let ghost input = bytes@;
        let size = bytes.len();
        let shared = Arc::new(bytes);
        let total_before = self.total_cached_bytes;
        match self.find(key) {
            Some(i) => {
                proof {
                    lemma_slots_map_get(self.slots@, i as int);
                    lemma_ready_size_le_total(self.slots@, i as int);
                }
                let users = self.slots[i].entry.active_users;
                let last = self.slots[i].entry.last_access;
                let k = self.slots[i].key.clone();
                let entry = CacheEntry {
                    state: EntryState::Ready { bytes: shared.clone(), size_bytes: size },
                    active_users: users,
                    last_access: last,
                };
                self.insert(k, entry);
            },
            None => {},
        }
        self.total_cached_bytes = total_before + size as u64;
        self.in_flight_bytes = if self.in_flight_bytes >= est {
            self.in_flight_bytes - est
        } else {
            0
        };
        let ghost mid = self@;
        self.evict_for_budget(0);
        proof {
            assert(effective_estimate(estimated_size) == est);
            assert(evicted_for(mid, self@, 0));
        }
        shared
    }

    /// Drops the placeholder of a failed load of `key` and releases the reservation of
    /// its estimate.
    pub fn abort_load(&mut self, key: &str, estimated_size: u64)
        requires
            old(self).wf(),
        ensures
            final(self).wf(),
            accounting_step(old(self)@, final(self)@, CacheOp::AbortLoad { key: key@ }),
            final(self)@.entries == old(self)@.entries.remove(key@),
            final(self)@.cached_bytes == old(self)@.cached_bytes,
            final(self)@.ready_bytes + ready_size_of(old(self)@.entries, key@) == old(self)@.ready_bytes,
            final(self)@.in_flight_bytes == saturating_sub(
                old(self)@.in_flight_bytes,
                effective_estimate(estimated_size),
            ),
            final(self)@.access_counter == old(self)@.access_counter,
            final(self)@.budget_bytes == old(self)@.budget_bytes,
    {
        let est: u64 = if estimated_size == 0 {
            DEFAULT_ESTIMATED_SIZE
        } else {
            estimated_size
        };
        match self.find(key) {
            Some(i) => {
                self.remove_at(i);
            },
            None => {
                proof {
                    assert(self@.entries.remove(key@) =~= self@.entries);
                }
            },
        }
        self.in_flight_bytes = if self.in_flight_bytes >= est {
            self.in_flight_bytes - est
        } else {
            0
        };
    }

    /// A reader lets go of `key`: one reader fewer (never below 0).
    pub fn release(&mut self, key: &str)
        requires
            old(self).wf(),
        ensures
            final(self).wf(),
            accounting_step(old(self)@, final(self)@, CacheOp::Release),
            final(self)@.entries == if old(self)@.entries.dom().contains(key@) {
                old(self)@.entries.insert(
                    key@,
                    EntryView {
                        state: old(self)@.entries[key@].state,
                        active_users: saturating_sub(old(self)@.entries[key@].active_users, 1),
                        last_access: old(self)@.entries[key@].last_access,
                    },
                )
            } else {
                old(self)@.entries
            },
            final(self)@.cached_bytes == old(self)@.cached_bytes,
            final(self)@.ready_bytes == old(self)@.ready_bytes,
            final(self)@.in_flight_bytes == old(self)@.in_flight_bytes,
            final(self)@.access_counter == old(self)@.access_counter,
            final(self)@.budget_bytes == old(self)@.budget_bytes,
    {
        match self.find(key) {
            Some(i) => {
                proof {
                    lemma_slots_map_get(self.slots@, i as int);
                }
                let users = self.slots[i].entry.active_users;
                let last = self.slots[i].entry.last_access;
                let state = match &self.slots[i].entry.state {
                    EntryState::Ready { bytes, size_bytes } => EntryState::Ready {
                        bytes: bytes.clone(),
                        size_bytes: *size_bytes,
                    },
                    EntryState::Loading => EntryState::Loading,
                };
                let k = self.slots[i].key.clone();
                let entry = CacheEntry {
                    state,
                    active_users: if users > 0 { users - 1 } else { 0 },
                    last_access: last,
                };
                self.insert(k, entry);
            },
            None => {},
        }
    }

    /// Removes every entry that no reader holds, ready or still loading, and uncounts
    /// the bytes of the ready ones. Held entries stay.
    fn evict_unpinned(&mut self)
        requires
            old(self).wf(),
        ensures
            final(self).wf(),
            accounting_step(old(self)@, final(self)@, CacheOp::Evict),
            forall|k: Seq<char>| #[trigger] final(self)@.entries.dom().contains(k) <==> (
                old(self)@.entries.dom().contains(k) && old(self)@.entries[k].active_users > 0),
            forall|k: Seq<char>| #[trigger] final(self)@.entries.dom().contains(k)
                ==> final(self)@.entries[k] == old(self)@.entries[k],
            final(self)@.cached_bytes + old(self)@.ready_bytes == old(self)@.cached_bytes
                + final(self)@.ready_bytes,
            final(self)@.in_flight_bytes == old(self)@.in_flight_bytes,
            final(self)@.access_counter == old(self)@.access_counter,
            final(self)@.budget_bytes == old(self)@.budget_bytes,
    {
        let ghost old_view = self@;
        let mut i: usize = 0;
        while i < self.slots.len()
            invariant
                self.wf(),
                i <= self.slots@.len(),
                forall|j: int| 0 <= j < i ==> #[trigger] self.slots@[j].entry.active_users > 0,
                self@.entries.dom().subset_of(old_view.entries.dom()),
                forall|k: Seq<char>| #[trigger] self@.entries.dom().contains(k) ==> self@.entries[k]
                    == old_view.entries[k],
                forall|k: Seq<char>| #[trigger] old_view.entries.dom().contains(k) && !self@.entries.dom().contains(k)
                    ==> old_view.entries[k].active_users == 0,
                self@.cached_bytes + old_view.ready_bytes == old_view.cached_bytes + self@.ready_bytes,
                self@.in_flight_bytes == old_view.in_flight_bytes,
                self@.access_counter == old_view.access_counter,
                self@.budget_bytes == old_view.budget_bytes,
            decreases self.slots@.len() - i,
        {
            if self.slots[i].entry.active_users == 0 {
                proof {
                    lemma_ready_size_le_total(self.slots@, i as int);
                }
                let ghost before = self.slots@;
                let slot = self.remove_at(i);
                let size: u64 = match &slot.entry.state {
                    EntryState::Ready { size_bytes, .. } => *size_bytes as u64,
                    EntryState::Loading => 0,
                };
                self.total_cached_bytes = self.total_cached_bytes - size;
                proof {
                    assert forall|j: int| 0 <= j < i implies #[trigger] self.slots@[j].entry.active_users > 0 by {
                        assert(self.slots@[j] == before[j]);
                    }
                }
            } else {
                i = i + 1;
            }
        }
        proof {
            assert forall|k: Seq<char>| #[trigger] old_view.entries.dom().contains(k)
                && old_view.entries[k].active_users > 0 implies self@.entries.dom().contains(k) by {
            }
            assert forall|k: Seq<char>| #[trigger] self@.entries.dom().contains(k)
                implies self@.entries[k].active_users > 0 by {
                lemma_slots_map_dom(self.slots@, k);
                let j = choose|j: int| 0 <= j < self.slots@.len() && #[trigger] self.slots@[j].key@ == k;
                lemma_slots_map_get(self.slots@, j);
            }
        }
    }

    /// Removes every entry and uncounts all cached bytes. Reservations of loads in
    /// progress stay.
    fn clear(&mut self)
        requires
            old(self).wf(),
        ensures
            final(self).wf(),
            accounting_step(old(self)@, final(self)@, CacheOp::Clear),
            final(self)@.entries == Map::<Seq<char>, EntryView>::empty(),
            final(self)@.cached_bytes == 0,
            final(self)@.ready_bytes == 0,
            final(self)@.in_flight_bytes == old(self)@.in_flight_bytes,
            final(self)@.access_counter == old(self)@.access_counter,
            final(self)@.budget_bytes == old(self)@.budget_bytes,
    {
        self.slots = Vec::new();
        self.total_cached_bytes = 0;
    }
}

/// `available / 2`, kept within `MIN_BUDGET_BYTES ..= MAX_BUDGET_BYTES`.
pub open spec fn budget_for(available: u64) -> u64 {
    let half = available / 2;
    if half < MIN_BUDGET_BYTES {
        MIN_BUDGET_BYTES
    } else if half > MAX_BUDGET_BYTES {
        MAX_BUDGET_BYTES
    } else {
        half
    }
}

/// The memory budget for a machine with `available` bytes of free memory: half of it,
/// at least `MIN_BUDGET_BYTES` and at most `MAX_BUDGET_BYTES`.
pub fn compute_budget_bytes(available: u64) -> (r: u64)
    ensures
        r == budget_for(available),
        MIN_BUDGET_BYTES <= r <= MAX_BUDGET_BYTES,
{
    let half = available / 2;
    if half < MIN_BUDGET_BYTES {
        MIN_BUDGET_BYTES
    } else if half > MAX_BUDGET_BYTES {
        MAX_BUDGET_BYTES
    } else {
        half
    }
}

impl ZipCache {
    /// An empty cache for a machine with `available` bytes of free memory: its budget is
    /// half of that, kept within `MIN_BUDGET_BYTES ..= MAX_BUDGET_BYTES`, and no
    /// operation changes it afterwards.
    pub fn with_available_memory(available: u64) -> (r: Self)
        ensures
            r.wf(),
            accounted(r@),
            r@.entries == Map::<Seq<char>, EntryView>::empty(),
            r@.access_counter == 0,
            r@.cached_bytes == 0,
            r@.in_flight_bytes == 0,
            r@.budget_bytes == budget_for(available),
            MIN_BUDGET_BYTES <= r@.budget_bytes <= MAX_BUDGET_BYTES,
    {
        ZipCache::new(compute_budget_bytes(available))
    }
}

/// Evicts every entry that no reader holds (see `ZipCache::evict_unpinned`).
pub fn evict_unpinned(cache: &mut ZipCache)
    requires
        old(cache).wf(),
    ensures
        final(cache).wf(),
        accounting_step(old(cache)@, final(cache)@, CacheOp::Evict),
        forall|k: Seq<char>| #[trigger] final(cache)@.entries.dom().contains(k) <==> (
            old(cache)@.entries.dom().contains(k) && old(cache)@.entries[k].active_users > 0),
        forall|k: Seq<char>| #[trigger] final(cache)@.entries.dom().contains(k)
            ==> final(cache)@.entries[k] == old(cache)@.entries[k],
        final(cache)@.cached_bytes + old(cache)@.ready_bytes == old(cache)@.cached_bytes
            + final(cache)@.ready_bytes,
        final(cache)@.in_flight_bytes == old(cache)@.in_flight_bytes,
        final(cache)@.access_counter == old(cache)@.access_counter,
        final(cache)@.budget_bytes == old(cache)@.budget_bytes,
{
    cache.evict_unpinned()
}

/// Evicts everything (see `ZipCache::clear`); meant for when no processing runs.
pub fn clear(cache: &mut ZipCache)
    requires
        old(cache).wf(),
    ensures
        final(cache).wf(),
        accounting_step(old(cache)@, final(cache)@, CacheOp::Clear),
        final(cache)@.entries == Map::<Seq<char>, EntryView>::empty(),
        final(cache)@.cached_bytes == 0,
        final(cache)@.ready_bytes == 0,
        final(cache)@.in_flight_bytes == old(cache)@.in_flight_bytes,
        final(cache)@.access_counter == old(cache)@.access_counter,
        final(cache)@.budget_bytes == old(cache)@.budget_bytes,
{
    cache.clear()
}

/// The memory budget of the cache in bytes.
pub fn budget_bytes(cache: &ZipCache) -> (r: u64)
    ensures
        r == cache@.budget_bytes,
{
    cache.budget_bytes()
}

/// The bytes currently counted as cached.
pub fn cached_bytes(cache: &ZipCache) -> (r: u64)
    ensures
        r == cache@.cached_bytes,
{
    cache.cached_bytes()
}

/// The number of entries in the cache.
pub fn entry_count(cache: &ZipCache) -> (r: usize)
    requires
        cache.wf(),
    ensures
        r == cache@.entries.dom().len(),
{
    cache.entry_count()
}

/// The key of a nested archive: `outer_zip_path::nested_zip_path`.
pub open spec fn cache_key(outer: Seq<char>, nested: Seq<char>) -> Seq<char> {
    outer + seq![':', ':'] + nested
}

/// Cache key for the nested archive `nested_zip_path` inside the archive at `outer_zip_path`.
pub fn compose_cache_key(outer_zip_path: &str, nested_zip_path: &str) -> (r: String)
    ensures
        r@ == cache_key(outer_zip_path@, nested_zip_path@),
{
    let sep = "::";
    proof {
        reveal_strlit("::");
    }
    let mut key = String::from_str(outer_zip_path);
    key.append(sep);
    key.append(nested_zip_path);
    key
}

/// Byte position just after the `.zip` of the first `.zip/` in `path`, ignoring ASCII case.
pub fn find_first_nested_zip_boundary(path: &str) -> (r: Option<usize>)
    ensures
        match first_zip_boundary(path.spec_bytes()) {
            Some(b) => r == Some(b as usize),
            None => r is None,
        },
{
    find_first_zip_sep(path.as_bytes())
}

/// Byte position just after the `.zip` of the last `.zip/` in `path`, ignoring ASCII case.
pub fn find_last_nested_zip_boundary(path: &str) -> (r: Option<usize>)
    ensures
        match last_zip_boundary(path.spec_bytes()) {
            Some(b) => r == Some(b as usize),
            None => r is None,
        },
{
    find_last_zip_sep(path.as_bytes())
}

/// Splits an entry path at its first `.zip/`: the outermost nested archive, and the
/// path inside it.
pub fn split_first_nested_zip_segment(path: &str) -> (r: Option<(&str, &str)>)
    ensures
        match first_zip_boundary(path.spec_bytes()) {
            Some(b) => r matches Some(pair) && pair.0.spec_bytes() == path.spec_bytes().subrange(0, b)
                && pair.1.spec_bytes() == path.spec_bytes().subrange(b + 1, path.spec_bytes().len() as int),
            None => r is None,
        },
{
    split_at_first_zip(path)
}

/// Splits an entry path at its last `.zip/`: the path of the deepest nested archive
/// (through all enclosing ones), and the entry inside it.
pub fn split_deepest_nested_zip_path(path: &str) -> (r: Option<(&str, &str)>)
    ensures
        match last_zip_boundary(path.spec_bytes()) {
            Some(b) => r matches Some(pair) && pair.0.spec_bytes() == path.spec_bytes().subrange(0, b)
                && pair.1.spec_bytes() == path.spec_bytes().subrange(b + 1, path.spec_bytes().len() as int),
            None => r is None,
        },
{
    split_at_last_zip(path)
}

/// The scheduling group of an asset: the cache key of the deepest nested archive its
/// ZIP entry lies in; `None` for files and for entries of a plain (not nested) archive.
pub open spec fn group_key_of(a: Asset) -> Option<Seq<char>> {
    match a.zip_entry {
        None => None,
        Some(e) => match last_zip_boundary(encode_utf8(e@)) {
            None => None,
            Some(b) => Some(cache_key(asset_zip_path(a), utf8_text(encode_utf8(e@).subrange(0, b)))),
        },
    }
}

/// Group key that keeps assets from the same nested archive together when scheduling.
pub fn nested_zip_group_key(asset: &Asset) -> (r: Option<String>)
    ensures
        match group_key_of(*asset) {
            Some(k) => r matches Some(s) && s@ == k,
            None => r is None,
        },
{
    match &asset.zip_entry {
        None => None,
        Some(entry) => match split_at_last_zip(entry.as_str()) {
            None => None,
            Some((nested, _)) => Some(compose_cache_key(resolve_zip_path(asset).as_str(), nested)),
        },
    }
}

/// Whether an asset lies inside a nested archive.
pub fn is_nested_zip_asset(asset: &Asset) -> (r: bool)
    ensures
        r == group_key_of(*asset) is Some,
{
    nested_zip_group_key(asset).is_some()
}

/// Reads the entry `inner_entry` from a cached nested archive's bytes.
pub fn load_entry_from_shared_zip_bytes(zip_bytes: &Arc<Vec<u8>>, inner_entry: &str) -> (r: Result<Vec<u8>, String>)
    ensures
        match zip_entry_content(zip_bytes@, inner_entry@) {
            Some(c) => r matches Ok(v) && v@ == c,
            None => r is Err,
        },
{
    let bytes: &Vec<u8> = zip_bytes;
    read_zip_entry(bytes.as_slice(), inner_entry)
}

/// Keeps a cache entry pinned while a reader uses its bytes; handing it back to
/// `release_guard` lets the entry be evicted again.
pub struct CacheEntryGuard {
    key: String,
}

impl CacheEntryGuard {
    pub closed spec fn view_key(&self) -> Seq<char> {
        self.key@
    }

    /// The guard of the entry `key`, which the caller holds.
    pub fn new(key: String) -> (r: CacheEntryGuard)
        ensures
            r.view_key() == key@,
    {
        CacheEntryGuard { key }
    }
}

impl ZipCache {
    /// Lets go of the entry a guard holds, as `release` does.
    pub fn release_guard(&mut self, guard: CacheEntryGuard)
        requires
            old(self).wf(),
        ensures
            final(self).wf(),
            accounting_step(old(self)@, final(self)@, CacheOp::Release),
            final(self)@.entries == if old(self)@.entries.dom().contains(guard.view_key()) {
                old(self)@.entries.insert(
                    guard.view_key(),
                    EntryView {
                        state: old(self)@.entries[guard.view_key()].state,
                        active_users: saturating_sub(old(self)@.entries[guard.view_key()].active_users, 1),
                        last_access: old(self)@.entries[guard.view_key()].last_access,
                    },
                )
            } else {
                old(self)@.entries
            },
            final(self)@.cached_bytes == old(self)@.cached_bytes,
            final(self)@.ready_bytes == old(self)@.ready_bytes,
            final(self)@.in_flight_bytes == old(self)@.in_flight_bytes,
            final(self)@.access_counter == old(self)@.access_counter,
            final(self)@.budget_bytes == old(self)@.budget_bytes,
    {
        self.release(guard.key.as_str());
    }
}

/// Eviction never removes an entry a reader holds, nor one still loading: such an entry
/// stays, unchanged.
pub proof fn law_eviction_keeps_held_entries(old: CacheView, new: CacheView, additional: nat, k: Seq<char>)
    requires
        evicted_for(old, new, additional),
        old.entries.dom().contains(k),
        !evictable(old.entries[k]),
    ensures
        new.entries.dom().contains(k),
        new.entries[k] == old.entries[k],
{
}

/// Eviction removes least-recently-used entries first: no entry removed was used more
/// recently than an evictable entry that stays.
pub proof fn law_eviction_is_lru(old: CacheView, new: CacheView, additional: nat, gone: Seq<char>, kept: Seq<char>)
    requires
        evicted_for(old, new, additional),
        old.entries.dom().contains(gone),
        !new.entries.dom().contains(gone),
        new.entries.dom().contains(kept),
        evictable(new.entries[kept]),
    ensures
        old.entries[gone].last_access <= new.entries[kept].last_access,
{
}

/// A completed load is served: the loader holds the entry, so the eviction that follows
/// the load keeps it, ready with the loaded bytes.
pub proof fn law_completed_load_is_ready(old: CacheView, mid: CacheView, new: CacheView, key: Seq<char>, bytes: Seq<u8>)
    requires
        old.entries.dom().contains(key),
        old.entries[key].active_users > 0,
        mid.entries == old.entries.insert(
            key,
            EntryView {
                state: EntryStateView::Ready { bytes: bytes, size: bytes.len() },
                active_users: old.entries[key].active_users,
                last_access: old.entries[key].last_access,
            },
        ),
        evicted_for(mid, new, 0),
    ensures
        new.entries.dom().contains(key),
        new.entries[key].state == (EntryStateView::Ready { bytes: bytes, size: bytes.len() }),
        new.entries[key].active_users == old.entries[key].active_users,
{
    assert(mid.entries.dom().contains(key));
    assert(!evictable(mid.entries[key]));
}

/// A hit followed by a release leaves the entry's readers as they were.
pub proof fn law_hit_then_release(e: EntryView)
    ensures
        saturating_sub(e.active_users + 1, 1) == e.active_users,
{
}

/// A load is only started when its reservation fits the budget: after `lookup` answers
/// `Load`, the cached and reserved bytes stay within the budget.
pub proof fn law_load_reservation_fits(mid: CacheView, new: CacheView, estimated_size: u64)
    requires
        fits(mid, effective_estimate(estimated_size)),
        new.in_flight_bytes == mid.in_flight_bytes + effective_estimate(estimated_size),
        new.cached_bytes == mid.cached_bytes,
        new.budget_bytes == mid.budget_bytes,
    ensures
        new.cached_bytes + new.in_flight_bytes <= new.budget_bytes,
{
}

/// The bytes counted as ready are the sizes of the ready entries taken together, so
/// every change to the entries that a contract states fixes how the ready bytes move.
pub proof fn law_ready_bytes_are_entry_sizes(cache: ZipCache)
    requires
        cache.wf(),
    ensures
        cache@.entries.dom().finite(),
        cache@.ready_bytes == ready_total(cache@.entries),
{
    lemma_slots_ready_total(cache.slots@);
}

/// Eviction keeps the accounting and uncounts exactly what it removes: when the cached
/// bytes were those of the ready entries, they still are, and they drop by the total
/// size of the entries that are gone.
pub proof fn law_eviction_uncounts_removed(old: CacheView, new: CacheView, additional: nat)
    requires
        evicted_for(old, new, additional),
        old.entries.dom().finite(),
        accounted(old),
        old.ready_bytes == ready_total(old.entries),
        new.ready_bytes == ready_total(new.entries),
    ensures
        accounted(new),
        new.cached_bytes + ready_total(old.entries.remove_keys(new.entries.dom())) == old.cached_bytes,
{
    lemma_ready_total_split(old.entries, new.entries);
}

/// A completed load keeps the accounting: the loader's placeholder becomes ready with
/// the loaded bytes, which are counted once, and the eviction after it keeps the rest.
pub proof fn law_completed_load_keeps_accounting(old: CacheView, mid: CacheView, new: CacheView, key: Seq<char>, bytes: Seq<u8>)
    requires
        accounted(old),
        old.entries.dom().contains(key),
        old.entries[key].state is Loading,
        mid.cached_bytes == old.cached_bytes + bytes.len(),
        mid.ready_bytes + ready_size_of(old.entries, key) == old.ready_bytes + bytes.len(),
        evicted_for(mid, new, 0),
    ensures
        accounted(mid),
        accounted(new),
{
}

} // verus!
