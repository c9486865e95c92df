//! Grouping the positions of a list by an optional string key, in one pass, through a
//! hash index over the keys met so far.

use vstd::prelude::*;
use std::collections::HashMap;
use std::collections::hash_map::DefaultHasher;
use std::hash::Hasher;
use vstd::std_specs::hash::DefaultHasherAdditionalSpecFns;
use vstd::utf8::encode_utf8;
use crate::text::str_eq;

verus! {

broadcast use vstd::std_specs::hash::group_hash_axioms;

/// The view of an optional key.
pub open spec fn key_view(k: Option<String>) -> Option<Seq<char>> {
    match k {
        Some(s) => Some(s@),
        None => None,
    }
}

/// The views of a list of optional keys.
pub open spec fn keys_view(v: Seq<Option<String>>) -> Seq<Option<Seq<char>>> {
    v.map_values(|k: Option<String>| key_view(k))
}

/// The views of a list of names.
pub open spec fn names_view(v: Seq<String>) -> Seq<Seq<char>> {
    v.map_values(|s: String| s@)
}

/// The hash under which a name is filed: the default hasher fed the name's UTF-8 bytes.
pub open spec fn key_hash(k: Seq<char>) -> u64 {
    DefaultHasher::spec_finish(seq![encode_utf8(k)])
}

/// The positions of `ks` that hold `k`, in increasing order.
pub open spec fn positions_of<K>(ks: Seq<K>, k: K) -> Seq<usize>
    decreases ks.len(),
{
    if ks.len() == 0 {
        Seq::empty()
    } else {
        let rest = positions_of(ks.drop_last(), k);
        if ks.last() == k {
            rest.push((ks.len() - 1) as usize)
        } else {
            rest
        }
    }
}

/// Where no position holds `k`, there are no positions of it.
pub proof fn lemma_positions_absent<K>(ks: Seq<K>, k: K)
    requires
        forall|j: int| 0 <= j < ks.len() ==> ks[j] != k,
    ensures
        positions_of(ks, k) == Seq::<usize>::empty(),
    decreases ks.len(),
{
    if ks.len() > 0 {
        lemma_positions_absent(ks.drop_last(), k);
    }
}

/// Every position of `k` is a position of `ks` that holds `k`, and they increase.
pub proof fn lemma_positions_valid<K>(ks: Seq<K>, k: K)
    requires
        ks.len() <= usize::MAX + 1,
    ensures
        forall|j: int| 0 <= j < positions_of(ks, k).len() ==> #[trigger] positions_of(ks, k)[j] < ks.len()
            && ks[positions_of(ks, k)[j] as int] == k,
        forall|a: int, b: int| 0 <= a < b < positions_of(ks, k).len() ==> positions_of(ks, k)[a]
            < positions_of(ks, k)[b],
    decreases ks.len(),
{
    if ks.len() > 0 {
        let init = ks.drop_last();
        lemma_positions_valid(init, k);
        let p = positions_of(ks, k);
        let q = positions_of(init, k);
        assert forall|j: int| 0 <= j < q.len() implies #[trigger] q[j] < ks.len() && ks[q[j] as int] == k by {
            assert(q[j] < init.len() && init[q[j] as int] == k);
        }
    }
}

/// A position that holds `k` is among the positions of `k`.
pub proof fn lemma_positions_complete<K>(ks: Seq<K>, k: K, i: int)
    requires
        0 <= i < ks.len(),
        ks.len() <= usize::MAX + 1,
        ks[i] == k,
    ensures
        positions_of(ks, k).contains(i as usize),
    decreases ks.len(),
{
    if i == ks.len() - 1 {
        assert(positions_of(ks, k).last() == i as usize);
    } else {
        let init = ks.drop_last();
        lemma_positions_complete(init, k, i);
        let q = positions_of(init, k);
        let t = choose|t: int| 0 <= t < q.len() && q[t] == i as usize;
        assert(positions_of(ks, k)[t] == i as usize);
    }
}

/// Extending a list by one element extends the positions of that element's key by one.
pub proof fn lemma_positions_step<K>(ks: Seq<K>, i: int, k: K)
    requires
        0 <= i < ks.len(),
        i <= usize::MAX,
    ensures
        positions_of(ks.take(i + 1), k) == (if ks[i] == k {
            positions_of(ks.take(i), k).push(i as usize)
        } else {
            positions_of(ks.take(i), k)
        }),
{
    assert(ks.take(i + 1).drop_last() =~= ks.take(i));
    assert(ks.take(i + 1).last() == ks[i]);
}

/// The hash of a name.
fn hash_name(name: &str) -> (r: u64)
    ensures
        r == key_hash(name@),
{
    let mut h = DefaultHasher::new();
    h.write(name.as_bytes());
    proof {
        assert(h@ =~= seq![encode_utf8(name@)]);
    }
    h.finish()
}

/// The positions of a list grouped by key: one group per distinct key, and the
/// positions without a key apart.
pub struct KeyGroups {
    /// The distinct keys, one per group.
    pub names: Vec<String>,
    /// For each key, the positions that hold it, in increasing order.
    pub groups: Vec<Vec<usize>>,
    /// The positions that hold no key, in increasing order.
    pub unkeyed: Vec<usize>,
}

/// The groups of a list of keys: distinct names, each with the positions that hold it,
/// every key named, and the unkeyed positions.
pub open spec fn groups_by_key(
    ks: Seq<Option<Seq<char>>>,
    names: Seq<Seq<char>>,
    groups: Seq<Seq<usize>>,
    unkeyed: Seq<usize>,
) -> bool {
    &&& names.len() == groups.len()
    &&& forall|a: int, b: int| 0 <= a < b < names.len() ==> #[trigger] names[a] != #[trigger] names[b]
    &&& forall|g: int| 0 <= g < names.len() ==> #[trigger] groups[g] == positions_of(ks, Some(names[g]))
    &&& forall|g: int| 0 <= g < names.len() ==> #[trigger] groups[g].len() > 0
    &&& forall|i: int| 0 <= i < ks.len() && #[trigger] ks[i] is Some ==> exists|g: int|
        0 <= g < names.len() && #[trigger] names[g] == ks[i]->0
    &&& unkeyed == positions_of(ks, None::<Seq<char>>)
}

spec fn index_ok(names: Seq<Seq<char>>, index: Map<u64, Vec<usize>>) -> bool {
    &&& forall|g: int| 0 <= g < names.len() ==> index.contains_key(#[trigger] key_hash(names[g]))
        && index[key_hash(names[g])]@.contains(g as usize)
    &&& forall|h: u64, j: int| #[trigger] index.contains_key(h) && 0 <= j < index[h]@.len()
        ==> #[trigger] index[h]@[j] < names.len() && key_hash(names[index[h]@[j] as int]) == h
}

proof fn lemma_index_finds(names: Seq<Seq<char>>, index: Map<u64, Vec<usize>>, g: int)
    requires
        index_ok(names, index),
        0 <= g < names.len(),
    ensures
        index.contains_key(key_hash(names[g])),
        index[key_hash(names[g])]@.contains(g as usize),
{
    assert(index.contains_key(key_hash(names[g])));
}

impl KeyGroups {
    /// The groups of the list of keys `ks`.
    pub open spec fn of_keys(&self, ks: Seq<Option<Seq<char>>>) -> bool {
        groups_by_key(ks, names_view(self.names@), self.groups@.map_values(|v: Vec<usize>| v@), self.unkeyed@)
    }

}

/// The position in `names` of `name`, if it is there, looked up through `index`.
fn find_name(names: &Vec<String>, index: &HashMap<u64, Vec<usize>>, name: &str) -> (r: Option<usize>)
    requires
        index_ok(names_view(names@), index@),
    ensures
        match r {
            Some(g) => g < names@.len() && names@[g as int]@ == name@,
            None => forall|g: int| 0 <= g < names@.len() ==> names@[g]@ != name@,
        },
{
    let ghost nv = names_view(names@);
    let name_count = names.len();
    let h = hash_name(name);
    match index.get(&h) {
        None => {
            proof {
                assert forall|g: int| 0 <= g < names@.len() implies names@[g]@ != name@ by {
                    assert(nv[g] == names@[g]@);
                    if names@[g]@ == name@ {
                        lemma_index_finds(nv, index@, g);
                    }
                }
            }
            None
        },
        Some(bucket) => {
            let mut j: usize = 0;
            while j < bucket.len()
                invariant
                    index_ok(names_view(names@), index@),
                    nv == names_view(names@),
                    index@.contains_key(h),
                    *bucket == index@[h],
                    h == key_hash(name@),
                    j <= bucket@.len(),
                    forall|t: int| 0 <= t < j ==> nv[bucket@[t] as int] != name@,
                decreases bucket@.len() - j,
            {
                let g = bucket[j];
                proof {
                    assert(g < nv.len());
                    assert(nv[g as int] == names@[g as int]@);
                }
                if str_eq(names[g].as_str(), name) {
                    return Some(g);
                }
                j = j + 1;
            }
            proof {
                assert forall|g: int| 0 <= g < names@.len() implies names@[g]@ != name@ by {
                    assert(nv[g] == names@[g]@);
                    assert(g < name_count);
                    if names@[g]@ == name@ {
                        assert(key_hash(nv[g]) == h);
                        lemma_index_finds(nv, index@, g);
                        assert(bucket@.contains(g as usize));
                        let t = choose|t: int| 0 <= t < bucket@.len() && bucket@[t] == g as usize;
                        assert(nv[bucket@[t] as int] != name@);
                    }
                }
            }
            None
        },
    }
}

/// Groups the positions of `keys` by key: one group per distinct key, each holding the
/// positions with that key in increasing order, and the positions without a key apart.
pub fn group_by_key(keys: &Vec<Option<String>>) -> (r: KeyGroups)
    ensures
        r.of_keys(keys_view(keys@)),
{
    let ghost ks = keys_view(keys@);
    let mut names: Vec<String> = Vec::new();
    let mut groups: Vec<Vec<usize>> = Vec::new();
    let mut unkeyed: Vec<usize> = Vec::new();
    let mut index: HashMap<u64, Vec<usize>> = HashMap::new();
    let n = keys.len();
    let mut i: usize = 0;
    while i < n
        invariant
            n == keys@.len(),
            i <= n,
            ks == keys_view(keys@),
            groups_by_key(ks.take(i as int), names_view(names@), groups@.map_values(|v: Vec<usize>| v@), unkeyed@),
            index_ok(names_view(names@), index@),
        decreases n - i,
    {
        let ghost nv0 = names_view(names@);
        let ghost gv0 = groups@.map_values(|v: Vec<usize>| v@);
        let ghost ks0 = ks.take(i as int);
        let ghost ks1 = ks.take(i as int + 1);
        proof {
            assert forall|k: Option<Seq<char>>| #[trigger] positions_of(ks1, k) == (if ks[i as int] == k {
                positions_of(ks0, k).push(i)
            } else {
                positions_of(ks0, k)
            }) by {
                lemma_positions_step(ks, i as int, k);
            }
            assert forall|j: int| 0 <= j < i implies #[trigger] ks1[j] == ks0[j] by {}
            assert(ks1[i as int] == ks[i as int]);
        }
        match &keys[i] {
            None => {
                proof {
                    assert(ks[i as int] == None::<Seq<char>>);
                }
                unkeyed.push(i);
                proof {
                    assert forall|g: int| 0 <= g < nv0.len() implies #[trigger] gv0[g] == positions_of(ks1, Some(nv0[g])) by {
                        assert(positions_of(ks1, Some(nv0[g])) == positions_of(ks0, Some(nv0[g])));
                    }
                    assert forall|j: int| 0 <= j < ks1.len() && #[trigger] ks1[j] is Some implies exists|g: int|
                        0 <= g < nv0.len() && #[trigger] nv0[g] == ks1[j]->0 by {
                        assert(j < i);
                        assert(ks0[j] is Some);
                    }
                }
            },
            Some(name) => {
                proof {
                    assert(ks[i as int] == Some(name@));
                }
                match find_name(&names, &index, name.as_str()) {
                    Some(g) => {
                        let ghost old_groups = groups@;
                        groups[g].push(i);
                        proof {
                            let gv1 = groups@.map_values(|v: Vec<usize>| v@);
                            assert(gv1 =~= gv0.update(g as int, gv0[g as int].push(i)));
                            assert forall|h: int| 0 <= h < nv0.len() implies #[trigger] gv1[h] == positions_of(ks1, Some(nv0[h])) by {
                                if h != g {
                                    assert(nv0[h] != nv0[g as int]);
                                }
                            }
                            assert forall|j: int| 0 <= j < ks1.len() && #[trigger] ks1[j] is Some implies exists|h: int|
                                0 <= h < nv0.len() && #[trigger] nv0[h] == ks1[j]->0 by {
                                if j < i {
                                    assert(ks0[j] is Some);
                                } else {
                                    assert(nv0[g as int] == ks1[j]->0);
                                }
                            }
                            assert(unkeyed@ == positions_of(ks1, None::<Seq<char>>));
                        }
                    },
                    None => {
                        let new_g = names.len();
                        proof {
                            assert forall|j: int| 0 <= j < ks0.len() implies ks0[j] != Some(name@) by {
                                if ks0[j] == Some(name@) {
                                    assert(ks0[j] is Some);
                                    let g = choose|g: int| 0 <= g < nv0.len() && #[trigger] nv0[g] == ks0[j]->0;
                                    assert(names@[g]@ == nv0[g]);
                                }
                            }
                            lemma_positions_absent(ks0, Some(name@));
                        }
                        let h = hash_name(name.as_str());
                        let ghost index_before = index@;
                        let mut bucket: Vec<usize> = match index.remove(&h) {
                            Some(b) => b,
                            None => Vec::new(),
                        };
                        let ghost old_bucket = bucket@;
                        proof {
                            assert(old_bucket == (if index_before.contains_key(h) { index_before[h]@ } else { Seq::<usize>::empty() }));
                            assert(index@ == index_before.remove(h));
                        }
                        bucket.push(new_g);
                        index.insert(h, bucket);
                        names.push(name.clone());
                        let mut fresh: Vec<usize> = Vec::new();
                        fresh.push(i);
                        groups.push(fresh);
                        proof {
                            let nv1 = names_view(names@);
                            let gv1 = groups@.map_values(|v: Vec<usize>| v@);
                            assert(nv1 =~= nv0.push(name@));
                            assert(gv1 =~= gv0.push(seq![i]));
                            assert(positions_of(ks1, Some(name@)) =~= seq![i]);
                            assert forall|a: int, b: int| 0 <= a < b < nv1.len() implies #[trigger] nv1[a] != #[trigger] nv1[b] by {
                                if b < nv0.len() {
                                    assert(nv0[a] != nv0[b]);
                                } else {
                                    assert(names@[a]@ == nv0[a]);
                                }
                            }
                            assert forall|g: int| 0 <= g < nv1.len() implies #[trigger] gv1[g] == positions_of(ks1, Some(nv1[g])) by {
                                if g < nv0.len() {
                                    assert(names@[g]@ == nv0[g]);
                                    assert(nv0[g] != name@);
                                    assert(gv0[g] == positions_of(ks0, Some(nv0[g])));
                                }
                            }
                            assert forall|j: int| 0 <= j < ks1.len() && #[trigger] ks1[j] is Some implies exists|g: int|
                                0 <= g < nv1.len() && #[trigger] nv1[g] == ks1[j]->0 by {
                                if j < i {
                                    assert(ks0[j] is Some);
                                    let g = choose|g: int| 0 <= g < nv0.len() && #[trigger] nv0[g] == ks0[j]->0;
                                    assert(nv1[g] == nv0[g]);
                                } else {
                                    assert(nv1[nv0.len() as int] == ks1[j]->0);
                                }
                            }
                            assert(unkeyed@ == positions_of(ks1, None::<Seq<char>>));
                            // the index now files the new name under its hash
                            let index1 = index@;
                            assert(index1.contains_key(h) && index1[h]@ == old_bucket.push(new_g));
                            assert forall|hh: u64| hh != h implies index1.contains_key(hh) == index_before.contains_key(hh)
                                && (index1.contains_key(hh) ==> index1[hh] == index_before[hh]) by {}
                            assert forall|g: int| 0 <= g < nv1.len() implies index1.contains_key(#[trigger] key_hash(nv1[g]))
                                && index1[key_hash(nv1[g])]@.contains(g as usize) by {
                                if g < nv0.len() {
                                    assert(nv1[g] == nv0[g]);
                                    assert(index_before.contains_key(key_hash(nv0[g])));
                                    assert(index_before[key_hash(nv0[g])]@.contains(g as usize));
                                    if key_hash(nv0[g]) == h {
                                        let t = choose|t: int| 0 <= t < old_bucket.len() && old_bucket[t] == g as usize;
                                        assert(index1[h]@[t] == g as usize);
                                    }
                                } else {
                                    assert(index1[h]@[old_bucket.len() as int] == new_g);
                                }
                            }
                            assert forall|hh: u64, j: int| #[trigger] index1.contains_key(hh) && 0 <= j < index1[hh]@.len()
                                implies #[trigger] index1[hh]@[j] < nv1.len() && key_hash(nv1[index1[hh]@[j] as int]) == hh by {
                                if hh == h {
                                    if j < old_bucket.len() {
                                        assert(index1[hh]@[j] == old_bucket[j]);
                                        assert(index_before.contains_key(h));
                                        assert(index_before[h]@[j] < nv0.len());
                                    }
                                } else {
                                    assert(index_before.contains_key(hh));
                                    assert(index1[hh] == index_before[hh]);
                                    assert(index_before[hh]@[j] < nv0.len());
                                }
                            }
                        }
                    },
                }
            },
        }
        i = i + 1;
    }
    proof {
        assert(ks.take(n as int) =~= ks);
    }
    KeyGroups { names, groups, unkeyed }
}

} // verus!
