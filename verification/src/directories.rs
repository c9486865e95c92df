//! The directory tree shown for a folder, computed from the asset rows: directories on
//! disk, ZIP archives, and directories inside archives, each with its parent, the
//! assets directly in it, the assets anywhere below it and its number of children.
//! Nodes come parents first, so that each can be stored after its parent.

use vstd::prelude::*;
use vstd::utf8::encode_utf8;
use vstd::string::StringSliceAdditionalSpecFns;
use vstd::string::StrSliceExecFns;
use crate::scan::{last_slash, lemma_last_slash, find_last_slash};
use crate::text::{bytes_lt, str_lt, str_eq, chars_of, lemma_bytes_lt_transitive};

verus! {

/// The three kinds of node.
#[derive(Clone, Copy, PartialEq, Eq, Structural, Debug)]
pub enum DirKind {
    /// A directory on disk: `rel_path`.
    Fs,
    /// A ZIP archive `zip_file` in the directory `rel_path`.
    Zip,
    /// The directory `zip_prefix` (ending in `/`) inside the archive.
    ZipDir,
}

/// The identity of a node; parts a kind does not use are empty.
pub struct DirKey {
    pub kind: DirKind,
    pub rel_path: String,
    pub zip_file: String,
    pub zip_prefix: String,
}

/// The view of a key.
pub open spec fn key_view(k: DirKey) -> (DirKind, Seq<char>, Seq<char>, Seq<char>) {
    (k.kind, k.rel_path@, k.zip_file@, k.zip_prefix@)
}

/// `s` without its trailing `/`s.
pub open spec fn trim_slashes(s: Seq<char>) -> Seq<char>
    decreases s.len(),
{
    if s.len() > 0 && s.last() == '/' {
        trim_slashes(s.drop_last())
    } else {
        s
    }
}

/// The parent of a node: a directory on disk is in the one before its last `/` (none
/// when it has no `/`); an archive is in its directory (none at the folder root); a
/// directory inside an archive is in the one before its last `/`, or in the archive.
pub open spec fn parent_key(k: (DirKind, Seq<char>, Seq<char>, Seq<char>)) -> Option<(DirKind, Seq<char>, Seq<char>, Seq<char>)> {
    match k.0 {
        DirKind::Fs => if last_slash(k.1) < 0 {
            None
        } else {
            Some((DirKind::Fs, k.1.take(last_slash(k.1)), Seq::empty(), Seq::empty()))
        },
        DirKind::Zip => if k.1.len() == 0 {
            None
        } else {
            Some((DirKind::Fs, k.1, Seq::empty(), Seq::empty()))
        },
        DirKind::ZipDir => {
            let t = trim_slashes(k.3);
            if last_slash(t) < 0 {
                Some((DirKind::Zip, k.1, k.2, Seq::empty()))
            } else {
                Some((DirKind::ZipDir, k.1, k.2, t.take(last_slash(t)) + seq!['/']))
            }
        },
    }
}

/// The number of `/` in `s`.
pub open spec fn slashes(s: Seq<char>) -> nat
    decreases s.len(),
{
    if s.len() == 0 {
        0
    } else {
        slashes(s.drop_last()) + if s.last() == '/' { 1nat } else { 0nat }
    }
}

/// The rank of a kind in the order of nodes.
pub open spec fn kind_rank(k: DirKind) -> int {
    match k {
        DirKind::Fs => 0,
        DirKind::Zip => 1,
        DirKind::ZipDir => 2,
    }
}

/// The depth by which nodes of a kind are ordered.
pub open spec fn depth(k: (DirKind, Seq<char>, Seq<char>, Seq<char>)) -> nat {
    match k.0 {
        DirKind::ZipDir => slashes(k.1) + slashes(k.3),
        _ => slashes(k.1),
    }
}

/// The text by which nodes of one kind and depth are ordered: the parts a kind uses,
/// separated by NUL.
pub open spec fn order_text(k: (DirKind, Seq<char>, Seq<char>, Seq<char>)) -> Seq<char> {
    match k.0 {
        DirKind::Fs => k.1,
        DirKind::Zip => k.1 + seq!['\0'] + k.2,
        DirKind::ZipDir => k.1 + seq!['\0'] + k.2 + seq!['\0'] + k.3,
    }
}

/// `a` comes before `b`: by kind, then depth, then text.
pub open spec fn node_lt(a: (DirKind, Seq<char>, Seq<char>, Seq<char>), b: (DirKind, Seq<char>, Seq<char>, Seq<char>)) -> bool {
    ||| kind_rank(a.0) < kind_rank(b.0)
    ||| kind_rank(a.0) == kind_rank(b.0) && depth(a) < depth(b)
    ||| kind_rank(a.0) == kind_rank(b.0) && depth(a) == depth(b) && bytes_lt(
        encode_utf8(order_text(a)),
        encode_utf8(order_text(b)),
    )
}

proof fn lemma_node_lt_irreflexive(a: (DirKind, Seq<char>, Seq<char>, Seq<char>))
    ensures
        !node_lt(a, a),
{
    crate::text::lemma_bytes_lt_asymmetric(encode_utf8(order_text(a)), encode_utf8(order_text(a)));
}

proof fn lemma_node_lt_transitive(
    a: (DirKind, Seq<char>, Seq<char>, Seq<char>),
    b: (DirKind, Seq<char>, Seq<char>, Seq<char>),
    c: (DirKind, Seq<char>, Seq<char>, Seq<char>),
)
    requires
        node_lt(a, b),
        node_lt(b, c),
    ensures
        node_lt(a, c),
{
    if kind_rank(a.0) == kind_rank(b.0) && kind_rank(b.0) == kind_rank(c.0) && depth(a) == depth(b) && depth(b)
        == depth(c) {
        lemma_bytes_lt_transitive(encode_utf8(order_text(a)), encode_utf8(order_text(b)), encode_utf8(order_text(c)));
    }
}

/// A copy of a key.
fn copy_key(k: &DirKey) -> (r: DirKey)
    ensures
        key_view(r) == key_view(*k),
{
    DirKey {
        kind: k.kind,
        rel_path: k.rel_path.clone(),
        zip_file: k.zip_file.clone(),
        zip_prefix: k.zip_prefix.clone(),
    }
}

/// Whether two keys are the same.
fn same_key(a: &DirKey, b: &DirKey) -> (r: bool)
    ensures
        r == (key_view(*a) == key_view(*b)),
{
    a.kind == b.kind && str_eq(a.rel_path.as_str(), b.rel_path.as_str()) && str_eq(
        a.zip_file.as_str(),
        b.zip_file.as_str(),
    ) && str_eq(a.zip_prefix.as_str(), b.zip_prefix.as_str())
}

/// The number of `/` in `s`.
fn count_slashes(s: &str) -> (r: usize)
    ensures
        r == slashes(s@),
{
    let cs = chars_of(s);
    let n = cs.len();
    let mut count: usize = 0;
    let mut i: usize = 0;
    while i < n
        invariant
            cs@ == s@,
            n == s@.len(),
            i <= n,
            count == slashes(s@.take(i as int)),
            count <= i,
        decreases n - i,
    {
        proof {
            assert(s@.take(i + 1).drop_last() =~= s@.take(i as int));
        }
        if cs[i] == '/' {
            count = count + 1;
        }
        i = i + 1;
    }
    proof {
        assert(s@.take(n as int) =~= s@);
    }
    count
}

/// The depth of a key.
fn key_depth(k: &DirKey) -> (r: u128)
    ensures
        r == depth(key_view(*k)),
{
    match k.kind {
        DirKind::ZipDir => count_slashes(k.rel_path.as_str()) as u128 + count_slashes(k.zip_prefix.as_str()) as u128,
        _ => count_slashes(k.rel_path.as_str()) as u128,
    }
}

/// The order text of a key.
fn key_text(k: &DirKey) -> (r: String)
    ensures
        r@ == order_text(key_view(*k)),
{
    let nul = "\0";
    proof {
        reveal_strlit("\0");
    }
    let mut t = k.rel_path.clone();
    match k.kind {
        DirKind::Fs => {},
        DirKind::Zip => {
            t.append(nul);
            t.append(k.zip_file.as_str());
        },
        DirKind::ZipDir => {
            t.append(nul);
            t.append(k.zip_file.as_str());
            t.append(nul);
            t.append(k.zip_prefix.as_str());
        },
    }
    t
}

fn rank(k: DirKind) -> (r: u8)
    ensures
        r == kind_rank(k),
{
    match k {
        DirKind::Fs => 0,
        DirKind::Zip => 1,
        DirKind::ZipDir => 2,
    }
}

/// Whether `a` comes before `b`.
fn key_lt(a: &DirKey, b: &DirKey) -> (r: bool)
    ensures
        r == node_lt(key_view(*a), key_view(*b)),
{
    let ra = rank(a.kind);
    let rb = rank(b.kind);
    if ra != rb {
        return ra < rb;
    }
    let da = key_depth(a);
    let db = key_depth(b);
    if da != db {
        return da < db;
    }
    let ta = key_text(a);
    let tb = key_text(b);
    str_lt(ta.as_str(), tb.as_str())
}

/// The views of a list of keys.
pub open spec fn keys_view(ks: Seq<DirKey>) -> Seq<(DirKind, Seq<char>, Seq<char>, Seq<char>)> {
    ks.map_values(|k: DirKey| key_view(k))
}

/// No node comes after one that it precedes.
pub open spec fn nodes_sorted(ks: Seq<(DirKind, Seq<char>, Seq<char>, Seq<char>)>) -> bool {
    forall|a: int, b: int| 0 <= a < b < ks.len() ==> !node_lt(#[trigger] ks[b], #[trigger] ks[a])
}

/// Sorts keys by kind, depth and text, keeping the order of equal ones.
fn sort_keys(keys: Vec<DirKey>) -> (r: Vec<DirKey>)
    ensures
        keys_view(r@).to_multiset() == keys_view(keys@).to_multiset(),
        nodes_sorted(keys_view(r@)),
{
    let n = keys.len();
    let mut out: Vec<DirKey> = Vec::new();
    let mut i: usize = 0;
    proof {
        assert(keys_view(out@) =~= keys_view(keys@.take(0)));
    }
    while i < n
        invariant
            i <= n,
            n == keys@.len(),
            keys_view(out@).to_multiset() == keys_view(keys@.take(i as int)).to_multiset(),
            nodes_sorted(keys_view(out@)),
        decreases n - i,
    {
        let x = copy_key(&keys[i]);
        let ghost xv = key_view(x);
        let mut p: usize = 0;
        while p < out.len() && !key_lt(&x, &out[p])
            invariant
                p <= out@.len(),
                xv == key_view(x),
                forall|q: int| 0 <= q < p ==> !node_lt(xv, key_view(#[trigger] out@[q])),
            decreases out@.len() - p,
        {
            p = p + 1;
        }
        let ghost old_out = keys_view(out@);
        proof {
            if p < old_out.len() {
                assert(node_lt(xv, old_out[p as int]));
            }
        }
        out.insert(p, x);
        proof {
            let t = keys_view(out@);
            assert(t =~= old_out.insert(p as int, xv));
            old_out.insert_ensures(p as int, xv);
            assert forall|a: int, b: int| 0 <= a < b < t.len() implies !node_lt(#[trigger] t[b], #[trigger] t[a]) by {
                if b < p {
                    assert(t[a] == old_out[a] && t[b] == old_out[b]);
                } else if b == p {
                    assert(t[a] == old_out[a]);
                    assert(t[b] == xv);
                } else if a < p {
                    assert(t[a] == old_out[a]);
                    assert(t[b] == old_out[b - 1]);
                } else if a == p {
                    assert(t[b] == old_out[b - 1]);
                    assert(node_lt(xv, old_out[p as int]));
                    if node_lt(old_out[b - 1], xv) {
                        lemma_node_lt_transitive(old_out[b - 1], xv, old_out[p as int]);
                        if p < b - 1 {
                            assert(!node_lt(old_out[b - 1], old_out[p as int]));
                        } else {
                            lemma_node_lt_irreflexive(old_out[p as int]);
                        }
                    }
                } else {
                    assert(t[a] == old_out[a - 1]);
                    assert(t[b] == old_out[b - 1]);
                }
            }
            let kv = keys_view(keys@);
            assert(keys_view(keys@.take(i + 1)) =~= keys_view(keys@.take(i as int)).push(kv[i as int]));
            assert(kv[i as int] == xv);
            broadcast use vstd::seq_lib::group_to_multiset_ensures;
            assert(t.remove(p as int) =~= old_out);
            assert(t[p as int] == xv);
            assert(t.remove(p as int).to_multiset() =~= t.to_multiset().remove(xv));
            assert(t.contains(xv));
            assert(t.to_multiset().count(xv) > 0);
            assert(t.to_multiset() =~= old_out.to_multiset().insert(xv));
            assert(keys_view(keys@.take(i as int)).push(xv).to_multiset() =~= keys_view(keys@.take(i as int)).to_multiset().insert(xv));
        }
        i = i + 1;
    }
    proof {
        assert(keys@.take(n as int) =~= keys@);
    }
    out
}

/// `p` is the directory path `rp` cut at one of its `/`, or `rp` itself: a directory
/// on the way to `rp`.
pub open spec fn fs_dir_of(rp: Seq<char>, p: Seq<char>) -> bool {
    p == rp || exists|j: int| 0 <= j < rp.len() && rp[j] == '/' && p == rp.take(j)
}

/// `p` is the entry path `e` up to and including one of its `/`: a directory of the
/// archive on the way to `e`.
pub open spec fn zip_dir_of(e: Seq<char>, p: Seq<char>) -> bool {
    exists|j: int| 0 <= j < e.len() && e[j] == '/' && p == e.take(j + 1)
}

/// A directory on disk on the way to the non-empty directory `rp`.
pub open spec fn fs_row_node(rp: Seq<char>, k: (DirKind, Seq<char>, Seq<char>, Seq<char>)) -> bool {
    &&& rp.len() > 0
    &&& k.0 == DirKind::Fs
    &&& k.2.len() == 0
    &&& k.3.len() == 0
    &&& fs_dir_of(rp, k.1)
}

/// The nodes an archive row brings: the directories on the way to it, and the archive.
pub open spec fn zip_row_node(rp: Seq<char>, zf: Seq<char>, k: (DirKind, Seq<char>, Seq<char>, Seq<char>)) -> bool {
    fs_row_node(rp, k) || k == (DirKind::Zip, rp, zf, Seq::<char>::empty())
}

/// The directories of an archive on the way to its entry `e`.
pub open spec fn entry_row_node(rp: Seq<char>, zf: Seq<char>, e: Seq<char>, k: (DirKind, Seq<char>, Seq<char>, Seq<char>)) -> bool {
    &&& k.0 == DirKind::ZipDir
    &&& k.1 == rp
    &&& k.2 == zf
    &&& zip_dir_of(e, k.3)
}

/// The nodes of the tree: those brought by the rows of files on disk (directory, asset
/// count), of archives (directory, archive, asset count) and of archive entries
/// (directory, archive, entry).
pub open spec fn is_node(
    fs: Seq<(String, i64)>,
    zs: Seq<(String, String, i64)>,
    es: Seq<(String, String, String)>,
    k: (DirKind, Seq<char>, Seq<char>, Seq<char>),
) -> bool {
    ||| exists|i: int| 0 <= i < fs.len() && #[trigger] fs_row_node(fs[i].0@, k)
    ||| exists|i: int| 0 <= i < zs.len() && #[trigger] zip_row_node(zs[i].0@, zs[i].1@, k)
    ||| exists|i: int| 0 <= i < es.len() && #[trigger] entry_row_node(es[i].0@, es[i].1@, es[i].2@, k)
}

/// Adds `k` to `keys` unless it is there.
fn add_key(keys: &mut Vec<DirKey>, k: DirKey)
    requires
        keys_view(old(keys)@).no_duplicates(),
    ensures
        keys_view(final(keys)@).no_duplicates(),
        forall|x: (DirKind, Seq<char>, Seq<char>, Seq<char>)| #[trigger] keys_view(final(keys)@).contains(x) <==> (
        keys_view(old(keys)@).contains(x) || x == key_view(k)),
{
    let ghost kv = keys_view(keys@);
    let mut i: usize = 0;
    while i < keys.len()
        invariant
            i <= keys@.len(),
            kv == keys_view(keys@),
            kv.no_duplicates(),
            forall|t: int| 0 <= t < i ==> key_view(#[trigger] keys@[t]) != key_view(k),
        decreases keys@.len() - i,
    {
        if same_key(&keys[i], &k) {
            proof {
                assert(kv[i as int] == key_view(k));
            }
            return;
        }
        i = i + 1;
    }
    let ghost x = key_view(k);
    keys.push(k);
    proof {
        assert(keys_view(keys@) =~= kv.push(x));
        assert(!kv.contains(x)) by {
            if kv.contains(x) {
                let t = choose|t: int| 0 <= t < kv.len() && kv[t] == x;
                assert(key_view(keys@[t]) == x);
            }
        }
        assert forall|y: (DirKind, Seq<char>, Seq<char>, Seq<char>)| #[trigger] kv.push(x).contains(y) <==> (kv.contains(y) || y == x) by {
            if kv.push(x).contains(y) && y != x {
                let t = choose|t: int| 0 <= t < kv.push(x).len() && kv.push(x)[t] == y;
                assert(kv[t] == y);
            }
            if kv.contains(y) {
                let t = choose|t: int| 0 <= t < kv.len() && kv[t] == y;
                assert(kv.push(x)[t] == y);
            }
            if y == x {
                assert(kv.push(x)[kv.len() as int] == y);
            }
        }
    }
}

/// Adds the directories on disk on the way to `rp`, when `rp` is not empty.
fn add_fs_dirs(keys: &mut Vec<DirKey>, rp: &str)
    requires
        keys_view(old(keys)@).no_duplicates(),
    ensures
        keys_view(final(keys)@).no_duplicates(),
        forall|x: (DirKind, Seq<char>, Seq<char>, Seq<char>)| #[trigger] keys_view(final(keys)@).contains(x) <==> (
        keys_view(old(keys)@).contains(x) || fs_row_node(rp@, x)),
{
    let ghost start = keys_view(keys@);
    let cs = chars_of(rp);
    let n = cs.len();
    if n == 0 {
        return;
    }
    let mut j: usize = 0;
    while j < n
        invariant
            cs@ == rp@,
            n == rp@.len(),
            n > 0,
            j <= n,
            keys_view(keys@).no_duplicates(),
            forall|x: (DirKind, Seq<char>, Seq<char>, Seq<char>)| #[trigger] keys_view(keys@).contains(x) <==> (
            start.contains(x) || (x.0 == DirKind::Fs && x.2.len() == 0 && x.3.len() == 0 && exists|j2: int|
                0 <= j2 < j && rp@[j2] == '/' && x.1 == rp@.take(j2))),
        decreases n - j,
    {
        if cs[j] == '/' {
            let ghost before = keys_view(keys@);
            let k = DirKey {
                kind: DirKind::Fs,
                rel_path: String::from_str(rp.substring_char(0, j)),
                zip_file: String::new(),
                zip_prefix: String::new(),
            };
            add_key(keys, k);
            proof {
                assert forall|x: (DirKind, Seq<char>, Seq<char>, Seq<char>)| #[trigger] keys_view(keys@).contains(x) <==> (
                start.contains(x) || (x.0 == DirKind::Fs && x.2.len() == 0 && x.3.len() == 0 && exists|j2: int|
                    0 <= j2 < j + 1 && rp@[j2] == '/' && x.1 == rp@.take(j2))) by {
                    if x.0 == DirKind::Fs && x.2.len() == 0 && x.3.len() == 0 && x.1 == rp@.take(j as int) {
                        assert(x =~= (DirKind::Fs, rp@.take(j as int), Seq::<char>::empty(), Seq::<char>::empty()));
                    }
                }
            }
        }
        j = j + 1;
    }
    let k = DirKey { kind: DirKind::Fs, rel_path: String::from_str(rp), zip_file: String::new(), zip_prefix: String::new() };
    add_key(keys, k);
    proof {
        assert forall|x: (DirKind, Seq<char>, Seq<char>, Seq<char>)| #[trigger] keys_view(keys@).contains(x) <==> (
        start.contains(x) || fs_row_node(rp@, x)) by {
            if x.0 == DirKind::Fs && x.2.len() == 0 && x.3.len() == 0 && x.1 == rp@ {
                assert(x =~= (DirKind::Fs, rp@, Seq::<char>::empty(), Seq::<char>::empty()));
            }
        }
    }
}

/// Adds the directories of the archive `zf` (in `rp`) on the way to its entry `e`.
fn add_zip_dirs(keys: &mut Vec<DirKey>, rp: &str, zf: &str, e: &str)
    requires
        keys_view(old(keys)@).no_duplicates(),
    ensures
        keys_view(final(keys)@).no_duplicates(),
        forall|x: (DirKind, Seq<char>, Seq<char>, Seq<char>)| #[trigger] keys_view(final(keys)@).contains(x) <==> (
        keys_view(old(keys)@).contains(x) || entry_row_node(rp@, zf@, e@, x)),
{
    let ghost start = keys_view(keys@);
    let cs = chars_of(e);
    let n = cs.len();
    let mut j: usize = 0;
    while j < n
        invariant
            cs@ == e@,
            n == e@.len(),
            j <= n,
            keys_view(keys@).no_duplicates(),
            forall|x: (DirKind, Seq<char>, Seq<char>, Seq<char>)| #[trigger] keys_view(keys@).contains(x) <==> (
            start.contains(x) || (x.0 == DirKind::ZipDir && x.1 == rp@ && x.2 == zf@ && exists|j2: int|
                0 <= j2 < j && e@[j2] == '/' && x.3 == e@.take(j2 + 1))),
        decreases n - j,
    {
        if cs[j] == '/' {
            let k = DirKey {
                kind: DirKind::ZipDir,
                rel_path: String::from_str(rp),
                zip_file: String::from_str(zf),
                zip_prefix: String::from_str(e.substring_char(0, j + 1)),
            };
            add_key(keys, k);
            proof {
                assert forall|x: (DirKind, Seq<char>, Seq<char>, Seq<char>)| #[trigger] keys_view(keys@).contains(x) <==> (
                start.contains(x) || (x.0 == DirKind::ZipDir && x.1 == rp@ && x.2 == zf@ && exists|j2: int|
                    0 <= j2 < j + 1 && e@[j2] == '/' && x.3 == e@.take(j2 + 1))) by {
                    if x.0 == DirKind::ZipDir && x.1 == rp@ && x.2 == zf@ && x.3 == e@.take(j + 1) {
                        assert(x =~= (DirKind::ZipDir, rp@, zf@, e@.take(j + 1)));
                    }
                }
            }
        }
        j = j + 1;
    }
}

/// The nodes of the tree, each once.
fn collect_keys(
    fs: &Vec<(String, i64)>,
    zs: &Vec<(String, String, i64)>,
    es: &Vec<(String, String, String)>,
) -> (r: Vec<DirKey>)
    ensures
        keys_view(r@).no_duplicates(),
        forall|x: (DirKind, Seq<char>, Seq<char>, Seq<char>)| #[trigger] keys_view(r@).contains(x) <==> is_node(
            fs@,
            zs@,
            es@,
            x,
        ),
{
    let mut keys: Vec<DirKey> = Vec::new();
    proof {
        assert(keys_view(keys@) =~= Seq::<(DirKind, Seq<char>, Seq<char>, Seq<char>)>::empty());
    }
    let mut i: usize = 0;
    while i < fs.len()
        invariant
            i <= fs@.len(),
            keys_view(keys@).no_duplicates(),
            forall|x: (DirKind, Seq<char>, Seq<char>, Seq<char>)| #[trigger] keys_view(keys@).contains(x) <==> is_node(
                fs@.take(i as int),
                Seq::empty(),
                Seq::empty(),
                x,
            ),
        decreases fs@.len() - i,
    {
        add_fs_dirs(&mut keys, fs[i].0.as_str());
        proof {
            assert forall|x: (DirKind, Seq<char>, Seq<char>, Seq<char>)| #[trigger] keys_view(keys@).contains(x) <==> is_node(
                fs@.take(i + 1),
                Seq::empty(),
                Seq::empty(),
                x,
            ) by {
                let f0 = fs@.take(i as int);
                let f1 = fs@.take(i + 1);
                if is_node(f1, Seq::empty(), Seq::empty(), x) {
                    let t = choose|t: int| 0 <= t < f1.len() && #[trigger] fs_row_node(f1[t].0@, x);
                    if t < i {
                        assert(f0[t] == f1[t]);
                    }
                }
                if is_node(f0, Seq::empty(), Seq::empty(), x) {
                    let t = choose|t: int| 0 <= t < f0.len() && #[trigger] fs_row_node(f0[t].0@, x);
                    assert(f1[t] == f0[t]);
                }
                if fs_row_node(fs@[i as int].0@, x) {
                    assert(f1[i as int] == fs@[i as int]);
                }
            }
        }
        i = i + 1;
    }
    proof {
        assert(fs@.take(fs@.len() as int) =~= fs@);
    }
    let mut i: usize = 0;
    while i < zs.len()
        invariant
            i <= zs@.len(),
            keys_view(keys@).no_duplicates(),
            forall|x: (DirKind, Seq<char>, Seq<char>, Seq<char>)| #[trigger] keys_view(keys@).contains(x) <==> is_node(
                fs@,
                zs@.take(i as int),
                Seq::empty(),
                x,
            ),
        decreases zs@.len() - i,
    {
        let ghost before = keys_view(keys@);
        add_fs_dirs(&mut keys, zs[i].0.as_str());
        let k = DirKey {
            kind: DirKind::Zip,
            rel_path: zs[i].0.clone(),
            zip_file: zs[i].1.clone(),
            zip_prefix: String::new(),
        };
        add_key(&mut keys, k);
        proof {
            let row = zs@[i as int];
            assert forall|x: (DirKind, Seq<char>, Seq<char>, Seq<char>)| #[trigger] keys_view(keys@).contains(x) <==> (
            before.contains(x) || zip_row_node(row.0@, row.1@, x)) by {
                if x == (DirKind::Zip, row.0@, row.1@, Seq::<char>::empty()) {
                    assert(x =~= (DirKind::Zip, row.0@, row.1@, Seq::<char>::empty()));
                }
            }
            assert forall|x: (DirKind, Seq<char>, Seq<char>, Seq<char>)| #[trigger] keys_view(keys@).contains(x) <==> is_node(
                fs@,
                zs@.take(i + 1),
                Seq::empty(),
                x,
            ) by {
                let z0 = zs@.take(i as int);
                let z1 = zs@.take(i + 1);
                if exists|t: int| 0 <= t < z1.len() && #[trigger] zip_row_node(z1[t].0@, z1[t].1@, x) {
                    let t = choose|t: int| 0 <= t < z1.len() && #[trigger] zip_row_node(z1[t].0@, z1[t].1@, x);
                    if t < i {
                        assert(z0[t] == z1[t]);
                    }
                }
                if exists|t: int| 0 <= t < z0.len() && #[trigger] zip_row_node(z0[t].0@, z0[t].1@, x) {
                    let t = choose|t: int| 0 <= t < z0.len() && #[trigger] zip_row_node(z0[t].0@, z0[t].1@, x);
                    assert(z1[t] == z0[t]);
                }
                if zip_row_node(row.0@, row.1@, x) {
                    assert(z1[i as int] == row);
                }
            }
        }
        i = i + 1;
    }
    proof {
        assert(zs@.take(zs@.len() as int) =~= zs@);
    }
    let mut i: usize = 0;
    while i < es.len()
        invariant
            i <= es@.len(),
            keys_view(keys@).no_duplicates(),
            forall|x: (DirKind, Seq<char>, Seq<char>, Seq<char>)| #[trigger] keys_view(keys@).contains(x) <==> is_node(
                fs@,
                zs@,
                es@.take(i as int),
                x,
            ),
        decreases es@.len() - i,
    {
        add_zip_dirs(&mut keys, es[i].0.as_str(), es[i].1.as_str(), es[i].2.as_str());
        proof {
            let row = es@[i as int];
            assert forall|x: (DirKind, Seq<char>, Seq<char>, Seq<char>)| #[trigger] keys_view(keys@).contains(x) <==> is_node(
                fs@,
                zs@,
                es@.take(i + 1),
                x,
            ) by {
                let e0 = es@.take(i as int);
                let e1 = es@.take(i + 1);
                if exists|t: int| 0 <= t < e1.len() && #[trigger] entry_row_node(e1[t].0@, e1[t].1@, e1[t].2@, x) {
                    let t = choose|t: int| 0 <= t < e1.len() && #[trigger] entry_row_node(e1[t].0@, e1[t].1@, e1[t].2@, x);
                    if t < i {
                        assert(e0[t] == e1[t]);
                    }
                }
                if exists|t: int| 0 <= t < e0.len() && #[trigger] entry_row_node(e0[t].0@, e0[t].1@, e0[t].2@, x) {
                    let t = choose|t: int| 0 <= t < e0.len() && #[trigger] entry_row_node(e0[t].0@, e0[t].1@, e0[t].2@, x);
                    assert(e1[t] == e0[t]);
                }
                if entry_row_node(row.0@, row.1@, row.2@, x) {
                    assert(e1[i as int] == row);
                }
            }
        }
        i = i + 1;
    }
    proof {
        assert(es@.take(es@.len() as int) =~= es@);
    }
    keys
}

/// Slashes of prefixes.
proof fn lemma_slashes_prefix(s: Seq<char>, j: int)
    requires
        0 <= j < s.len(),
    ensures
        slashes(s.take(j + 1)) == slashes(s.take(j)) + if s[j] == '/' { 1nat } else { 0nat },
        slashes(s.take(j + 1)) <= slashes(s),
    decreases s.len() - j,
{
    assert(s.take(j + 1).drop_last() =~= s.take(j));
    if j + 1 < s.len() {
        lemma_slashes_prefix(s, j + 1);
    } else {
        assert(s.take(j + 1) =~= s);
    }
}

/// Trimming trailing slashes keeps a prefix, followed by a `/` when anything was cut.
proof fn lemma_trim_slashes(s: Seq<char>)
    ensures
        trim_slashes(s).len() <= s.len(),
        trim_slashes(s) == s.take(trim_slashes(s).len() as int),
        trim_slashes(s).len() < s.len() ==> s[trim_slashes(s).len() as int] == '/',
    decreases s.len(),
{
    if s.len() > 0 && s.last() == '/' {
        lemma_trim_slashes(s.drop_last());
        let t = trim_slashes(s.drop_last());
        assert(s.take(t.len() as int) =~= s.drop_last().take(t.len() as int));
        if t.len() < s.len() - 1 {
            assert(s[t.len() as int] == s.drop_last()[t.len() as int]);
        }
    } else {
        assert(s.take(s.len() as int) =~= s);
    }
}

/// A parent comes before its child.
proof fn lemma_parent_before(k: (DirKind, Seq<char>, Seq<char>, Seq<char>))
    requires
        k.0 == DirKind::ZipDir ==> k.3.len() > 0 && k.3.last() == '/',
        parent_key(k) is Some,
    ensures
        node_lt(parent_key(k)->0, k),
{
    match k.0 {
        DirKind::Fs => {
            let l = last_slash(k.1);
            lemma_last_slash(k.1);
            lemma_slashes_prefix(k.1, l);
        },
        DirKind::Zip => {},
        DirKind::ZipDir => {
            let t = trim_slashes(k.3);
            lemma_trim_slashes(k.3);
            lemma_trim_slashes(k.3.drop_last());
            assert(t == trim_slashes(k.3.drop_last()));
            assert(t.len() < k.3.len());
            lemma_slashes_prefix(k.3, t.len() as int);
            if last_slash(t) >= 0 {
                let l = last_slash(t);
                lemma_last_slash(t);
                lemma_slashes_prefix(t, l);
                let q = t.take(l) + seq!['/'];
                assert(q.drop_last() =~= t.take(l));
                assert(slashes(q) == slashes(t.take(l)) + 1);
                assert(slashes(t) <= slashes(t.take(l + 1)) + 0 || slashes(t.take(l + 1)) <= slashes(t));
            }
        },
    }
}

/// `s` without its trailing `/`s.
fn trim_end_slashes(s: &str) -> (r: &str)
    ensures
        r@ == trim_slashes(s@),
{
    let cs = chars_of(s);
    let mut end: usize = cs.len();
    proof {
        assert(s@.take(end as int) =~= s@);
    }
    while end > 0 && cs[end - 1] == '/'
        invariant
            cs@ == s@,
            end <= s@.len(),
            trim_slashes(s@) == trim_slashes(s@.take(end as int)),
        decreases end,
    {
        proof {
            assert(s@.take(end as int).drop_last() =~= s@.take(end - 1));
        }
        end = end - 1;
    }
    s.substring_char(0, end)
}

/// The parent of a key.
fn parent_of(k: &DirKey) -> (r: Option<DirKey>)
    ensures
        match r {
            Some(p) => parent_key(key_view(*k)) == Some(key_view(p)),
            None => parent_key(key_view(*k)) is None,
        },
{
    match k.kind {
        DirKind::Fs => match find_last_slash(k.rel_path.as_str()) {
            Some(i) => Some(
                DirKey {
                    kind: DirKind::Fs,
                    rel_path: String::from_str(k.rel_path.as_str().substring_char(0, i)),
                    zip_file: String::new(),
                    zip_prefix: String::new(),
                },
            ),
            None => None,
        },
        DirKind::Zip => {
            if k.rel_path.as_str().unicode_len() == 0 {
                None
            } else {
                Some(
                    DirKey {
                        kind: DirKind::Fs,
                        rel_path: k.rel_path.clone(),
                        zip_file: String::new(),
                        zip_prefix: String::new(),
                    },
                )
            }
        },
        DirKind::ZipDir => {
            let t = trim_end_slashes(k.zip_prefix.as_str());
            match find_last_slash(t) {
                Some(i) => {
                    let slash = "/";
                    proof {
                        reveal_strlit("/");
                    }
                    let mut pre = String::from_str(t.substring_char(0, i));
                    pre.append(slash);
                    Some(DirKey { kind: DirKind::ZipDir, rel_path: k.rel_path.clone(), zip_file: k.zip_file.clone(), zip_prefix: pre })
                },
                None => Some(
                    DirKey {
                        kind: DirKind::Zip,
                        rel_path: k.rel_path.clone(),
                        zip_file: k.zip_file.clone(),
                        zip_prefix: String::new(),
                    },
                ),
            }
        },
    }
}

/// The position of `k` in `keys`.
fn find_key(keys: &Vec<DirKey>, k: &DirKey) -> (r: Option<usize>)
    ensures
        match r {
            Some(i) => i < keys@.len() && key_view(keys@[i as int]) == key_view(*k),
            None => !keys_view(keys@).contains(key_view(*k)),
        },
{
    let mut i: usize = 0;
    while i < keys.len()
        invariant
            i <= keys@.len(),
            forall|t: int| 0 <= t < i ==> key_view(#[trigger] keys@[t]) != key_view(*k),
        decreases keys@.len() - i,
    {
        if same_key(&keys[i], k) {
            return Some(i);
        }
        i = i + 1;
    }
    proof {
        if keys_view(keys@).contains(key_view(*k)) {
            let t = choose|t: int| 0 <= t < keys_view(keys@).len() && keys_view(keys@)[t] == key_view(*k);
            assert(key_view(keys@[t]) == key_view(*k));
        }
    }
    None
}

/// The assets on disk directly in node `k`, from the file rows.
pub open spec fn fs_count(fs: Seq<(String, i64)>, k: (DirKind, Seq<char>, Seq<char>, Seq<char>)) -> int
    decreases fs.len(),
{
    if fs.len() == 0 {
        0
    } else {
        let row = fs.last();
        fs_count(fs.drop_last(), k) + if row.0@.len() > 0 && k == (DirKind::Fs, row.0@, Seq::<char>::empty(), Seq::<
            char,
        >::empty()) {
            row.1 as int
        } else {
            0
        }
    }
}

/// The node an entry is counted in: the archive directory it lies directly in, or the
/// archive itself for an entry at the archive's root.
pub open spec fn entry_owner(rp: Seq<char>, zf: Seq<char>, e: Seq<char>) -> (DirKind, Seq<char>, Seq<char>, Seq<char>) {
    if last_slash(e) < 0 {
        (DirKind::Zip, rp, zf, Seq::<char>::empty())
    } else {
        (DirKind::ZipDir, rp, zf, e.take(last_slash(e) + 1))
    }
}

/// The entries directly in archive or archive directory `k`, from the entry rows.
pub open spec fn entry_count(es: Seq<(String, String, String)>, k: (DirKind, Seq<char>, Seq<char>, Seq<char>)) -> int
    decreases es.len(),
{
    if es.len() == 0 {
        0
    } else {
        let row = es.last();
        entry_count(es.drop_last(), k) + if entry_owner(row.0@, row.1@, row.2@) == k {
            1int
        } else {
            0
        }
    }
}

/// The assets directly in node `k`: for a directory on disk, the files in it; for an
/// archive, its entries at the archive's root; for a directory inside an archive, the
/// entries directly in it. An archive's own asset count is not added again: its assets
/// are counted where they lie.
pub open spec fn assets_in(
    fs: Seq<(String, i64)>,
    zs: Seq<(String, String, i64)>,
    es: Seq<(String, String, String)>,
    k: (DirKind, Seq<char>, Seq<char>, Seq<char>),
) -> int {
    fs_count(fs, k) + entry_count(es, k)
}

/// The sum of the file row counts.
pub open spec fn fs_total(fs: Seq<(String, i64)>) -> int
    decreases fs.len(),
{
    if fs.len() == 0 {
        0
    } else {
        fs_total(fs.drop_last()) + fs.last().1
    }
}

/// The sum of a list of numbers.
pub open spec fn seq_sum(s: Seq<i64>) -> int
    decreases s.len(),
{
    if s.len() == 0 {
        0
    } else {
        seq_sum(s.drop_last()) + s.last()
    }
}

proof fn lemma_seq_sum_update(s: Seq<i64>, i: int, v: i64)
    requires
        0 <= i < s.len(),
    ensures
        seq_sum(s.update(i, v)) == seq_sum(s) - s[i] + v,
    decreases s.len(),
{
    if i < s.len() - 1 {
        lemma_seq_sum_update(s.drop_last(), i, v);
        assert(s.update(i, v).drop_last() =~= s.drop_last().update(i, v));
    } else {
        assert(s.update(i, v).drop_last() =~= s.drop_last());
    }
}

proof fn lemma_seq_sum_nonneg_bounds(s: Seq<i64>, a: int, b: int)
    requires
        forall|x: int| 0 <= x < s.len() ==> s[x] >= 0,
        0 <= a < s.len(),
        0 <= b < s.len(),
        a != b,
    ensures
        s[a] + s[b] <= seq_sum(s),
        s[a] <= seq_sum(s),
        seq_sum(s) >= 0,
    decreases s.len(),
{
    let init = s.drop_last();
    assert forall|x: int| 0 <= x < init.len() implies init[x] >= 0 by {
        assert(init[x] == s[x]);
    }
    lemma_seq_sum_nonneg(init);
    if a < s.len() - 1 && b < s.len() - 1 {
        lemma_seq_sum_nonneg_bounds(init, a, b);
    } else if a < s.len() - 1 {
        lemma_seq_sum_single(init, a);
    } else if b < s.len() - 1 {
        lemma_seq_sum_single(init, b);
    }
}

proof fn lemma_seq_sum_single(s: Seq<i64>, a: int)
    requires
        forall|x: int| 0 <= x < s.len() ==> s[x] >= 0,
        0 <= a < s.len(),
    ensures
        s[a] <= seq_sum(s),
    decreases s.len(),
{
    let init = s.drop_last();
    assert forall|x: int| 0 <= x < init.len() implies init[x] >= 0 by {
        assert(init[x] == s[x]);
    }
    lemma_seq_sum_nonneg(init);
    if a < s.len() - 1 {
        lemma_seq_sum_single(init, a);
    }
}

proof fn lemma_seq_sum_nonneg(s: Seq<i64>)
    requires
        forall|x: int| 0 <= x < s.len() ==> s[x] >= 0,
    ensures
        seq_sum(s) >= 0,
    decreases s.len(),
{
    if s.len() > 0 {
        let init = s.drop_last();
        assert forall|x: int| 0 <= x < init.len() implies init[x] >= 0 by {
            assert(init[x] == s[x]);
        }
        lemma_seq_sum_nonneg(init);
    }
}

proof fn lemma_fs_total_prefix(fs: Seq<(String, i64)>, i: int)
    requires
        0 <= i <= fs.len(),
        forall|x: int| 0 <= x < fs.len() ==> #[trigger] fs[x].1 >= 0,
    ensures
        fs_total(fs.take(i)) <= fs_total(fs),
    decreases fs.len() - i,
{
    if i < fs.len() {
        lemma_fs_total_prefix(fs, i + 1);
        assert(fs.take(i + 1).drop_last() =~= fs.take(i));
    } else {
        assert(fs.take(i) =~= fs);
    }
}

/// Adds `c` to the count at `idx`.
fn add_at(counts: &mut Vec<i64>, idx: usize, c: i64)
    requires
        idx < old(counts)@.len(),
        c >= 0,
        forall|t: int| 0 <= t < old(counts)@.len() ==> #[trigger] old(counts)@[t] >= 0,
        seq_sum(old(counts)@) + c <= i64::MAX,
    ensures
        final(counts)@ == old(counts)@.update(idx as int, (old(counts)@[idx as int] + c) as i64),
        final(counts)@[idx as int] == old(counts)@[idx as int] + c,
        seq_sum(final(counts)@) == seq_sum(old(counts)@) + c,
        forall|t: int| 0 <= t < final(counts)@.len() ==> #[trigger] final(counts)@[t] >= 0,
{
    proof {
        lemma_seq_sum_single(counts@, idx as int);
    }
    let v = counts[idx] + c;
    proof {
        lemma_seq_sum_update(counts@, idx as int, v);
    }
    counts.set(idx, v);
}

/// The assets directly in each node of `keys`.
fn asset_counts(
    keys: &Vec<DirKey>,
    fs: &Vec<(String, i64)>,
    zs: &Vec<(String, String, i64)>,
    es: &Vec<(String, String, String)>,
) -> (r: Vec<i64>)
    requires
        keys_view(keys@).no_duplicates(),
        forall|x: (DirKind, Seq<char>, Seq<char>, Seq<char>)| #[trigger] keys_view(keys@).contains(x) <==> is_node(
            fs@,
            zs@,
            es@,
            x,
        ),
        forall|i: int| 0 <= i < fs@.len() ==> #[trigger] fs@[i].1 >= 0,
        fs_total(fs@) + es@.len() <= i64::MAX,
    ensures
        r@.len() == keys@.len(),
        forall|t: int| 0 <= t < r@.len() ==> #[trigger] r@[t] == assets_in(fs@, zs@, es@, key_view(keys@[t])),
        forall|t: int| 0 <= t < r@.len() ==> #[trigger] r@[t] >= 0,
        seq_sum(r@) <= fs_total(fs@) + es@.len(),
{
    let ghost kv = keys_view(keys@);
    let n = keys.len();
    let mut counts: Vec<i64> = Vec::new();
    let mut t: usize = 0;
    while t < n
        invariant
            t <= n,
            counts@.len() == t,
            forall|x: int| 0 <= x < t ==> #[trigger] counts@[x] == 0,
            seq_sum(counts@) == 0,
        decreases n - t,
    {
        let ghost before = counts@;
        counts.push(0);
        proof {
            assert(counts@.drop_last() =~= before);
        }
        t = t + 1;
    }
    proof {
        lemma_fs_total_prefix(fs@, 0);
        assert(fs@.take(0).len() == 0);
        assert forall|x: int| 0 <= x < n implies #[trigger] counts@[x] == fs_count(fs@.take(0), kv[x]) by {}
    }
    let mut i: usize = 0;
    while i < fs.len()
        invariant
            i <= fs@.len(),
            n == keys@.len(),
            kv == keys_view(keys@),
            kv.no_duplicates(),
            forall|x: (DirKind, Seq<char>, Seq<char>, Seq<char>)| #[trigger] kv.contains(x) <==> is_node(fs@, zs@, es@, x),
            forall|i2: int| 0 <= i2 < fs@.len() ==> #[trigger] fs@[i2].1 >= 0,
            fs_total(fs@) + es@.len() <= i64::MAX,
            counts@.len() == n,
            forall|x: int| 0 <= x < n ==> #[trigger] counts@[x] == fs_count(fs@.take(i as int), kv[x]),
            forall|x: int| 0 <= x < n ==> #[trigger] counts@[x] >= 0,
            seq_sum(counts@) <= fs_total(fs@.take(i as int)),
        decreases fs@.len() - i,
    {
        let row = &fs[i];
        let ghost f1 = fs@.take(i + 1);
        proof {
            assert(f1.drop_last() =~= fs@.take(i as int));
            assert(f1.last() == fs@[i as int]);
            lemma_fs_total_prefix(fs@, i + 1);
        }
        if row.0.as_str().unicode_len() > 0 {
            let k = DirKey { kind: DirKind::Fs, rel_path: row.0.clone(), zip_file: String::new(), zip_prefix: String::new() };
            proof {
                assert(fs_row_node(row.0@, key_view(k)));
                assert(is_node(fs@, zs@, es@, key_view(k)));
            }
            match find_key(keys, &k) {
                Some(idx) => {
                    let ghost before = counts@;
                    add_at(&mut counts, idx, row.1);
                    proof {
                        let kf = (DirKind::Fs, row.0@, Seq::<char>::empty(), Seq::<char>::empty());
                        assert(key_view(k) =~= kf);
                        assert(kv[idx as int] == kf);
                        assert forall|x: int| 0 <= x < n implies #[trigger] counts@[x] == fs_count(f1, kv[x]) by {
                            assert(fs_count(f1, kv[x]) == fs_count(fs@.take(i as int), kv[x]) + if kv[x] == kf {
                                row.1 as int
                            } else {
                                0
                            });
                            if x != idx as int {
                                assert(kv[x] != kv[idx as int]);
                                assert(counts@[x] == before[x]);
                            } else {
                                assert(before[x] == fs_count(fs@.take(i as int), kv[x]));
                                assert(counts@[x] == before[x] + row.1);
                            }
                        }
                    }
                },
                None => {},
            }
        }
        i = i + 1;
    }
    proof {
        assert(fs@.take(fs@.len() as int) =~= fs@);
        assert forall|x: int| 0 <= x < n implies #[trigger] counts@[x] == fs_count(fs@, kv[x])
            + entry_count(es@.take(0), kv[x]) by {}
    }
    let mut i: usize = 0;
    while i < es.len()
        invariant
            i <= es@.len(),
            n == keys@.len(),
            kv == keys_view(keys@),
            kv.no_duplicates(),
            forall|x: (DirKind, Seq<char>, Seq<char>, Seq<char>)| #[trigger] kv.contains(x) <==> is_node(fs@, zs@, es@, x),
            fs_total(fs@) + es@.len() <= i64::MAX,
            counts@.len() == n,
            forall|x: int| 0 <= x < n ==> #[trigger] counts@[x] == fs_count(fs@, kv[x])
                + entry_count(es@.take(i as int), kv[x]),
            forall|x: int| 0 <= x < n ==> #[trigger] counts@[x] >= 0,
            seq_sum(counts@) <= fs_total(fs@) + i,
        decreases es@.len() - i,
    {
        let row = &es[i];
        let ghost e1 = es@.take(i + 1);
        proof {
            assert(e1.drop_last() =~= es@.take(i as int));
            assert(e1.last() == es@[i as int]);
        }
        let elen = row.2.as_str().unicode_len();
        let k = match find_last_slash(row.2.as_str()) {
            Some(ls) => {
                proof {
                    lemma_last_slash(row.2@);
                }
                DirKey {
                    kind: DirKind::ZipDir,
                    rel_path: row.0.clone(),
                    zip_file: row.1.clone(),
                    zip_prefix: String::from_str(row.2.as_str().substring_char(0, ls + 1)),
                }
            },
            None => DirKey {
                kind: DirKind::Zip,
                rel_path: row.0.clone(),
                zip_file: row.1.clone(),
                zip_prefix: String::new(),
            },
        };
        proof {
            assert(entry_owner(row.0@, row.1@, row.2@) == key_view(k));
        }
        match find_key(keys, &k) {
            Some(idx) => {
                let ghost before = counts@;
                add_at(&mut counts, idx, 1);
                proof {
                    let kd = key_view(k);
                    assert(kv[idx as int] == kd);
                    assert forall|x: int| 0 <= x < n implies #[trigger] counts@[x] == fs_count(fs@, kv[x])
                        + entry_count(e1, kv[x]) by {
                        assert(entry_count(e1, kv[x]) == entry_count(es@.take(i as int), kv[x]) + if kd == kv[x] {
                            1int
                        } else {
                            0
                        });
                        if x != idx as int {
                            assert(kv[x] != kv[idx as int]);
                            assert(counts@[x] == before[x]);
                        } else {
                            assert(before[x] == fs_count(fs@, kv[x]) + entry_count(es@.take(i as int), kv[x]));
                            assert(counts@[x] == before[x] + 1);
                        }
                    }
                }
            },
            None => {
                proof {
                    assert forall|x: int| 0 <= x < n implies #[trigger] counts@[x] == fs_count(fs@, kv[x])
                        + entry_count(e1, kv[x]) by {
                        assert(kv[x] != key_view(k));
                        assert(entry_count(e1, kv[x]) == entry_count(es@.take(i as int), kv[x]));
                    }
                }
            },
        }
        i = i + 1;
    }
    proof {
        assert(es@.take(es@.len() as int) =~= es@);
    }
    counts
}

/// A node of the tree, ready to be stored.
pub struct DirNode {
    pub key: DirKey,
    /// The position of the parent among the nodes, which is earlier; none for a node at
    /// the folder root.
    pub parent: Option<usize>,
    pub name: String,
    /// Assets directly in the node.
    pub asset_count: i64,
    /// Assets in the node and below it.
    pub cumulative_asset_count: i64,
    /// Nodes directly in the node.
    pub child_count: usize,
}

/// The part of `s` after its last `/`.
pub open spec fn last_part(s: Seq<char>) -> Seq<char> {
    if last_slash(s) < 0 {
        s
    } else {
        s.skip(last_slash(s) + 1)
    }
}

/// The name a node is shown under: its last directory name, or the archive's name.
pub open spec fn node_name(k: (DirKind, Seq<char>, Seq<char>, Seq<char>)) -> Seq<char> {
    match k.0 {
        DirKind::Fs => last_part(k.1),
        DirKind::Zip => k.2,
        DirKind::ZipDir => last_part(trim_slashes(k.3)),
    }
}

/// How many of the first `n` nodes have the node `i` as parent.
pub open spec fn child_number(par: Seq<Option<usize>>, i: int, n: int) -> nat
    decreases n,
{
    if n <= 0 {
        0
    } else {
        child_number(par, i, n - 1) + if par[n - 1] == Some(i as usize) { 1nat } else { 0nat }
    }
}

/// The sum of `c` over the nodes from `from` on that have the node `i` as parent.
pub open spec fn child_total(par: Seq<Option<usize>>, c: Seq<i64>, i: int, from: int) -> int
    decreases par.len() - from,
{
    if from < 0 || from >= par.len() {
        0
    } else {
        (if par[from] == Some(i as usize) { c[from] as int } else { 0 }) + child_total(par, c, i, from + 1)
    }
}

proof fn lemma_child_total_frame(par: Seq<Option<usize>>, c: Seq<i64>, d: Seq<i64>, i: int, from: int)
    requires
        0 <= from,
        c.len() == d.len(),
        par.len() == c.len(),
        forall|x: int| from <= x < c.len() ==> c[x] == d[x],
    ensures
        child_total(par, c, i, from) == child_total(par, d, i, from),
    decreases par.len() - from,
{
    if from < par.len() {
        lemma_child_total_frame(par, c, d, i, from + 1);
        assert(c[from] == d[from]);
    }
}

/// The name of a node.
fn name_of(k: &DirKey) -> (r: String)
    ensures
        r@ == node_name(key_view(*k)),
{
    match k.kind {
        DirKind::Fs => last_part_of(k.rel_path.as_str()),
        DirKind::Zip => k.zip_file.clone(),
        DirKind::ZipDir => last_part_of(trim_end_slashes(k.zip_prefix.as_str())),
    }
}

fn last_part_of(s: &str) -> (r: String)
    ensures
        r@ == last_part(s@),
{
    let n = s.unicode_len();
    match find_last_slash(s) {
        Some(i) => String::from_str(s.substring_char(i + 1, n)),
        None => String::from_str(s),
    }
}

/// The tree of a folder from its asset rows: `fs` holds a row per directory on disk
/// with files (path, count), `zs` a row per archive (directory, archive, count), and
/// `es` a row per archive entry (directory, archive, entry path). An archive's assets
/// are counted from its entries, each where it lies: at the archive's root in the
/// archive node, else in its directory inside the archive. Every node is there
/// once, by kind, then depth, then text, so that parents come first; each has its
/// parent, name, direct assets, children, and assets in its whole subtree.
pub fn directory_nodes(
    fs: &Vec<(String, i64)>,
    zs: &Vec<(String, String, i64)>,
    es: &Vec<(String, String, String)>,
) -> (r: Vec<DirNode>)
    requires
        forall|i: int| 0 <= i < fs@.len() ==> #[trigger] fs@[i].1 >= 0,
        fs_total(fs@) + es@.len() <= i64::MAX,
    ensures
        ({
            let ks = r@.map_values(|n: DirNode| key_view(n.key));
            let par = r@.map_values(|n: DirNode| n.parent);
            let cum = r@.map_values(|n: DirNode| n.cumulative_asset_count);
            &&& ks.no_duplicates()
            &&& forall|x: (DirKind, Seq<char>, Seq<char>, Seq<char>)| #[trigger] ks.contains(x) <==> is_node(fs@, zs@, es@, x)
            &&& nodes_sorted(ks)
            &&& forall|t: int| 0 <= t < r@.len() ==> match #[trigger] r@[t].parent {
                Some(p) => p < t && parent_key(ks[t]) == Some(ks[p as int]),
                None => parent_key(ks[t]) is None || !ks.contains(parent_key(ks[t])->0),
            }
            &&& forall|t: int| 0 <= t < r@.len() ==> (#[trigger] r@[t]).name@ == node_name(ks[t])
            &&& forall|t: int| 0 <= t < r@.len() ==> (#[trigger] r@[t]).asset_count == assets_in(fs@, zs@, es@, ks[t])
            &&& forall|t: int| 0 <= t < r@.len() ==> (#[trigger] r@[t]).child_count == child_number(par, t, r@.len() as int)
            &&& forall|t: int| 0 <= t < r@.len() ==> (#[trigger] r@[t]).cumulative_asset_count == r@[t].asset_count
                + child_total(par, cum, t, 0)
        }),
{
    let keys = collect_keys(fs, zs, es);
    let ghost kv0 = keys_view(keys@);
    let sorted = sort_keys(keys);
    let ghost kv = keys_view(sorted@);
    proof {
        kv0.lemma_multiset_has_no_duplicates();
        assert forall|x: (DirKind, Seq<char>, Seq<char>, Seq<char>)| kv.to_multiset().contains(x) implies kv.to_multiset().count(x) == 1 by {}
        kv.lemma_multiset_has_no_duplicates_conv();
        broadcast use vstd::seq_lib::group_to_multiset_ensures;
        assert forall|x: (DirKind, Seq<char>, Seq<char>, Seq<char>)| #[trigger] kv.contains(x) <==> is_node(fs@, zs@, es@, x) by {
            assert(kv.contains(x) <==> kv.to_multiset().count(x) > 0);
            assert(kv0.contains(x) <==> kv0.to_multiset().count(x) > 0);
        }
    }
    let n = sorted.len();
    let counts = asset_counts(&sorted, fs, zs, es);
    // parents
    let mut parents: Vec<Option<usize>> = Vec::new();
    let mut t: usize = 0;
    while t < n
        invariant
            t <= n,
            n == sorted@.len(),
            kv == keys_view(sorted@),
            kv.no_duplicates(),
            nodes_sorted(kv),
            forall|x: (DirKind, Seq<char>, Seq<char>, Seq<char>)| #[trigger] kv.contains(x) <==> is_node(fs@, zs@, es@, x),
            parents@.len() == t,
            forall|u: int| 0 <= u < t ==> match #[trigger] parents@[u] {
                Some(p) => p < u && parent_key(kv[u]) == Some(kv[p as int]),
                None => parent_key(kv[u]) is None || !kv.contains(parent_key(kv[u])->0),
            },
        decreases n - t,
    {
        let found = match parent_of(&sorted[t]) {
            Some(pk) => find_key(&sorted, &pk),
            None => None,
        };
        proof {
            match found {
                Some(p) => {
                    let k = kv[t as int];
                    assert(k == key_view(sorted@[t as int]));
                    // a node from an archive entry ends its prefix with `/`
                    if k.0 == DirKind::ZipDir {
                        assert(kv.contains(k));
                        assert(is_node(fs@, zs@, es@, k));
                        let i = choose|i: int| 0 <= i < es@.len() && #[trigger] entry_row_node(es@[i].0@, es@[i].1@, es@[i].2@, k);
                        let e = es@[i].2@;
                        let j = choose|j: int| 0 <= j < e.len() && e[j] == '/' && k.3 == e.take(j + 1);
                        assert(k.3.last() == e[j]);
                    }
                    lemma_parent_before(k);
                    if p as int >= t as int {
                        if p as int == t as int {
                            lemma_node_lt_irreflexive(k);
                        } else {
                            assert(!node_lt(kv[p as int], kv[t as int]));
                        }
                    }
                },
                None => {},
            }
        }
        let ghost before = parents@;
        parents.push(found);
        proof {
            assert forall|u: int| 0 <= u < t + 1 implies match #[trigger] parents@[u] {
                Some(p) => p < u && parent_key(kv[u]) == Some(kv[p as int]),
                None => parent_key(kv[u]) is None || !kv.contains(parent_key(kv[u])->0),
            } by {
                if u < t {
                    assert(parents@[u] == before[u]);
                }
            }
        }
        t = t + 1;
    }
    // children
    let mut children: Vec<usize> = Vec::new();
    let mut t: usize = 0;
    while t < n
        invariant
            t <= n,
            children@.len() == t,
            forall|x: int| 0 <= x < t ==> #[trigger] children@[x] == 0,
        decreases n - t,
    {
        children.push(0);
        t = t + 1;
    }
    let mut k: usize = 0;
    while k < n
        invariant
            k <= n,
            n == parents@.len(),
            children@.len() == n,
            forall|u: int| 0 <= u < n ==> match #[trigger] parents@[u] {
                Some(p) => p < u,
                None => true,
            },
            forall|x: int| 0 <= x < n ==> #[trigger] children@[x] == child_number(parents@, x, k as int),
            forall|x: int| 0 <= x < n ==> #[trigger] children@[x] <= k,
        decreases n - k,
    {
        match parents[k] {
            Some(p) => {
                let c = children[p];
                children.set(p, c + 1);
            },
            None => {},
        }
        proof {
            assert forall|x: int| 0 <= x < n implies #[trigger] children@[x] == child_number(parents@, x, k + 1) by {}
        }
        k = k + 1;
    }
    // subtree totals, children before parents
    let mut cum: Vec<i64> = Vec::new();
    let mut t: usize = 0;
    while t < n
        invariant
            t <= n,
            counts@.len() == n,
            cum@ == counts@.take(t as int),
        decreases n - t,
    {
        cum.push(counts[t]);
        proof {
            assert(counts@.take(t + 1) =~= counts@.take(t as int).push(counts@[t as int]));
        }
        t = t + 1;
    }
    proof {
        assert(counts@.take(n as int) =~= counts@);
        assert(cum@.take(n as int) =~= cum@);
        assert forall|x: int| 0 <= x < n implies #[trigger] cum@[x] == counts@[x] + child_total(parents@, cum@, x, n as int) by {}
    }
    let mut t: usize = n;
    while t > 0
        invariant
            t <= n,
            n == parents@.len(),
            counts@.len() == n,
            cum@.len() == n,
            forall|u: int| 0 <= u < n ==> match #[trigger] parents@[u] {
                Some(p) => p < u,
                None => true,
            },
            forall|x: int| 0 <= x < n ==> #[trigger] cum@[x] >= 0,
            seq_sum(cum@.take(t as int)) <= i64::MAX,
            forall|x: int| 0 <= x < n ==> #[trigger] cum@[x] == counts@[x] + child_total(parents@, cum@, x, t as int),
        decreases t,
    {
        let k = t - 1;
        proof {
            assert(cum@.take(t as int).drop_last() =~= cum@.take(k as int));
        }
        match parents[k] {
            Some(p) => {
                proof {
                    let pre = cum@.take(t as int);
                    assert forall|x: int| 0 <= x < pre.len() implies pre[x] >= 0 by {}
                    lemma_seq_sum_nonneg_bounds(pre, p as int, k as int);
                    assert(pre[p as int] == cum@[p as int] && pre[k as int] == cum@[k as int]);
                }
                let ghost before = cum@;
                let v = cum[p] + cum[k];
                cum.set(p, v);
                proof {
                    let pre0 = before.take(t as int);
                    let pre1 = cum@.take(t as int);
                    assert(pre1 =~= pre0.update(p as int, v));
                    lemma_seq_sum_update(pre0, p as int, v);
                    assert(cum@.take(k as int) =~= pre1.drop_last());
                    assert(seq_sum(pre1) == seq_sum(pre1.drop_last()) + pre1.last());
                    assert forall|x: int| 0 <= x < n implies #[trigger] cum@[x] == counts@[x] + child_total(parents@, cum@, x, k as int) by {
                        lemma_child_total_frame(parents@, before, cum@, x, t as int);
                        assert(child_total(parents@, cum@, x, k as int) == (if parents@[k as int] == Some(x as usize) {
                            cum@[k as int] as int
                        } else {
                            0
                        }) + child_total(parents@, cum@, x, t as int));
                        assert(cum@[k as int] == before[k as int]);
                    }
                }
            },
            None => {
                proof {
                    let pre = cum@.take(t as int);
                    assert forall|x: int| 0 <= x < pre.len() implies pre[x] >= 0 by {}
                    lemma_seq_sum_nonneg(cum@.take(k as int));
                    assert forall|x: int| 0 <= x < n implies #[trigger] cum@[x] == counts@[x] + child_total(parents@, cum@, x, k as int) by {
                        assert(child_total(parents@, cum@, x, k as int) == 0 + child_total(parents@, cum@, x, t as int));
                    }
                }
            },
        }
        t = k;
    }
    // the nodes
    let mut out: Vec<DirNode> = Vec::new();
    let mut t: usize = 0;
    while t < n
        invariant
            t <= n,
            n == sorted@.len(),
            kv == keys_view(sorted@),
            parents@.len() == n,
            counts@.len() == n,
            cum@.len() == n,
            children@.len() == n,
            forall|u: int| 0 <= u < n ==> match #[trigger] parents@[u] {
                Some(p) => p < u && parent_key(kv[u]) == Some(kv[p as int]),
                None => parent_key(kv[u]) is None || !kv.contains(parent_key(kv[u])->0),
            },
            out@.len() == t,
            forall|u: int| 0 <= u < t ==> key_view(#[trigger] out@[u].key) == kv[u] && out@[u].parent == parents@[u]
                && out@[u].name@ == node_name(kv[u]) && out@[u].asset_count == counts@[u]
                && out@[u].cumulative_asset_count == cum@[u] && out@[u].child_count == children@[u],
        decreases n - t,
    {
        let node = DirNode {
            key: copy_key(&sorted[t]),
            parent: parents[t],
            name: name_of(&sorted[t]),
            asset_count: counts[t],
            cumulative_asset_count: cum[t],
            child_count: children[t],
        };
        out.push(node);
        t = t + 1;
    }
    proof {
        let ks = out@.map_values(|nd: DirNode| key_view(nd.key));
        let par = out@.map_values(|nd: DirNode| nd.parent);
        let cs = out@.map_values(|nd: DirNode| nd.cumulative_asset_count);
        assert(ks =~= kv);
        assert(par =~= parents@);
        assert forall|u: int| 0 <= u < cs.len() implies cs[u] == cum@[u] by {
            assert(key_view(out@[u].key) == kv[u]);
            assert(out@[u].cumulative_asset_count == cum@[u]);
        }
        assert(cs =~= cum@);
        assert forall|u: int| 0 <= u < out@.len() implies match #[trigger] out@[u].parent {
            Some(p) => p < u && parent_key(ks[u]) == Some(ks[p as int]),
            None => parent_key(ks[u]) is None || !ks.contains(parent_key(ks[u])->0),
        } by {
            assert(out@[u].parent == parents@[u]);
            assert(ks[u] == kv[u]);
        }
        assert forall|u: int| 0 <= u < out@.len() implies (#[trigger] out@[u]).name@ == node_name(ks[u]) by {}
        assert forall|u: int| 0 <= u < out@.len() implies (#[trigger] out@[u]).asset_count == assets_in(fs@, zs@, es@, ks[u]) by {
            assert(counts@[u] == assets_in(fs@, zs@, es@, key_view(sorted@[u])));
        }
        assert forall|u: int| 0 <= u < out@.len() implies (#[trigger] out@[u]).child_count == child_number(par, u, out@.len() as int) by {
            assert(children@[u] == child_number(parents@, u, n as int));
        }
        assert forall|u: int| 0 <= u < out@.len() implies (#[trigger] out@[u]).cumulative_asset_count == out@[u].asset_count
            + child_total(par, cs, u, 0) by {
            assert(cum@[u] == counts@[u] + child_total(parents@, cum@, u, 0));
        }
    }
    out
}

} // verus!
