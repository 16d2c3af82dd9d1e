//! Grouping of paths into clusters that share a key (a digest or a timestamp).
use vstd::prelude::*;
use std::collections::HashMap;
use crate::error::ScanError;

verus! {

broadcast use vstd::std_specs::hash::group_hash_axioms;

/// A key that paths can be grouped by. Each key has a 128-bit code, and two
/// keys with the same code are the same key, so that clusters can be found
/// through a hash index on the code.
pub trait GroupKey: Copy + Sized {
    spec fn code_spec(&self) -> u128;

    fn code(&self) -> (r: u128)
        ensures
            r == self.code_spec(),
    ;

    proof fn lemma_code_injective(a: Self, b: Self)
        ensures
            a.code_spec() == b.code_spec() ==> a == b,
    ;
}

impl GroupKey for u128 {
    open spec fn code_spec(&self) -> u128 {
        *self
    }

    fn code(&self) -> (r: u128) {
        *self
    }

    proof fn lemma_code_injective(a: u128, b: u128) {
    }
}

/// The paths that share one key.
pub struct Cluster<K> {
    pub key: K,
    pub files: Vec<String>,
}

impl<K> View for Cluster<K> {
    type V = (K, Seq<String>);

    open spec fn view(&self) -> (K, Seq<String>) {
        (self.key, self.files@)
    }
}

/// The clusters of a scan, and the files that could not be read.
pub struct Scan<K> {
    pub clusters: Vec<Cluster<K>>,
    pub skipped: Vec<ScanError>,
}

/// The mathematical value of a sequence of clusters.
pub open spec fn cluster_views<K>(cs: Seq<Cluster<K>>) -> Seq<(K, Seq<String>)> {
    cs.map_values(|c: Cluster<K>| c@)
}

/// The paths of the entries whose key is `k`, in the order of the entries.
pub open spec fn paths_with_key<K>(e: Seq<(String, K)>, k: K) -> Seq<String>
    decreases e.len(),
{
    if e.len() == 0 {
        Seq::empty()
    } else {
        let rest = paths_with_key(e.drop_last(), k);
        if e.last().1 == k {
            rest.push(e.last().0)
        } else {
            rest
        }
    }
}

/// The distinct keys of the entries, in the order of their first occurrence.
pub open spec fn keys_in_order<K>(e: Seq<(String, K)>) -> Seq<K>
    decreases e.len(),
{
    if e.len() == 0 {
        Seq::empty()
    } else {
        let rest = keys_in_order(e.drop_last());
        if rest.contains(e.last().1) {
            rest
        } else {
            rest.push(e.last().1)
        }
    }
}

/// One cluster for each distinct key, in the order in which the keys first
/// occur, holding the paths of all entries with that key.
pub open spec fn clusters_of<K>(e: Seq<(String, K)>) -> Seq<(K, Seq<String>)> {
    keys_in_order(e).map_values(|k: K| (k, paths_with_key(e, k)))
}

/// No two entries name the same path.
pub open spec fn paths_distinct<K>(e: Seq<(String, K)>) -> bool {
    forall|i: int, j: int| 0 <= i < j < e.len() ==> e[i].0 != e[j].0
}

/// Clusters with at least two members, the duplicates, in their order.
pub open spec fn duplicates_of<K>(cs: Seq<(K, Seq<String>)>) -> Seq<Seq<String>>
    decreases cs.len(),
{
    if cs.len() == 0 {
        Seq::empty()
    } else {
        let rest = duplicates_of(cs.drop_last());
        if cs.last().1.len() > 1 {
            rest.push(cs.last().1)
        } else {
            rest
        }
    }
}

pub proof fn lemma_keys_in_order<K>(e: Seq<(String, K)>)
    ensures
        keys_in_order(e).no_duplicates(),
        forall|k: K| #[trigger]
            keys_in_order(e).contains(k) <==> exists|i: int| 0 <= i < e.len() && e[i].1 == k,
    decreases e.len(),
{
    if e.len() > 0 {
        let d = e.drop_last();
        let last = e.last();
        let ks = keys_in_order(d);
        lemma_keys_in_order(d);
        if !ks.contains(last.1) {
            assert(keys_in_order(e) == ks.push(last.1));
            assert(keys_in_order(e)[ks.len() as int] == last.1);
        }
        assert(keys_in_order(e).contains(last.1));
        assert forall|k: K| #[trigger]
            keys_in_order(e).contains(k) <==> exists|i: int| 0 <= i < e.len() && e[i].1 == k by {
            if exists|i: int| 0 <= i < e.len() && e[i].1 == k {
                let i = choose|i: int| 0 <= i < e.len() && e[i].1 == k;
                if i < d.len() {
                    assert(d[i].1 == k);
                    assert(ks.contains(k));
                    let j = choose|j: int| 0 <= j < ks.len() && ks[j] == k;
                    assert(keys_in_order(e)[j] == k);
                }
            }
            if keys_in_order(e).contains(k) {
                if ks.contains(k) {
                    let i = choose|i: int| 0 <= i < d.len() && d[i].1 == k;
                    assert(e[i].1 == k);
                } else {
                    let j = choose|j: int| 0 <= j < keys_in_order(e).len() && keys_in_order(e)[j]
                        == k;
                    assert(j == ks.len());
                    assert(e[e.len() - 1].1 == k);
                }
            }
        }
    }
}

pub proof fn lemma_paths_with_key_contains<K>(e: Seq<(String, K)>, k: K, p: String)
    ensures
        paths_with_key(e, k).contains(p) <==> exists|i: int|
            0 <= i < e.len() && e[i].0 == p && e[i].1 == k,
    decreases e.len(),
{
    if e.len() > 0 {
        let d = e.drop_last();
        let ps = paths_with_key(d, k);
        lemma_paths_with_key_contains(d, k, p);
        if exists|i: int| 0 <= i < e.len() && e[i].0 == p && e[i].1 == k {
            let i = choose|i: int| 0 <= i < e.len() && e[i].0 == p && e[i].1 == k;
            if i < d.len() {
                assert(d[i].0 == p && d[i].1 == k);
                let j = choose|j: int| 0 <= j < ps.len() && ps[j] == p;
                assert(paths_with_key(e, k)[j] == p);
            } else {
                assert(paths_with_key(e, k) == ps.push(p));
                assert(paths_with_key(e, k)[ps.len() as int] == p);
            }
        }
        if paths_with_key(e, k).contains(p) {
            if ps.contains(p) {
                let i = choose|i: int| 0 <= i < d.len() && d[i].0 == p && d[i].1 == k;
                assert(e[i].0 == p && e[i].1 == k);
            } else {
                let j = choose|j: int|
                    0 <= j < paths_with_key(e, k).len() && paths_with_key(e, k)[j] == p;
                assert(j == ps.len());
                assert(e[e.len() - 1].0 == p && e[e.len() - 1].1 == k);
            }
        }
    }
}

proof fn lemma_paths_with_key_no_duplicates<K>(e: Seq<(String, K)>, k: K)
    requires
        paths_distinct(e),
    ensures
        paths_with_key(e, k).no_duplicates(),
    decreases e.len(),
{
    if e.len() > 0 {
        let d = e.drop_last();
        lemma_paths_with_key_no_duplicates(d, k);
        if e.last().1 == k {
            let p = e.last().0;
            lemma_paths_with_key_contains(d, k, p);
            if paths_with_key(d, k).contains(p) {
                let i = choose|i: int| 0 <= i < d.len() && d[i].0 == p && d[i].1 == k;
                assert(e[i].0 == e[e.len() - 1].0);
            }
        }
    }
}

/// Groups the entries by key: one cluster per distinct key, in order of first
/// occurrence, holding every path with that key in input order. Each entry
/// finds its cluster through a hash index on the key's code.
pub fn group_by_key<K: GroupKey>(entries: &Vec<(String, K)>) -> (r: Vec<Cluster<K>>)
    ensures
        cluster_views(r@) == clusters_of(entries@),
{
    let mut r: Vec<Cluster<K>> = Vec::new();
    let mut index: HashMap<u128, usize> = HashMap::new();
    let n = entries.len();
    let mut i: usize = 0;
    while i < n
        invariant
            n == entries@.len(),
            i <= n,
            r@.len() == keys_in_order(entries@.take(i as int)).len(),
            forall|j: int|
                0 <= j < r@.len() ==> (#[trigger] r@[j]).key == keys_in_order(
                    entries@.take(i as int),
                )[j] && r@[j].files@ == paths_with_key(entries@.take(i as int), r@[j].key),
            forall|j: int| 0 <= j < r@.len() ==> index@.contains_key((#[trigger] r@[j]).key.code_spec()),
            forall|c: u128| #[trigger]
                index@.contains_key(c) ==> index@[c] < r@.len() && r@[index@[c] as int].key.code_spec()
                    == c,
        decreases n - i,
    {
        let ghost pre = entries@.take(i as int);
        let ghost post = entries@.take(i as int + 1);
        assert(post.drop_last() =~= pre);
        assert(post.last() == entries@[i as int]);
        proof {
            lemma_keys_in_order(pre);
        }
        let key = entries[i].1;
        let path = entries[i].0.clone();
        let code = key.code();
        let ghost old_r = r@;
        match index.get(&code) {
            Some(j) => {
                let j = *j;
                proof {
                    K::lemma_code_injective(r@[j as int].key, key);
                }
                assert(keys_in_order(pre)[j as int] == key);
                assert(keys_in_order(pre).contains(key));
                r[j].files.push(path);
            },
            None => {
                assert(!keys_in_order(pre).contains(key)) by {
                    if keys_in_order(pre).contains(key) {
                        let jj = choose|jj: int|
                            0 <= jj < keys_in_order(pre).len() && keys_in_order(pre)[jj] == key;
                        assert(old_r[jj].key == key);
                        assert(index@.contains_key(old_r[jj].key.code_spec()));
                    }
                }
                let pos = r.len();
                r.push(Cluster { key, files: vec![path] });
                index.insert(code, pos);
                assert(r@.last().files@ =~= paths_with_key(post, key)) by {
                    assert(paths_with_key(pre, key) =~= Seq::empty()) by {
                        lemma_paths_with_key_contains(pre, key, path);
                        if paths_with_key(pre, key).len() > 0 {
                            let p = paths_with_key(pre, key)[0];
                            lemma_paths_with_key_contains(pre, key, p);
                            assert(paths_with_key(pre, key).contains(p));
                        }
                    }
                }
                assert forall|c: u128| #[trigger] index@.contains_key(c) implies index@[c] < r@.len()
                    && r@[index@[c] as int].key.code_spec() == c by {
                    if c != code {
                        assert(old_r[index@[c] as int] == r@[index@[c] as int]);
                    }
                }
            },
        }
        i = i + 1;
    }
    assert(entries@.take(n as int) =~= entries@);
    assert(cluster_views(r@) =~= clusters_of(entries@));
    r
}

/// The paths of all clusters, one cluster after another.
pub open spec fn all_paths<K>(c: Seq<(K, Seq<String>)>) -> Seq<String>
    decreases c.len(),
{
    if c.len() == 0 {
        Seq::empty()
    } else {
        all_paths(c.drop_last()) + c.last().1
    }
}

proof fn lemma_all_paths_push_member<K>(c: Seq<(K, Seq<String>)>, j: int, p: String)
    requires
        0 <= j < c.len(),
    ensures
        all_paths(c.update(j, (c[j].0, c[j].1.push(p)))).to_multiset() == all_paths(
            c,
        ).to_multiset().insert(p),
    decreases c.len(),
{
    broadcast use vstd::seq_lib::lemma_multiset_commutative, vstd::seq_lib::to_multiset_build;

    let u = c.update(j, (c[j].0, c[j].1.push(p)));
    let d = c.drop_last();
    if j == c.len() - 1 {
        assert(u.drop_last() =~= d);
        assert(all_paths(u) == all_paths(d) + c[j].1.push(p));
        assert((all_paths(d) + c[j].1.push(p)).to_multiset() =~= all_paths(d).to_multiset().add(
            c[j].1.to_multiset().insert(p),
        ));
        assert((all_paths(d) + c[j].1).to_multiset() =~= all_paths(d).to_multiset().add(
            c[j].1.to_multiset(),
        ));
    } else {
        lemma_all_paths_push_member(d, j, p);
        assert(u.drop_last() =~= d.update(j, (d[j].0, d[j].1.push(p))));
        assert(u.last() == c.last());
        let a = all_paths(d.update(j, (d[j].0, d[j].1.push(p))));
        assert((a + c.last().1).to_multiset() =~= a.to_multiset().add(c.last().1.to_multiset()));
        assert((all_paths(d) + c.last().1).to_multiset() =~= all_paths(d).to_multiset().add(
            c.last().1.to_multiset(),
        ));
    }
}

/// No path is lost or repeated: all clusters together hold exactly the
/// entries' paths, each as often as it occurs among the entries.
pub proof fn lemma_clusters_hold_every_path_once<K>(e: Seq<(String, K)>)
    ensures
        all_paths(clusters_of(e)).to_multiset() == e.map_values(|x: (String, K)| x.0).to_multiset(),
    decreases e.len(),
{
    broadcast use vstd::seq_lib::lemma_multiset_commutative, vstd::seq_lib::to_multiset_build;

    if e.len() == 0 {
        assert(clusters_of(e) =~= Seq::<(K, Seq<String>)>::empty());
        assert(e.map_values(|x: (String, K)| x.0) =~= Seq::<String>::empty());
        assert(all_paths(clusters_of(e)) =~= Seq::<String>::empty());
    } else {
        let d = e.drop_last();
        let (p, k0) = e.last();
        let ks = keys_in_order(d);
        lemma_clusters_hold_every_path_once(d);
        lemma_keys_in_order(d);
        assert(e.map_values(|x: (String, K)| x.0) =~= d.map_values(|x: (String, K)| x.0).push(p));
        let cd = clusters_of(d);
        let ce = clusters_of(e);
        if ks.contains(k0) {
            let j = choose|j: int| 0 <= j < ks.len() && ks[j] == k0;
            assert(ce =~= cd.update(j, (cd[j].0, cd[j].1.push(p))));
            lemma_all_paths_push_member(cd, j, p);
        } else {
            assert(paths_with_key(d, k0) =~= Seq::empty()) by {
                if paths_with_key(d, k0).len() > 0 {
                    let q = paths_with_key(d, k0)[0];
                    lemma_paths_with_key_contains(d, k0, q);
                    assert(paths_with_key(d, k0).contains(q));
                    let i = choose|i: int| 0 <= i < d.len() && d[i].0 == q && d[i].1 == k0;
                    assert(ks.contains(k0));
                }
            }
            assert(ce =~= cd.push((k0, seq![p])));
            assert(ce.drop_last() =~= cd);
            assert(all_paths(ce) == all_paths(cd) + seq![p]);
            assert(all_paths(cd) + seq![p] =~= all_paths(cd).push(p));
        }
    }
}

/// Keeps the clusters with more than one member, in their order; a cluster
/// with a single path is never reported.
pub fn find_duplicates<K>(checksums: Vec<Cluster<K>>) -> (r: Vec<Vec<String>>)
    ensures
        r@.map_values(|f: Vec<String>| f@) == duplicates_of(cluster_views(checksums@)),
        forall|i: int| 0 <= i < r@.len() ==> (#[trigger] r@[i])@.len() >= 2,
{
    let ghost orig = checksums@;
    let mut cs = checksums;
    let mut r: Vec<Vec<String>> = Vec::new();
    let n = cs.len();
    let mut i: usize = 0;
    while i < n
        invariant
            n == orig.len(),
            cs@.len() == n,
            i <= n,
            forall|j: int| i <= j < n ==> (#[trigger] cs@[j]) == orig[j],
            r@.map_values(|f: Vec<String>| f@) == duplicates_of(
                cluster_views(orig.take(i as int)),
            ),
            forall|k: int| 0 <= k < r@.len() ==> (#[trigger] r@[k])@.len() >= 2,
        decreases n - i,
    {
        let ghost pre = cluster_views(orig.take(i as int));
        let ghost post = cluster_views(orig.take(i as int + 1));
        assert(post.drop_last() =~= pre);
        assert(post.last() == orig[i as int]@);
        let mut files: Vec<String> = Vec::new();
        std::mem::swap(&mut files, &mut cs[i].files);
        assert(files@ == orig[i as int].files@);
        if files.len() > 1 {
            r.push(files);
            assert(r@.map_values(|f: Vec<String>| f@) =~= duplicates_of(pre).push(files@));
        }
        i = i + 1;
    }
    assert(orig.take(n as int) =~= orig);
    r
}

/// Every path of a set of entries lies in exactly one cluster, the one of its
/// key, and no cluster lists a path twice.
pub proof fn lemma_every_path_in_one_cluster<K>(e: Seq<(String, K)>, i: int)
    requires
        paths_distinct(e),
        0 <= i < e.len(),
    ensures
        ({
            let c = clusters_of(e);
            &&& exists|j: int| 0 <= j < c.len() && c[j].0 == e[i].1 && c[j].1.contains(e[i].0)
            &&& forall|j1: int, j2: int|
                0 <= j1 < c.len() && 0 <= j2 < c.len() && c[j1].1.contains(e[i].0) && c[j2].1.contains(
                    e[i].0,
                ) ==> j1 == j2
            &&& forall|j: int| 0 <= j < c.len() ==> (#[trigger] c[j]).1.no_duplicates()
        }),
{
    let c = clusters_of(e);
    let ks = keys_in_order(e);
    assert forall|j: int| 0 <= j < c.len() implies (#[trigger] c[j]).1.no_duplicates() by {
        lemma_paths_with_key_no_duplicates(e, ks[j]);
    }
    lemma_keys_in_order(e);
    assert(ks.contains(e[i].1));
    let j = choose|j: int| 0 <= j < ks.len() && ks[j] == e[i].1;
    lemma_paths_with_key_contains(e, e[i].1, e[i].0);
    assert(c[j].1.contains(e[i].0));
    assert forall|j1: int, j2: int|
        0 <= j1 < c.len() && 0 <= j2 < c.len() && c[j1].1.contains(e[i].0) && c[j2].1.contains(
            e[i].0,
        ) implies j1 == j2 by {
        lemma_paths_with_key_contains(e, ks[j1], e[i].0);
        lemma_paths_with_key_contains(e, ks[j2], e[i].0);
        let i1 = choose|i1: int| 0 <= i1 < e.len() && e[i1].0 == e[i].0 && e[i1].1 == ks[j1];
        let i2 = choose|i2: int| 0 <= i2 < e.len() && e[i2].0 == e[i].0 && e[i2].1 == ks[j2];
        assert(i1 == i && i2 == i);
    }
}

/// A cluster holds only paths of the entries, each under its own key.
pub proof fn lemma_no_path_invented<K>(e: Seq<(String, K)>, j: int, p: String)
    requires
        0 <= j < clusters_of(e).len(),
        clusters_of(e)[j].1.contains(p),
    ensures
        exists|i: int| 0 <= i < e.len() && e[i].0 == p && e[i].1 == clusters_of(e)[j].0,
{
    lemma_paths_with_key_contains(e, keys_in_order(e)[j], p);
}

/// Each cluster of `c1` has a cluster in `c2` with the same key and the same
/// set of members.
pub open spec fn clusters_within<K>(c1: Seq<(K, Seq<String>)>, c2: Seq<(K, Seq<String>)>) -> bool {
    forall|j1: int| 0 <= j1 < c1.len() ==> has_like_cluster(c2, #[trigger] c1[j1])
}

/// `c` has a cluster with the key of `x` and the same set of members.
pub open spec fn has_like_cluster<K>(c: Seq<(K, Seq<String>)>, x: (K, Seq<String>)) -> bool {
    exists|j: int| 0 <= j < c.len() && c[j].0 == x.0 && c[j].1.to_set() == x.1.to_set()
}

proof fn lemma_clusters_covered<K>(e1: Seq<(String, K)>, e2: Seq<(String, K)>)
    requires
        e1.to_set() == e2.to_set(),
    ensures
        clusters_within(clusters_of(e1), clusters_of(e2)),
{
    let c1 = clusters_of(e1);
    let c2 = clusters_of(e2);
    lemma_keys_in_order(e1);
    lemma_keys_in_order(e2);
    assert forall|j1: int| 0 <= j1 < c1.len() implies has_like_cluster(c2, #[trigger] c1[j1]) by {
        let k = c1[j1].0;
        assert(keys_in_order(e1).contains(k));
        let i1 = choose|i: int| 0 <= i < e1.len() && e1[i].1 == k;
        assert(e1.to_set().contains(e1[i1]));
        assert(e2.to_set().contains(e1[i1]));
        let i2 = choose|i: int| 0 <= i < e2.len() && e2[i] == e1[i1];
        assert(e2[i2].1 == k);
        assert(keys_in_order(e2).contains(k));
        let j2 = choose|j: int| 0 <= j < keys_in_order(e2).len() && keys_in_order(e2)[j] == k;
        assert(0 <= j2 < c2.len() && c2[j2].0 == k);
        assert(c2[j2].1.to_set() =~= c1[j1].1.to_set()) by {
            assert forall|p: String| c2[j2].1.to_set().contains(p) <==> c1[j1].1.to_set().contains(
                p,
            ) by {
                lemma_paths_with_key_contains(e1, k, p);
                lemma_paths_with_key_contains(e2, k, p);
                if c1[j1].1.contains(p) {
                    let a = choose|a: int| 0 <= a < e1.len() && e1[a].0 == p && e1[a].1 == k;
                    assert(e1.to_set().contains(e1[a]));
                    let b = choose|b: int| 0 <= b < e2.len() && e2[b] == e1[a];
                    assert(e2[b].0 == p && e2[b].1 == k);
                }
                if c2[j2].1.contains(p) {
                    let b = choose|b: int| 0 <= b < e2.len() && e2[b].0 == p && e2[b].1 == k;
                    assert(e2.to_set().contains(e2[b]));
                    let a = choose|a: int| 0 <= a < e1.len() && e1[a] == e2[b];
                    assert(e1[a].0 == p && e1[a].1 == k);
                }
            }
        }
        assert(0 <= j2 < c2.len() && c2[j2].0 == c1[j1].0 && c2[j2].1.to_set() == c1[j1].1.to_set());
    }
}

/// Grouping depends on the set of entries alone: two runs over the same set,
/// in any order, give clusters with the same keys and the same members.
pub proof fn lemma_same_entries_same_clusters<K>(e1: Seq<(String, K)>, e2: Seq<(String, K)>)
    requires
        e1.to_set() == e2.to_set(),
    ensures
        clusters_within(clusters_of(e1), clusters_of(e2)),
        clusters_within(clusters_of(e2), clusters_of(e1)),
{
    lemma_clusters_covered(e1, e2);
    lemma_clusters_covered(e2, e1);
}

} // verus!
