//! Grouping of files by the digest of their contents.
use vstd::prelude::*;
use crate::cluster::{
    Scan, clusters_of, cluster_views, group_by_key, paths_distinct, clusters_within,
    lemma_paths_with_key_contains, lemma_keys_in_order, lemma_same_entries_same_clusters,
    keys_in_order,
};
use crate::error::{Probe, ScanError};

verus! {

/// The MD5 digest of a byte string, read as a big-endian 128-bit integer.
pub uninterp spec fn md5_of(data: Seq<u8>) -> u128;

/// Relies on md5::compute: the MD5 digest of the bytes, a function of the bytes
/// alone; its 16 bytes are read as one big-endian integer.
#[verifier::external_body]
fn md5_digest(data: &[u8]) -> (r: u128)
    ensures
        r == md5_of(data@),
{
    u128::from_be_bytes(md5::compute(data).0)
}

/// The paths and contents of the files that were read, in order.
pub open spec fn contents_of(probes: Seq<Probe<Vec<u8>>>) -> Seq<(String, Seq<u8>)>
    decreases probes.len(),
{
    if probes.len() == 0 {
        Seq::empty()
    } else {
        let rest = contents_of(probes.drop_last());
        match probes.last().outcome {
            Ok(bytes) => rest.push((probes.last().path, bytes@)),
            Err(_) => rest,
        }
    }
}

/// Each file that was read, with the digest of its contents.
pub open spec fn fingerprints(probes: Seq<Probe<Vec<u8>>>) -> Seq<(String, u128)> {
    contents_of(probes).map_values(|x: (String, Seq<u8>)| (x.0, md5_of(x.1)))
}

/// The files that could not be read, in order.
pub open spec fn read_failures(probes: Seq<Probe<Vec<u8>>>) -> Seq<ScanError>
    decreases probes.len(),
{
    if probes.len() == 0 {
        Seq::empty()
    } else {
        let rest = read_failures(probes.drop_last());
        match probes.last().outcome {
            Ok(_) => rest,
            Err(f) => rest.push(ScanError::FileUnreadable(probes.last().path, f)),
        }
    }
}

/// Digests every file that was read and groups the paths by digest. A file
/// that could not be read is skipped and listed, and does not disturb the
/// others.
pub fn checksum(files: Vec<Probe<Vec<u8>>>) -> (r: Scan<u128>)
    ensures
        cluster_views(r.clusters@) == clusters_of(fingerprints(files@)),
        r.skipped@ == read_failures(files@),
{
    let mut entries: Vec<(String, u128)> = Vec::new();
    let mut skipped: Vec<ScanError> = Vec::new();
    let n = files.len();
    let mut i: usize = 0;
    while i < n
        invariant
            n == files@.len(),
            i <= n,
            entries@ == fingerprints(files@.take(i as int)),
            skipped@ == read_failures(files@.take(i as int)),
        decreases n - i,
    {
        let ghost pre = files@.take(i as int);
        let ghost post = files@.take(i as int + 1);
        assert(post.drop_last() =~= pre);
        assert(post.last() == files@[i as int]);
        let probe = &files[i];
        match &probe.outcome {
            Ok(bytes) => {
                let d = md5_digest(bytes.as_slice());
                entries.push((probe.path.clone(), d));
                assert(contents_of(post) == contents_of(pre).push((probe.path, bytes@)));
                assert(entries@ =~= fingerprints(post));
            },
            Err(f) => {
                skipped.push(ScanError::FileUnreadable(probe.path.clone(), *f));
                assert(entries@ =~= fingerprints(post));
            },
        }
        i = i + 1;
    }
    assert(files@.take(n as int) =~= files@);
    let clusters = group_by_key(&entries);
    Scan { clusters, skipped }
}

/// Two files with the same contents lie in one cluster; two files whose
/// digests differ never share a cluster.
pub proof fn lemma_same_content_same_cluster(probes: Seq<Probe<Vec<u8>>>, a: int, b: int)
    requires
        paths_distinct(fingerprints(probes)),
        0 <= a < contents_of(probes).len(),
        0 <= b < contents_of(probes).len(),
    ensures
        ({
            let c = clusters_of(fingerprints(probes));
            let (pa, ca) = contents_of(probes)[a];
            let (pb, cb) = contents_of(probes)[b];
            &&& ca == cb ==> exists|j: int|
                0 <= j < c.len() && c[j].1.contains(pa) && c[j].1.contains(pb)
            &&& md5_of(ca) != md5_of(cb) ==> forall|j: int|
                0 <= j < c.len() ==> !(c[j].1.contains(pa) && c[j].1.contains(pb))
        }),
{
    let e = fingerprints(probes);
    let c = clusters_of(e);
    let ks = keys_in_order(e);
    lemma_keys_in_order(e);
    lemma_paths_with_key_contains(e, e[a].1, e[a].0);
    lemma_paths_with_key_contains(e, e[a].1, e[b].0);
    assert(ks.contains(e[a].1));
    let j = choose|j: int| 0 <= j < ks.len() && ks[j] == e[a].1;
    assert(c[j].1 == crate::cluster::paths_with_key(e, e[a].1));
    assert forall|j: int|
        0 <= j < c.len() && md5_of(contents_of(probes)[a].1) != md5_of(contents_of(probes)[b].1)
        implies !(c[j].1.contains(e[a].0) && c[j].1.contains(e[b].0)) by {
        lemma_paths_with_key_contains(e, ks[j], e[a].0);
        lemma_paths_with_key_contains(e, ks[j], e[b].0);
        if c[j].1.contains(e[a].0) && c[j].1.contains(e[b].0) {
            let ia = choose|i: int| 0 <= i < e.len() && e[i].0 == e[a].0 && e[i].1 == ks[j];
            let ib = choose|i: int| 0 <= i < e.len() && e[i].0 == e[b].0 && e[i].1 == ks[j];
            assert(ia == a && ib == b);
        }
    }
}

/// Scanning an unchanged set of files twice, in any order, gives clusters with
/// the same digests and the same members.
pub proof fn lemma_checksum_idempotent(p1: Seq<Probe<Vec<u8>>>, p2: Seq<Probe<Vec<u8>>>)
    requires
        contents_of(p1).to_set() == contents_of(p2).to_set(),
    ensures
        clusters_within(clusters_of(fingerprints(p1)), clusters_of(fingerprints(p2))),
        clusters_within(clusters_of(fingerprints(p2)), clusters_of(fingerprints(p1))),
{
    let f1 = fingerprints(p1);
    let f2 = fingerprints(p2);
    assert(f1.to_set() =~= f2.to_set()) by {
        assert forall|x: (String, u128)| f1.to_set().contains(x) implies f2.to_set().contains(x) by {
            let i = choose|i: int| 0 <= i < f1.len() && f1[i] == x;
            assert(contents_of(p1).to_set().contains(contents_of(p1)[i]));
            let k = choose|k: int| 0 <= k < contents_of(p2).len() && contents_of(p2)[k] == contents_of(p1)[i];
            assert(f2[k] == x);
        }
        assert forall|x: (String, u128)| f2.to_set().contains(x) implies f1.to_set().contains(x) by {
            let i = choose|i: int| 0 <= i < f2.len() && f2[i] == x;
            assert(contents_of(p2).to_set().contains(contents_of(p2)[i]));
            let k = choose|k: int| 0 <= k < contents_of(p1).len() && contents_of(p1)[k] == contents_of(p2)[i];
            assert(f1[k] == x);
        }
    }
    lemma_same_entries_same_clusters(f1, f2);
}

} // verus!
