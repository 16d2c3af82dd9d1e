//! Grouping of files by modification time, and the files of a session.
use vstd::prelude::*;
use crate::cluster::{
    Cluster, Scan, clusters_of, cluster_views, group_by_key, paths_distinct, keys_in_order,
    lemma_paths_with_key_contains, lemma_keys_in_order, lemma_every_path_in_one_cluster,
};
use crate::error::{IoFailure, Probe, ScanError};
use crate::timestamp::Timestamp;

verus! {

/// The paths and modification times of the files whose metadata was read.
pub open spec fn stamps(probes: Seq<Probe<Timestamp>>) -> Seq<(String, Timestamp)>
    decreases probes.len(),
{
    if probes.len() == 0 {
        Seq::empty()
    } else {
        let rest = stamps(probes.drop_last());
        match probes.last().outcome {
            Ok(t) => rest.push((probes.last().path, t)),
            Err(_) => rest,
        }
    }
}

/// The error that a failed metadata read of `path` is reported as.
pub open spec fn stat_error(path: String, f: IoFailure) -> ScanError {
    match f {
        IoFailure::Unsupported => ScanError::UnsupportedPlatform(path),
        _ => ScanError::MetadataUnreadable(path, f),
    }
}

/// The files whose metadata could not be read, in order.
pub open spec fn stat_failures(probes: Seq<Probe<Timestamp>>) -> Seq<ScanError>
    decreases probes.len(),
{
    if probes.len() == 0 {
        Seq::empty()
    } else {
        let rest = stat_failures(probes.drop_last());
        match probes.last().outcome {
            Ok(_) => rest,
            Err(f) => rest.push(stat_error(probes.last().path, f)),
        }
    }
}

/// Groups the files by exact modification time; every file with a given time
/// is kept. A file whose metadata could not be read is skipped and listed.
pub fn file_times(files: Vec<Probe<Timestamp>>) -> (r: Scan<Timestamp>)
    ensures
        cluster_views(r.clusters@) == clusters_of(stamps(files@)),
        r.skipped@ == stat_failures(files@),
{
    let mut entries: Vec<(String, Timestamp)> = Vec::new();
    let mut skipped: Vec<ScanError> = Vec::new();
    let n = files.len();
    let mut i: usize = 0;
    while i < n
        invariant
            n == files@.len(),
            i <= n,
            entries@ == stamps(files@.take(i as int)),
            skipped@ == stat_failures(files@.take(i as int)),
        decreases n - i,
    {
        let ghost pre = files@.take(i as int);
        let ghost post = files@.take(i as int + 1);
        assert(post.drop_last() =~= pre);
        assert(post.last() == files@[i as int]);
        let probe = &files[i];
        match &probe.outcome {
            Ok(t) => {
                entries.push((probe.path.clone(), *t));
            },
            Err(f) => {
                let e = match f {
                    IoFailure::Unsupported => ScanError::UnsupportedPlatform(probe.path.clone()),
                    _ => ScanError::MetadataUnreadable(probe.path.clone(), *f),
                };
                skipped.push(e);
            },
        }
        i = i + 1;
    }
    assert(files@.take(n as int) =~= files@);
    let clusters = group_by_key(&entries);
    Scan { clusters, skipped }
}

/// The paths of the clusters whose time is at or after `dt`, cluster by
/// cluster.
pub open spec fn session_paths(c: Seq<(Timestamp, Seq<String>)>, dt: Timestamp) -> Seq<String>
    decreases c.len(),
{
    if c.len() == 0 {
        Seq::empty()
    } else {
        let rest = session_paths(c.drop_last(), dt);
        if c.last().0.at_or_after_spec(dt) {
            rest + c.last().1
        } else {
            rest
        }
    }
}

/// The files modified at or after the boundary `dt`, cluster by cluster.
pub fn find_session_files(file_times: Vec<Cluster<Timestamp>>, dt: Timestamp) -> (r: Vec<
    String,
>)
    ensures
        r@ == session_paths(cluster_views(file_times@), dt),
{
    let mut session_files: Vec<String> = Vec::new();
    let n = file_times.len();
    let mut i: usize = 0;
    while i < n
        invariant
            n == file_times@.len(),
            i <= n,
            session_files@ == session_paths(cluster_views(file_times@.take(i as int)), dt),
        decreases n - i,
    {
        let ghost pre = cluster_views(file_times@.take(i as int));
        let ghost post = cluster_views(file_times@.take(i as int + 1));
        assert(post.drop_last() =~= pre);
        assert(post.last() == file_times@[i as int]@);
        let cluster = &file_times[i];
        if cluster.key.is_at_or_after(&dt) {
            let m = cluster.files.len();
            let mut k: usize = 0;
            while k < m
                invariant
                    m == cluster.files@.len(),
                    k <= m,
                    session_files@ == session_paths(pre, dt) + cluster.files@.take(k as int),
                decreases m - k,
            {
                session_files.push(cluster.files[k].clone());
                assert(cluster.files@.take(k as int + 1) =~= cluster.files@.take(k as int).push(
                    cluster.files@[k as int],
                ));
                k = k + 1;
            }
            assert(cluster.files@.take(m as int) =~= cluster.files@);
        }
        i = i + 1;
    }
    assert(file_times@.take(n as int) =~= file_times@);
    session_files
}

proof fn lemma_session_paths_contains(c: Seq<(Timestamp, Seq<String>)>, dt: Timestamp, p: String)
    ensures
        session_paths(c, dt).contains(p) <==> exists|j: int|
            0 <= j < c.len() && c[j].0.at_or_after_spec(dt) && c[j].1.contains(p),
    decreases c.len(),
{
    if c.len() > 0 {
        let d = c.drop_last();
        let rest = session_paths(d, dt);
        lemma_session_paths_contains(d, dt, p);
        if exists|j: int| 0 <= j < c.len() && c[j].0.at_or_after_spec(dt) && c[j].1.contains(p) {
            let j = choose|j: int|
                0 <= j < c.len() && c[j].0.at_or_after_spec(dt) && c[j].1.contains(p);
            if j < d.len() {
                assert(d[j] == c[j]);
                let k = choose|k: int| 0 <= k < rest.len() && rest[k] == p;
                assert(session_paths(c, dt)[k] == p);
            } else {
                let k = choose|k: int| 0 <= k < c[j].1.len() && c[j].1[k] == p;
                assert(session_paths(c, dt)[rest.len() + k] == p);
            }
        }
        if session_paths(c, dt).contains(p) {
            let k = choose|k: int| 0 <= k < session_paths(c, dt).len() && session_paths(c, dt)[k] == p;
            if k < rest.len() {
                assert(rest[k] == p);
                let j = choose|j: int|
                    0 <= j < d.len() && d[j].0.at_or_after_spec(dt) && d[j].1.contains(p);
                assert(c[j] == d[j]);
            } else {
                assert(c.last().1[k - rest.len()] == p);
                assert(c[c.len() - 1].1.contains(p));
            }
        }
    }
}

/// Each file of a set is classified once against the boundary: it is among the
/// session files exactly when its time is at or after the boundary.
pub proof fn lemma_session_classifies_each_file(e: Seq<(String, Timestamp)>, dt: Timestamp, i: int)
    requires
        paths_distinct(e),
        0 <= i < e.len(),
    ensures
        session_paths(clusters_of(e), dt).contains(e[i].0) <==> e[i].1.at_or_after_spec(dt),
{
    let c = clusters_of(e);
    let ks = keys_in_order(e);
    let p = e[i].0;
    lemma_keys_in_order(e);
    lemma_session_paths_contains(c, dt, p);
    if e[i].1.at_or_after_spec(dt) {
        assert(ks.contains(e[i].1));
        let j = choose|j: int| 0 <= j < ks.len() && ks[j] == e[i].1;
        lemma_paths_with_key_contains(e, e[i].1, p);
        assert(c[j].0.at_or_after_spec(dt) && c[j].1.contains(p));
    }
    if session_paths(c, dt).contains(p) {
        let j = choose|j: int| 0 <= j < c.len() && c[j].0.at_or_after_spec(dt) && c[j].1.contains(p);
        lemma_paths_with_key_contains(e, ks[j], p);
        let k = choose|k: int| 0 <= k < e.len() && e[k].0 == p && e[k].1 == ks[j];
        assert(k == i);
    }
}

proof fn lemma_session_paths_no_duplicates(c: Seq<(Timestamp, Seq<String>)>, dt: Timestamp)
    requires
        forall|j: int| 0 <= j < c.len() ==> (#[trigger] c[j]).1.no_duplicates(),
        forall|j1: int, j2: int, p: String|
            0 <= j1 < c.len() && 0 <= j2 < c.len() && j1 != j2 && #[trigger] c[j1].1.contains(p)
                ==> !#[trigger] c[j2].1.contains(p),
    ensures
        session_paths(c, dt).no_duplicates(),
    decreases c.len(),
{
    if c.len() > 0 {
        let d = c.drop_last();
        let rest = session_paths(d, dt);
        let last = c.last().1;
        assert forall|j: int| 0 <= j < d.len() implies (#[trigger] d[j]).1.no_duplicates() by {
            assert(d[j] == c[j]);
        }
        lemma_session_paths_no_duplicates(d, dt);
        if c.last().0.at_or_after_spec(dt) {
            let all = rest + last;
            assert forall|a: int, b: int| 0 <= a < all.len() && 0 <= b < all.len() && a != b implies all[a]
                != all[b] by {
                if a < rest.len() && b >= rest.len() {
                    lemma_session_paths_contains(d, dt, all[a]);
                    assert(rest.contains(all[a]));
                    let j = choose|j: int|
                        0 <= j < d.len() && d[j].0.at_or_after_spec(dt) && d[j].1.contains(all[a]);
                    assert(c[j] == d[j]);
                    if all[a] == all[b] {
                        assert(last[b - rest.len()] == all[a]);
                        assert(c[c.len() - 1].1.contains(all[a]));
                    }
                } else if b < rest.len() && a >= rest.len() {
                    lemma_session_paths_contains(d, dt, all[b]);
                    assert(rest.contains(all[b]));
                    let j = choose|j: int|
                        0 <= j < d.len() && d[j].0.at_or_after_spec(dt) && d[j].1.contains(all[b]);
                    assert(c[j] == d[j]);
                    if all[a] == all[b] {
                        assert(last[a - rest.len()] == all[b]);
                        assert(c[c.len() - 1].1.contains(all[b]));
                    }
                } else if a >= rest.len() && b >= rest.len() {
                    assert(c[c.len() - 1].1.no_duplicates());
                }
            }
        }
    }
}

/// No file of a set is listed twice among the session files.
pub proof fn lemma_session_files_listed_once(e: Seq<(String, Timestamp)>, dt: Timestamp)
    requires
        paths_distinct(e),
    ensures
        session_paths(clusters_of(e), dt).no_duplicates(),
{
    let c = clusters_of(e);
    if e.len() > 0 {
        lemma_every_path_in_one_cluster(e, 0);
    } else {
        assert(c.len() == 0);
    }
    assert forall|j: int| 0 <= j < c.len() implies (#[trigger] c[j]).1.no_duplicates() by {
        let k = keys_in_order(e)[j];
        lemma_keys_in_order(e);
        assert(keys_in_order(e).contains(k));
        let i = choose|i: int| 0 <= i < e.len() && e[i].1 == k;
        lemma_every_path_in_one_cluster(e, i);
    }
    assert forall|j1: int, j2: int, p: String|
        0 <= j1 < c.len() && 0 <= j2 < c.len() && j1 != j2 && #[trigger] c[j1].1.contains(p)
            implies !#[trigger] c[j2].1.contains(p) by {
        lemma_paths_with_key_contains(e, keys_in_order(e)[j1], p);
        let i = choose|i: int| 0 <= i < e.len() && e[i].0 == p && e[i].1 == keys_in_order(e)[j1];
        lemma_every_path_in_one_cluster(e, i);
    }
    lemma_session_paths_no_duplicates(c, dt);
}

} // verus!
