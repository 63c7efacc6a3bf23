use vstd::prelude::*;
use vstd::multiset::Multiset;
use crate::digest::{md5_digest, md5_of};
use crate::index::DigestIndex;

verus! {

/// One file handed to the digest pipeline: its path and its full byte
/// content, `None` when the file could not be read.
pub struct FileEntry {
    pub path: String,
    pub content: Option<Vec<u8>>,
}

/// One hashing result: a path and the digest of the file's content,
/// `None` when the file could not be read.
pub struct PathDigest {
    pub path: String,
    pub digest: Option<Vec<u8>>,
}

/// Some entry records path `p` with a content whose digest is `d`.
pub open spec fn has_reading(entries: Seq<FileEntry>, p: Seq<char>, d: Seq<u8>) -> bool {
    exists|j: int|
        #![trigger entries[j]]
        0 <= j < entries.len() && entries[j].path@ == p && entries[j].content is Some && md5_of(
            entries[j].content->0@,
        ) == d
}

/// Some entry records path `p` with byte content `c`.
pub open spec fn has_content(entries: Seq<FileEntry>, p: Seq<char>, c: Seq<u8>) -> bool {
    exists|j: int|
        #![trigger entries[j]]
        0 <= j < entries.len() && entries[j].path@ == p && entries[j].content is Some
            && entries[j].content->0@ == c
}

/// Some hashing result records path `p` with digest `d`.
pub open spec fn has_digest_reading(readings: Seq<PathDigest>, p: Seq<char>, d: Seq<u8>) -> bool {
    exists|j: int|
        #![trigger readings[j]]
        0 <= j < readings.len() && readings[j].path@ == p && readings[j].digest is Some
            && readings[j].digest->0@ == d
}

/// The multiset of paths of the entries whose content was read.
pub open spec fn readable_paths(entries: Seq<FileEntry>) -> Multiset<Seq<char>>
    decreases entries.len(),
{
    if entries.len() == 0 {
        Multiset::empty()
    } else {
        readable_paths(entries.drop_last()).add(
            if entries.last().content is Some {
                Multiset::singleton(entries.last().path@)
            } else {
                Multiset::empty()
            },
        )
    }
}

/// The paths of the entries whose content could not be read, in input order.
pub open spec fn failed_paths(entries: Seq<FileEntry>) -> Seq<Seq<char>>
    decreases entries.len(),
{
    if entries.len() == 0 {
        Seq::empty()
    } else {
        failed_paths(entries.drop_last()) + (if entries.last().content is None {
            seq![entries.last().path@]
        } else {
            Seq::empty()
        })
    }
}

/// The multiset of paths of the hashing results that carry a digest.
pub open spec fn digested_paths(readings: Seq<PathDigest>) -> Multiset<Seq<char>>
    decreases readings.len(),
{
    if readings.len() == 0 {
        Multiset::empty()
    } else {
        digested_paths(readings.drop_last()).add(
            if readings.last().digest is Some {
                Multiset::singleton(readings.last().path@)
            } else {
                Multiset::empty()
            },
        )
    }
}

/// The paths of the hashing results without a digest, in input order.
pub open spec fn undigested_paths(readings: Seq<PathDigest>) -> Seq<Seq<char>>
    decreases readings.len(),
{
    if readings.len() == 0 {
        Seq::empty()
    } else {
        undigested_paths(readings.drop_last()) + (if readings.last().digest is None {
            seq![readings.last().path@]
        } else {
            Seq::empty()
        })
    }
}

/// The index groups exactly the entries whose content was read, keyed by the
/// digest of that content.
pub open spec fn index_matches(entries: Seq<FileEntry>, idx: DigestIndex) -> bool {
    &&& idx.wf()
    &&& forall|p: Seq<char>, d: Seq<u8>|
        #[trigger] idx.in_group_with(p, d) <==> has_reading(entries, p, d)
}

/// Hash every readable entry and merge the results into a digest index.
/// Every readable path lands in exactly one bucket, the bucket of its
/// content's digest; the paths of unreadable entries come back beside the
/// index, in input order, and never enter any bucket.
pub fn checksum(entries: Vec<FileEntry>) -> (r: (DigestIndex, Vec<String>))
    ensures
        index_matches(entries@, r.0),
        r.0.paths_multiset() == readable_paths(entries@),
        r.1.deep_view() == failed_paths(entries@),
{
    let mut idx = DigestIndex::new();
    let mut failures: Vec<String> = Vec::new();
    let n = entries.len();
    let mut i: usize = 0;
    while i < n
        invariant
            n == entries@.len(),
            0 <= i <= n,
            idx.wf(),
            forall|p: Seq<char>, d: Seq<u8>|
                #[trigger] idx.in_group_with(p, d) <==> has_reading(entries@.take(i as int), p, d),
            idx.paths_multiset() == readable_paths(entries@.take(i as int)),
            failures.deep_view() == failed_paths(entries@.take(i as int)),
        decreases n - i,
    {
        let ghost prev_failures = failures.deep_view();
        let entry = &entries[i];
        match &entry.content {
            Some(bytes) => {
                let d = md5_digest(bytes.as_slice());
                idx.insert(d, entry.path.clone());
            },
            None => {
                failures.push(entry.path.clone());
            },
        }
        proof {
            let pre = entries@.take(i as int);
            let e = entries@.take(i + 1);
            assert(e.drop_last() =~= pre);
            assert(e.last() == entries@[i as int]);
            lemma_has_reading_take_step(entries@, i as int);
            if entries@[i as int].content is Some {
                assert(readable_paths(e) =~= readable_paths(pre).insert(
                    entries@[i as int].path@,
                ));
                assert(failed_paths(e) =~= failed_paths(pre));
            } else {
                assert(readable_paths(e) =~= readable_paths(pre));
                assert(failed_paths(e) =~= failed_paths(pre).push(entries@[i as int].path@));
                assert(failures.deep_view() =~= prev_failures.push(entries@[i as int].path@));
            }
            assert(failures.deep_view() =~= failed_paths(e));
        }
        i += 1;
    }
    proof {
        assert(entries@.take(n as int) =~= entries@);
    }
    (idx, failures)
}

/// Extending the prefix of entries by one adds exactly that entry's reading.
proof fn lemma_has_reading_take_step(entries: Seq<FileEntry>, i: int)
    requires
        0 <= i < entries.len(),
    ensures
        forall|p: Seq<char>, d: Seq<u8>|
            has_reading(entries.take(i + 1), p, d) <==> (has_reading(entries.take(i), p, d) || (
            entries[i].content is Some && p == entries[i].path@ && d == md5_of(
                entries[i].content->0@,
            ))),
{
    let pre = entries.take(i);
    let e = entries.take(i + 1);
    assert forall|p: Seq<char>, d: Seq<u8>|
        has_reading(e, p, d) <==> (has_reading(pre, p, d) || (entries[i].content is Some && p
            == entries[i].path@ && d == md5_of(entries[i].content->0@))) by {
        if has_reading(e, p, d) {
            let j = choose|j: int|
                #![trigger e[j]]
                0 <= j < e.len() && e[j].path@ == p && e[j].content is Some && md5_of(
                    e[j].content->0@,
                ) == d;
            if j < i {
                assert(pre[j] == e[j]);
                assert(has_reading(pre, p, d));
            } else {
                assert(e[j] == entries[i]);
            }
        }
        if has_reading(pre, p, d) {
            let j = choose|j: int|
                #![trigger pre[j]]
                0 <= j < pre.len() && pre[j].path@ == p && pre[j].content is Some && md5_of(
                    pre[j].content->0@,
                ) == d;
            assert(e[j] == pre[j]);
            assert(has_reading(e, p, d));
        }
        if entries[i].content is Some && p == entries[i].path@ && d == md5_of(
            entries[i].content->0@,
        ) {
            assert(e[i] == entries[i]);
            assert(has_reading(e, p, d));
        }
    }
}

/// Extending the prefix of hashing results by one adds exactly that result.
proof fn lemma_has_digest_reading_take_step(readings: Seq<PathDigest>, i: int)
    requires
        0 <= i < readings.len(),
    ensures
        forall|p: Seq<char>, d: Seq<u8>|
            has_digest_reading(readings.take(i + 1), p, d) <==> (has_digest_reading(
                readings.take(i),
                p,
                d,
            ) || (readings[i].digest is Some && p == readings[i].path@ && d
                == readings[i].digest->0@)),
{
    let pre = readings.take(i);
    let e = readings.take(i + 1);
    assert forall|p: Seq<char>, d: Seq<u8>|
        has_digest_reading(e, p, d) <==> (has_digest_reading(pre, p, d) || (
        readings[i].digest is Some && p == readings[i].path@ && d == readings[i].digest->0@)) by {
        if has_digest_reading(e, p, d) {
            let j = choose|j: int|
                #![trigger e[j]]
                0 <= j < e.len() && e[j].path@ == p && e[j].digest is Some && e[j].digest->0@ == d;
            if j < i {
                assert(pre[j] == e[j]);
                assert(has_digest_reading(pre, p, d));
            } else {
                assert(e[j] == readings[i]);
            }
        }
        if has_digest_reading(pre, p, d) {
            let j = choose|j: int|
                #![trigger pre[j]]
                0 <= j < pre.len() && pre[j].path@ == p && pre[j].digest is Some && pre[j].digest->0@
                    == d;
            assert(e[j] == pre[j]);
            assert(has_digest_reading(e, p, d));
        }
        if readings[i].digest is Some && p == readings[i].path@ && d == readings[i].digest->0@ {
            assert(e[i] == readings[i]);
            assert(has_digest_reading(e, p, d));
        }
    }
}

/// Copy a digest's bytes.
fn copy_digest(d: &Vec<u8>) -> (r: Vec<u8>)
    ensures
        r@ == d@,
{
    let mut r: Vec<u8> = Vec::new();
    let n = d.len();
    let mut i: usize = 0;
    while i < n
        invariant
            n == d@.len(),
            0 <= i <= n,
            r@ == d@.take(i as int),
        decreases n - i,
    {
        r.push(d[i]);
        proof {
            assert(d@.take(i + 1) =~= d@.take(i as int).push(d@[i as int]));
        }
        i += 1;
    }
    proof {
        assert(d@.take(n as int) =~= d@);
    }
    r
}

/// Merge hashing results, computed in any order and by any number of
/// workers, into a digest index: each hashed path joins the bucket of its
/// digest, and the paths whose hashing failed come back beside the index,
/// in input order.
pub fn build_index(readings: Vec<PathDigest>) -> (r: (DigestIndex, Vec<String>))
    ensures
        r.0.wf(),
        forall|p: Seq<char>, d: Seq<u8>|
            #[trigger] r.0.in_group_with(p, d) <==> has_digest_reading(readings@, p, d),
        r.0.paths_multiset() == digested_paths(readings@),
        r.1.deep_view() == undigested_paths(readings@),
{
    let mut idx = DigestIndex::new();
    let mut failures: Vec<String> = Vec::new();
    let n = readings.len();
    let mut i: usize = 0;
    while i < n
        invariant
            n == readings@.len(),
            0 <= i <= n,
            idx.wf(),
            forall|p: Seq<char>, d: Seq<u8>|
                #[trigger] idx.in_group_with(p, d) <==> has_digest_reading(
                    readings@.take(i as int),
                    p,
                    d,
                ),
            idx.paths_multiset() == digested_paths(readings@.take(i as int)),
            failures.deep_view() == undigested_paths(readings@.take(i as int)),
        decreases n - i,
    {
        let ghost prev_failures = failures.deep_view();
        let reading = &readings[i];
        match &reading.digest {
            Some(d) => {
                let dc = copy_digest(d);
                idx.insert(dc, reading.path.clone());
            },
            None => {
                failures.push(reading.path.clone());
            },
        }
        proof {
            let pre = readings@.take(i as int);
            let e = readings@.take(i + 1);
            assert(e.drop_last() =~= pre);
            assert(e.last() == readings@[i as int]);
            lemma_has_digest_reading_take_step(readings@, i as int);
            if readings@[i as int].digest is Some {
                assert(digested_paths(e) =~= digested_paths(pre).insert(
                    readings@[i as int].path@,
                ));
                assert(undigested_paths(e) =~= undigested_paths(pre));
            } else {
                assert(digested_paths(e) =~= digested_paths(pre));
                assert(undigested_paths(e) =~= undigested_paths(pre).push(
                    readings@[i as int].path@,
                ));
                assert(failures.deep_view() =~= prev_failures.push(readings@[i as int].path@));
            }
            assert(failures.deep_view() =~= undigested_paths(e));
        }
        i += 1;
    }
    proof {
        assert(readings@.take(n as int) =~= readings@);
    }
    (idx, failures)
}

} // verus!
