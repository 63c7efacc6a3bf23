use vstd::prelude::*;
use crate::index::{DigestGroup, DigestIndex};
use crate::pipeline::{has_content, has_reading, index_matches, FileEntry};

verus! {

/// The path lists of the buckets holding at least two paths, in bucket order.
pub open spec fn dup_groups_of(gs: Seq<DigestGroup>) -> Seq<Seq<Seq<char>>>
    decreases gs.len(),
{
    if gs.len() == 0 {
        Seq::empty()
    } else {
        dup_groups_of(gs.drop_last()) + (if gs.last().paths.deep_view().len() >= 2 {
            seq![gs.last().paths.deep_view()]
        } else {
            Seq::empty()
        })
    }
}

/// Paths `p` and `q` lie together in one duplicate group.
pub open spec fn in_same_dup_group(dups: Seq<Seq<Seq<char>>>, p: Seq<char>, q: Seq<char>) -> bool {
    exists|j: int|
        0 <= j < dups.len() && #[trigger] dups[j].contains(p) && #[trigger] dups[j].contains(q)
}

/// Copy a list of paths.
fn clone_paths(paths: &Vec<String>) -> (r: Vec<String>)
    ensures
        r@ == paths@,
{
    let mut r: Vec<String> = Vec::new();
    let n = paths.len();
    let mut i: usize = 0;
    while i < n
        invariant
            n == paths@.len(),
            0 <= i <= n,
            r@ == paths@.take(i as int),
        decreases n - i,
    {
        r.push(paths[i].clone());
        proof {
            assert(paths@.take(i + 1) =~= paths@.take(i as int).push(paths@[i as int]));
        }
        i += 1;
    }
    proof {
        assert(paths@.take(n as int) =~= paths@);
    }
    r
}

/// Keep the path list of every bucket with at least two members, in bucket
/// order; buckets with a single path are dropped, and no bucket is split or
/// merged.
pub fn find_duplicates(index: DigestIndex) -> (r: Vec<Vec<String>>)
    ensures
        r.deep_view() == dup_groups_of(index.groups@),
        forall|j: int| 0 <= j < r.deep_view().len() ==> #[trigger] r.deep_view()[j].len() >= 2,
{
    proof {
        lemma_dup_groups_membership(index.groups@);
    }
    let mut duplicates: Vec<Vec<String>> = Vec::new();
    let n = index.groups.len();
    let mut i: usize = 0;
    while i < n
        invariant
            n == index.groups@.len(),
            0 <= i <= n,
            duplicates.deep_view() == dup_groups_of(index.groups@.take(i as int)),
        decreases n - i,
    {
        let ghost prev = duplicates.deep_view();
        let group = &index.groups[i];
        if group.paths.len() >= 2 {
            let paths = clone_paths(&group.paths);
            assert(paths.deep_view() =~= group.paths.deep_view());
            duplicates.push(paths);
        }
        proof {
            let gs = index.groups@;
            assert(gs.take(i + 1).drop_last() =~= gs.take(i as int));
            assert(gs.take(i + 1).last() == gs[i as int]);
            if gs[i as int].paths.deep_view().len() >= 2 {
                assert(duplicates.deep_view() =~= prev.push(gs[i as int].paths.deep_view()));
                assert(dup_groups_of(gs.take(i + 1)) =~= dup_groups_of(gs.take(i as int)).push(
                    gs[i as int].paths.deep_view(),
                ));
            } else {
                assert(dup_groups_of(gs.take(i + 1)) =~= dup_groups_of(gs.take(i as int)));
            }
            assert(duplicates.deep_view() =~= dup_groups_of(gs.take(i + 1)));
        }
        i += 1;
    }
    proof {
        assert(index.groups@.take(n as int) =~= index.groups@);
    }
    duplicates
}

/// Every duplicate group is the path list of some bucket with at least two
/// members, and every such bucket's path list is a duplicate group.
proof fn lemma_dup_groups_membership(gs: Seq<DigestGroup>)
    ensures
        forall|j: int|
            0 <= j < dup_groups_of(gs).len() ==> exists|k: int|
                #![trigger gs[k]]
                0 <= k < gs.len() && gs[k].paths.deep_view() == #[trigger] dup_groups_of(gs)[j]
                    && gs[k].paths.deep_view().len() >= 2,
        forall|k: int|
            0 <= k < gs.len() && #[trigger] gs[k].paths.deep_view().len() >= 2
                ==> dup_groups_of(gs).contains(gs[k].paths.deep_view()),
    decreases gs.len(),
{
    if gs.len() == 0 {
        assert(dup_groups_of(gs).len() == 0);
    } else {
        lemma_dup_groups_membership(gs.drop_last());
        let pre = gs.drop_last();
        let dups = dup_groups_of(gs);
        let pred = dup_groups_of(pre);
        assert forall|j: int|
            0 <= j < dup_groups_of(gs).len() implies exists|k: int|
            #![trigger gs[k]]
            0 <= k < gs.len() && gs[k].paths.deep_view() == #[trigger] dup_groups_of(gs)[j]
                && gs[k].paths.deep_view().len() >= 2 by {
            if j < pred.len() {
                assert(dups[j] == pred[j]);
                let k = choose|k: int|
                    0 <= k < pre.len() && #[trigger] pre[k].paths.deep_view() == pred[j]
                        && pre[k].paths.deep_view().len() >= 2;
                assert(gs[k] == pre[k]);
            } else {
                assert(gs.last().paths.deep_view().len() >= 2);
                assert(dups[j] == gs.last().paths.deep_view());
                assert(gs[gs.len() - 1].paths.deep_view() == dups[j]);
            }
        }
        assert forall|k: int|
            0 <= k < gs.len() && #[trigger] gs[k].paths.deep_view().len() >= 2 implies dup_groups_of(
            gs,
        ).contains(gs[k].paths.deep_view()) by {
            if k < gs.len() - 1 {
                assert(pre[k] == gs[k]);
                assert(pred.contains(gs[k].paths.deep_view()));
                let j = choose|j: int| 0 <= j < pred.len() && pred[j] == gs[k].paths.deep_view();
                assert(dups[j] == gs[k].paths.deep_view());
            } else {
                assert(dups[dups.len() - 1] == gs.last().paths.deep_view());
            }
        }
    }
}

/// Grouping correctness. Two paths lie together in a duplicate group exactly
/// when the pipeline hashed both to one digest and that digest's bucket holds
/// at least two paths: distinct files with identical contents always share a
/// duplicate group, and members of one duplicate group always share a digest,
/// the library's notion of identical content.
pub proof fn lemma_grouping_correctness(
    entries: Seq<FileEntry>,
    idx: DigestIndex,
    dups: Seq<Seq<Seq<char>>>,
)
    requires
        index_matches(entries, idx),
        dups == dup_groups_of(idx.groups@),
    ensures
        forall|p: Seq<char>, q: Seq<char>|
            in_same_dup_group(dups, p, q) ==> exists|d: Seq<u8>|
                #[trigger] has_reading(entries, p, d) && has_reading(entries, q, d),
        forall|p: Seq<char>, q: Seq<char>, d: Seq<u8>|
            p != q && #[trigger] has_reading(entries, p, d) && #[trigger] has_reading(entries, q, d)
                ==> in_same_dup_group(dups, p, q),
        forall|p: Seq<char>, q: Seq<char>, c: Seq<u8>|
            p != q && #[trigger] has_content(entries, p, c) && #[trigger] has_content(entries, q, c)
                ==> in_same_dup_group(dups, p, q),
{
    let gs = idx.groups@;
    lemma_dup_groups_membership(gs);
    assert forall|p: Seq<char>, q: Seq<char>|
        in_same_dup_group(dups, p, q) implies exists|d: Seq<u8>|
        #[trigger] has_reading(entries, p, d) && has_reading(entries, q, d) by {
        let j = choose|j: int|
            0 <= j < dups.len() && #[trigger] dups[j].contains(p) && #[trigger] dups[j].contains(q);
        let k = choose|k: int|
            0 <= k < gs.len() && #[trigger] gs[k].paths.deep_view() == dups[j]
                && gs[k].paths.deep_view().len() >= 2;
        let d = gs[k].digest@;
        assert(idx.in_group_with(p, d));
        assert(idx.in_group_with(q, d));
        assert(has_reading(entries, p, d) && has_reading(entries, q, d));
    }
    assert forall|p: Seq<char>, q: Seq<char>, d: Seq<u8>|
        p != q && #[trigger] has_reading(entries, p, d) && #[trigger] has_reading(
            entries,
            q,
            d,
        ) implies in_same_dup_group(dups, p, q) by {
        assert(idx.in_group_with(p, d));
        assert(idx.in_group_with(q, d));
        let k1 = choose|k: int|
            0 <= k < gs.len() && #[trigger] gs[k].digest@ == d && gs[k].paths.deep_view().contains(
                p,
            );
        let k2 = choose|k: int|
            0 <= k < gs.len() && #[trigger] gs[k].digest@ == d && gs[k].paths.deep_view().contains(
                q,
            );
        assert(k1 == k2);
        let dv = gs[k1].paths.deep_view();
        let i1 = choose|i: int| 0 <= i < dv.len() && dv[i] == p;
        let i2 = choose|i: int| 0 <= i < dv.len() && dv[i] == q;
        assert(i1 != i2);
        assert(dv.len() >= 2);
        assert(dup_groups_of(gs).contains(dv));
        let j = choose|j: int| 0 <= j < dups.len() && dups[j] == dv;
        assert(dups[j].contains(p) && dups[j].contains(q));
    }
    assert forall|p: Seq<char>, q: Seq<char>, c: Seq<u8>|
        p != q && #[trigger] has_content(entries, p, c) && #[trigger] has_content(
            entries,
            q,
            c,
        ) implies in_same_dup_group(dups, p, q) by {
        let j1 = choose|j: int|
            #![trigger entries[j]]
            0 <= j < entries.len() && entries[j].path@ == p && entries[j].content is Some
                && entries[j].content->0@ == c;
        let j2 = choose|j: int|
            #![trigger entries[j]]
            0 <= j < entries.len() && entries[j].path@ == q && entries[j].content is Some
                && entries[j].content->0@ == c;
        let d = crate::digest::md5_of(c);
        assert(has_reading(entries, p, d));
        assert(has_reading(entries, q, d));
    }
}

/// No false duplicates: a duplicate group never holds two paths whose
/// recorded digests differ, so, digest equality standing for content
/// equality, never a path whose content differs from another member's.
pub proof fn lemma_no_false_duplicates(
    entries: Seq<FileEntry>,
    idx: DigestIndex,
    dups: Seq<Seq<Seq<char>>>,
)
    requires
        index_matches(entries, idx),
        dups == dup_groups_of(idx.groups@),
    ensures
        forall|p: Seq<char>, q: Seq<char>|
            in_same_dup_group(dups, p, q) ==> exists|d: Seq<u8>|
                #[trigger] has_reading(entries, p, d) && has_reading(entries, q, d),
{
    lemma_grouping_correctness(entries, idx, dups);
}

/// Determinism of content, not order: two pipeline runs that read the same
/// path-to-content mapping, in whatever order and however the work was
/// split, present the same paths and group the same distinct paths together.
pub proof fn lemma_determinism(
    entries1: Seq<FileEntry>,
    idx1: DigestIndex,
    entries2: Seq<FileEntry>,
    idx2: DigestIndex,
)
    requires
        index_matches(entries1, idx1),
        index_matches(entries2, idx2),
        forall|p: Seq<char>, d: Seq<u8>|
            #[trigger] has_reading(entries1, p, d) <==> #[trigger] has_reading(entries2, p, d),
    ensures
        forall|p: Seq<char>| #[trigger] idx1.contains_path(p) <==> idx2.contains_path(p),
        forall|p: Seq<char>, q: Seq<char>|
            p != q ==> (in_same_dup_group(dup_groups_of(idx1.groups@), p, q) <==> in_same_dup_group(
                dup_groups_of(idx2.groups@),
                p,
                q,
            )),
{
    let dups1 = dup_groups_of(idx1.groups@);
    let dups2 = dup_groups_of(idx2.groups@);
    lemma_grouping_correctness(entries1, idx1, dups1);
    lemma_grouping_correctness(entries2, idx2, dups2);
    assert forall|p: Seq<char>| #[trigger] idx1.contains_path(p) <==> idx2.contains_path(p) by {
        if idx1.contains_path(p) {
            let d = choose|d: Seq<u8>| idx1.in_group_with(p, d);
            assert(has_reading(entries1, p, d));
            assert(has_reading(entries2, p, d));
            assert(idx2.in_group_with(p, d));
        }
        if idx2.contains_path(p) {
            let d = choose|d: Seq<u8>| idx2.in_group_with(p, d);
            assert(has_reading(entries2, p, d));
            assert(has_reading(entries1, p, d));
            assert(idx1.in_group_with(p, d));
        }
    }
    assert forall|p: Seq<char>, q: Seq<char>|
        p != q implies (in_same_dup_group(dups1, p, q) <==> in_same_dup_group(dups2, p, q)) by {
        if in_same_dup_group(dups1, p, q) {
            let d = choose|d: Seq<u8>|
                #[trigger] has_reading(entries1, p, d) && has_reading(entries1, q, d);
            assert(has_reading(entries2, p, d) && has_reading(entries2, q, d));
        }
        if in_same_dup_group(dups2, p, q) {
            let d = choose|d: Seq<u8>|
                #[trigger] has_reading(entries2, p, d) && has_reading(entries2, q, d);
            assert(has_reading(entries1, p, d) && has_reading(entries1, q, d));
        }
    }
}

} // verus!
