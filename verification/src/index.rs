use vstd::prelude::*;
use vstd::multiset::Multiset;
use crate::digest::digest_eq;

verus! {

/// One bucket of the index: the paths of all files whose contents share one
/// digest, in the order their digests were merged in.
pub struct DigestGroup {
    pub digest: Vec<u8>,
    pub paths: Vec<String>,
}

/// Mapping from digest to the paths of the files with that digest.
/// Well-formed when digests are pairwise distinct and no bucket is empty.
pub struct DigestIndex {
    pub groups: Vec<DigestGroup>,
}

/// The multiset of every path held by a sequence of groups.
pub open spec fn paths_multiset_of(gs: Seq<DigestGroup>) -> Multiset<Seq<char>>
    decreases gs.len(),
{
    if gs.len() == 0 {
        Multiset::empty()
    } else {
        paths_multiset_of(gs.drop_last()).add(gs.last().paths.deep_view().to_multiset())
    }
}

impl DigestIndex {
    pub open spec fn wf(self) -> bool {
        &&& forall|j1: int, j2: int|
            0 <= j1 < j2 < self.groups@.len() ==> self.groups@[j1].digest@ != self.groups@[j2].digest@
        &&& forall|j: int| 0 <= j < self.groups@.len() ==> #[trigger] self.groups@[j].paths@.len() >= 1
    }

    /// Path `p` lies in the bucket whose digest is `d`.
    pub open spec fn in_group_with(self, p: Seq<char>, d: Seq<u8>) -> bool {
        exists|j: int|
            0 <= j < self.groups@.len() && #[trigger] self.groups@[j].digest@ == d
                && self.groups@[j].paths.deep_view().contains(p)
    }

    /// Path `p` lies in some bucket.
    pub open spec fn contains_path(self, p: Seq<char>) -> bool {
        exists|d: Seq<u8>| self.in_group_with(p, d)
    }

    /// Paths `p` and `q` lie in one and the same bucket.
    pub open spec fn same_group(self, p: Seq<char>, q: Seq<char>) -> bool {
        exists|j: int|
            0 <= j < self.groups@.len() && #[trigger] self.groups@[j].paths.deep_view().contains(p)
                && #[trigger] self.groups@[j].paths.deep_view().contains(q)
    }

    /// Every path in the index, with multiplicity.
    pub open spec fn paths_multiset(self) -> Multiset<Seq<char>> {
        paths_multiset_of(self.groups@)
    }

    pub fn new() -> (r: DigestIndex)
        ensures
            r.wf(),
            r.groups@.len() == 0,
            r.paths_multiset() == Multiset::<Seq<char>>::empty(),
            forall|p: Seq<char>, d: Seq<u8>| !r.in_group_with(p, d),
    {
        DigestIndex { groups: Vec::new() }
    }

    /// The position of the bucket with the given digest, if one exists.
    fn find_group(&self, digest: &Vec<u8>) -> (r: Option<usize>)
        ensures
            match r {
                Some(j) => 0 <= j < self.groups@.len() && self.groups@[j as int].digest@ == digest@,
                None => forall|j: int|
                    0 <= j < self.groups@.len() ==> #[trigger] self.groups@[j].digest@ != digest@,
            },
    {
        let n = self.groups.len();
        let mut j: usize = 0;
        while j < n
            invariant
                n == self.groups@.len(),
                0 <= j <= n,
                forall|k: int| 0 <= k < j ==> #[trigger] self.groups@[k].digest@ != digest@,
            decreases n - j,
        {
            if digest_eq(&self.groups[j].digest, digest) {
                return Some(j);
            }
            j += 1;
        }
        None
    }

    /// Record that the file at `path` has content digest `digest`: the path
    /// joins the bucket of its digest, a fresh bucket if the digest is new.
    pub fn insert(&mut self, digest: Vec<u8>, path: String)
        requires
            old(self).wf(),
        ensures
            final(self).wf(),
            final(self).paths_multiset() == old(self).paths_multiset().insert(path@),
            forall|p: Seq<char>, d: Seq<u8>|
                final(self).in_group_with(p, d) <==> (old(self).in_group_with(p, d) || (p
                    == path@ && d == digest@)),
    {
        let ghost old_groups = self.groups@;
        let ghost path_view = path@;
        let ghost digest_view = digest@;
        match self.find_group(&digest) {
            Some(j) => {
                let ghost old_g = self.groups@[j as int];
                let g = &mut self.groups[j];
                g.paths.push(path);
                proof {
                    let new_g = self.groups@[j as int];
                    assert(new_g.paths.deep_view() =~= old_g.paths.deep_view().push(path_view));
                    lemma_paths_multiset_update(old_groups, j as int, new_g, path_view);
                    assert(self.groups@ =~= old_groups.update(j as int, new_g));
                    assert forall|p: Seq<char>, d: Seq<u8>|
                        self.in_group_with(p, d) <==> (old(self).in_group_with(p, d) || (p
                            == path_view && d == digest_view)) by {
                        let dv = old_g.paths.deep_view();
                        let dv2 = new_g.paths.deep_view();
                        assert(dv2 =~= dv.push(path_view));
                        if self.in_group_with(p, d) {
                            let k = choose|k: int|
                                0 <= k < self.groups@.len() && #[trigger] self.groups@[k].digest@
                                    == d && self.groups@[k].paths.deep_view().contains(p);
                            if k == j as int {
                                let i = choose|i: int| 0 <= i < dv2.len() && dv2[i] == p;
                                if i < dv.len() {
                                    assert(dv.contains(p));
                                    assert(old(self).in_group_with(p, d));
                                } else {
                                    assert(p == path_view && d == digest_view);
                                }
                            } else {
                                assert(old(self).groups@[k].digest@ == d
                                    && old(self).groups@[k].paths.deep_view().contains(p));
                                assert(old(self).in_group_with(p, d));
                            }
                        }
                        if old(self).in_group_with(p, d) {
                            let k = choose|k: int|
                                0 <= k < old_groups.len() && #[trigger] old_groups[k].digest@ == d
                                    && old_groups[k].paths.deep_view().contains(p);
                            if k == j as int {
                                assert(dv.contains(p));
                                let i = choose|i: int| 0 <= i < dv.len() && dv[i] == p;
                                assert(dv2[i] == p);
                                assert(dv2.contains(p));
                                assert(self.groups@[k].digest@ == d);
                                assert(self.in_group_with(p, d));
                            } else {
                                assert(self.groups@[k].digest@ == d
                                    && self.groups@[k].paths.deep_view().contains(p));
                                assert(self.in_group_with(p, d));
                            }
                        }
                        if p == path_view && d == digest_view {
                            assert(dv2[dv.len() as int] == path_view);
                            assert(dv2.contains(path_view));
                            assert(self.groups@[j as int].digest@ == digest_view);
                            assert(self.in_group_with(p, d));
                        }
                    }
                }
            },
            None => {
                let mut paths: Vec<String> = Vec::new();
                paths.push(path);
                let g = DigestGroup { digest, paths };
                self.groups.push(g);
                proof {
                    broadcast use vstd::seq_lib::group_to_multiset_ensures;
                    assert(g.paths.deep_view() =~= seq![path_view]);
                    lemma_paths_multiset_push(old_groups, g);
                    assert(seq![path_view] =~= Seq::<Seq<char>>::empty().push(path_view));
                    assert(seq![path_view].to_multiset() =~= Multiset::empty().insert(path_view));
                    assert(self.paths_multiset() =~= old(self).paths_multiset().insert(path_view));
                    assert(self.groups@ =~= old_groups.push(g));
                    assert forall|p: Seq<char>, d: Seq<u8>|
                        self.in_group_with(p, d) <==> (old(self).in_group_with(p, d) || (p
                            == path_view && d == digest_view)) by {
                        if self.in_group_with(p, d) {
                            let k = choose|k: int|
                                0 <= k < self.groups@.len() && #[trigger] self.groups@[k].digest@
                                    == d && self.groups@[k].paths.deep_view().contains(p);
                            if k == old_groups.len() {
                                assert(g.paths.deep_view() =~= seq![path_view]);
                                assert(p == path_view && d == digest_view);
                            } else {
                                assert(old(self).in_group_with(p, d));
                            }
                        }
                        if old(self).in_group_with(p, d) {
                            let k = choose|k: int|
                                0 <= k < old_groups.len() && #[trigger] old_groups[k].digest@ == d
                                    && old_groups[k].paths.deep_view().contains(p);
                            assert(self.groups@[k].digest@ == d
                                && self.groups@[k].paths.deep_view().contains(p));
                            assert(self.in_group_with(p, d));
                        }
                        if p == path_view && d == digest_view {
                            let k = old_groups.len() as int;
                            assert(self.groups@[k].digest@ == digest_view);
                            assert(self.groups@[k].paths.deep_view()[0] == path_view);
                            assert(self.groups@[k].paths.deep_view().contains(path_view));
                            assert(self.in_group_with(p, d));
                        }
                    }
                }
            },
        }
    }
}

/// Appending a group adds exactly its paths to the path multiset.
proof fn lemma_paths_multiset_push(gs: Seq<DigestGroup>, g: DigestGroup)
    ensures
        paths_multiset_of(gs.push(g)) == paths_multiset_of(gs).add(
            g.paths.deep_view().to_multiset(),
        ),
{
    assert(gs.push(g).drop_last() =~= gs);
    assert(gs.push(g).last() == g);
}

/// Pushing one path onto the paths of one group adds exactly that path to the
/// path multiset.
proof fn lemma_paths_multiset_update(gs: Seq<DigestGroup>, j: int, g: DigestGroup, p: Seq<char>)
    requires
        0 <= j < gs.len(),
        g.paths.deep_view() == gs[j].paths.deep_view().push(p),
    ensures
        paths_multiset_of(gs.update(j, g)) == paths_multiset_of(gs).insert(p),
    decreases gs.len(),
{
    broadcast use vstd::seq_lib::group_to_multiset_ensures;
    let gs2 = gs.update(j, g);
    if j == gs.len() - 1 {
        assert(gs2.drop_last() =~= gs.drop_last());
        assert(gs2.last() == g);
        assert(g.paths.deep_view().to_multiset() =~= gs[j].paths.deep_view().to_multiset().insert(
            p,
        ));
        assert(paths_multiset_of(gs2) =~= paths_multiset_of(gs).insert(p));
    } else {
        assert(gs2.drop_last() =~= gs.drop_last().update(j, g));
        assert(gs2.last() == gs.last());
        lemma_paths_multiset_update(gs.drop_last(), j, g, p);
        assert(paths_multiset_of(gs2) =~= paths_multiset_of(gs).insert(p));
    }
}

} // verus!
