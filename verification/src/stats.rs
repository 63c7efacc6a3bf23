use vstd::prelude::*;

verus! {

/// One listed file with the size its stat call returned, `None` when the
/// file could no longer be stat-ed.
pub struct SizedFile {
    pub path: String,
    pub size_bytes: Option<u64>,
}

/// One row of the per-file table.
pub struct FileRow {
    pub path: String,
    pub is_duplicate: bool,
    pub size_bytes: u64,
}

/// One row of the per-group table.
pub struct GroupRow {
    pub occurrence_count: usize,
    pub total_size_bytes: u64,
    pub potential_save_bytes: u64,
}

/// The tabular result: two tables of distinct shapes, plus the paths whose
/// stat call failed.
pub struct Report {
    pub file_rows: Vec<FileRow>,
    pub group_rows: Vec<GroupRow>,
    pub stat_failures: Vec<String>,
}

/// The recorded size of the first file named `p`, `None` when no file is
/// named `p` or its stat call failed.
pub open spec fn size_lookup(files: Seq<SizedFile>, p: Seq<char>) -> Option<u64>
    decreases files.len(),
{
    if files.len() == 0 {
        None
    } else if files[0].path@ == p {
        files[0].size_bytes
    } else {
        size_lookup(files.drop_first(), p)
    }
}

/// The recorded size of the first file named `p`, as an integer.
pub open spec fn looked_up_size(files: Seq<SizedFile>, p: Seq<char>) -> int {
    match size_lookup(files, p) {
        Some(s) => s as int,
        None => 0,
    }
}

/// The sum of the recorded sizes of a group's members.
pub open spec fn sum_sizes(files: Seq<SizedFile>, members: Seq<Seq<char>>) -> int
    decreases members.len(),
{
    if members.len() == 0 {
        0
    } else {
        sum_sizes(files, members.drop_last()) + looked_up_size(files, members.last())
    }
}

/// Path `p` belongs to some duplicate group.
pub open spec fn in_some_group(dups: Seq<Seq<Seq<char>>>, p: Seq<char>) -> bool {
    exists|j: int| 0 <= j < dups.len() && #[trigger] dups[j].contains(p)
}

/// The per-file table: one row for each stat-ed file, in input order, marked
/// as duplicate exactly when its path lies in some duplicate group.
pub open spec fn file_rows_spec(files: Seq<SizedFile>, dups: Seq<Seq<Seq<char>>>) -> Seq<
    (Seq<char>, bool, u64),
>
    decreases files.len(),
{
    if files.len() == 0 {
        Seq::empty()
    } else {
        file_rows_spec(files.drop_last(), dups) + (match files.last().size_bytes {
            Some(s) => seq![(files.last().path@, in_some_group(dups, files.last().path@), s)],
            None => Seq::empty(),
        })
    }
}

/// The paths whose stat call failed, in input order.
pub open spec fn stat_failed_paths(files: Seq<SizedFile>) -> Seq<Seq<char>>
    decreases files.len(),
{
    if files.len() == 0 {
        Seq::empty()
    } else {
        stat_failed_paths(files.drop_last()) + (if files.last().size_bytes is None {
            seq![files.last().path@]
        } else {
            Seq::empty()
        })
    }
}

/// A file row, seen as its fields.
pub open spec fn file_row_views(rows: Seq<FileRow>) -> Seq<(Seq<char>, bool, u64)> {
    rows.map_values(|r: FileRow| (r.path@, r.is_duplicate, r.size_bytes))
}

/// The recorded size of the first file named `path`, if any.
pub fn lookup_size(files: &Vec<SizedFile>, path: &String) -> (r: Option<u64>)
    ensures
        r == size_lookup(files@, path@),
{
    let n = files.len();
    let mut i: usize = 0;
    proof {
        assert(files@.skip(0) =~= files@);
    }
    while i < n
        invariant
            n == files@.len(),
            0 <= i <= n,
            size_lookup(files@, path@) == size_lookup(files@.skip(i as int), path@),
        decreases n - i,
    {
        proof {
            assert(files@.skip(i as int)[0] == files@[i as int]);
            assert(files@.skip(i as int).drop_first() =~= files@.skip(i + 1));
        }
        if files[i].path == *path {
            return files[i].size_bytes;
        }
        i += 1;
    }
    proof {
        assert(files@.skip(n as int) =~= Seq::<SizedFile>::empty());
    }
    None
}

/// Whether one group holds the given path.
fn group_contains(group: &Vec<String>, path: &String) -> (r: bool)
    ensures
        r == group.deep_view().contains(path@),
{
    let n = group.len();
    let mut i: usize = 0;
    while i < n
        invariant
            n == group@.len(),
            0 <= i <= n,
            forall|k: int| 0 <= k < i ==> group.deep_view()[k] != path@,
        decreases n - i,
    {
        if group[i] == *path {
            assert(group.deep_view()[i as int] == path@);
            return true;
        }
        i += 1;
    }
    false
}

/// Whether the given path lies in some duplicate group.
pub fn is_duplicate_path(duplicates: &Vec<Vec<String>>, path: &String) -> (r: bool)
    ensures
        r == in_some_group(duplicates.deep_view(), path@),
{
    let n = duplicates.len();
    let mut j: usize = 0;
    while j < n
        invariant
            n == duplicates@.len(),
            0 <= j <= n,
            forall|k: int| 0 <= k < j ==> !(#[trigger] duplicates.deep_view()[k].contains(path@)),
        decreases n - j,
    {
        proof {
            assert(duplicates.deep_view()[j as int] == duplicates@[j as int].deep_view());
        }
        if group_contains(&duplicates[j], path) {
            return true;
        }
        j += 1;
    }
    false
}

/// The sum over a prefix of a group never exceeds the sum over the group.
proof fn lemma_sum_take_le(files: Seq<SizedFile>, g: Seq<Seq<char>>, k: int)
    requires
        0 <= k <= g.len(),
    ensures
        sum_sizes(files, g.take(k)) <= sum_sizes(files, g),
    decreases g.len() - k,
{
    if k == g.len() {
        assert(g.take(k) =~= g);
    } else {
        assert(g.take(k + 1).drop_last() =~= g.take(k));
        assert(g.take(k + 1).last() == g[k]);
        assert(sum_sizes(files, g.take(k + 1)) == sum_sizes(files, g.take(k)) + looked_up_size(
            files,
            g[k],
        ));
        lemma_sum_take_le(files, g, k + 1);
    }
}

/// The total of a group's recorded sizes; members are looked up among the
/// stat-ed files.
fn group_total_size(files: &Vec<SizedFile>, group: &Vec<String>) -> (r: u64)
    requires
        forall|k: int|
            0 <= k < group@.len() ==> size_lookup(files@, #[trigger] group.deep_view()[k]) is Some,
        sum_sizes(files@, group.deep_view()) <= u64::MAX,
    ensures
        r as int == sum_sizes(files@, group.deep_view()),
{
    let gv = Ghost(group.deep_view());
    let n = group.len();
    let mut total: u64 = 0;
    let mut k: usize = 0;
    while k < n
        invariant
            n == group@.len(),
            gv@ == group.deep_view(),
            gv@.len() == n,
            0 <= k <= n,
            forall|kk: int| 0 <= kk < n ==> size_lookup(files@, #[trigger] gv@[kk]) is Some,
            sum_sizes(files@, gv@) <= u64::MAX,
            total as int == sum_sizes(files@, gv@.take(k as int)),
        decreases n - k,
    {
        proof {
            assert(gv@.take(k + 1).drop_last() =~= gv@.take(k as int));
            assert(gv@.take(k + 1).last() == gv@[k as int]);
            lemma_sum_take_le(files@, gv@, k + 1);
        }
        let s = match lookup_size(files, &group[k]) {
            Some(s) => s,
            None => {
                proof {
                    assert(size_lookup(files@, gv@[k as int]) is Some);
                }
                unreached()
            },
        };
        total = total + s;
        k += 1;
    }
    proof {
        assert(gv@.take(n as int) =~= gv@);
    }
    total
}

/// Build the tabular report. The per-file table holds one row per stat-ed
/// file, in input order, marked as duplicate exactly when the path lies in a
/// duplicate group; paths whose stat failed are surfaced beside it. The
/// per-group table holds one row per duplicate group, in group order:
/// the member count, the sum of the members' recorded sizes, and the saving
/// from keeping a single member, computed from one representative's size.
pub fn collect_statistics(files: Vec<SizedFile>, duplicates: Vec<Vec<String>>) -> (r: Report)
    requires
        forall|j: int| 0 <= j < duplicates.deep_view().len() ==> #[trigger] duplicates.deep_view()[j].len() >= 1,
        forall|j: int, k: int|
            0 <= j < duplicates.deep_view().len() && 0 <= k < duplicates.deep_view()[j].len()
                ==> size_lookup(files@, #[trigger] duplicates.deep_view()[j][k]) is Some,
        forall|j: int|
            0 <= j < duplicates.deep_view().len() ==> sum_sizes(
                files@,
                #[trigger] duplicates.deep_view()[j],
            ) <= u64::MAX,
        forall|j: int|
            0 <= j < duplicates.deep_view().len() ==> (#[trigger] duplicates.deep_view()[j].len()
                - 1) * looked_up_size(files@, duplicates.deep_view()[j][0]) <= u64::MAX,
    ensures
        file_row_views(r.file_rows@) == file_rows_spec(files@, duplicates.deep_view()),
        r.stat_failures.deep_view() == stat_failed_paths(files@),
        r.group_rows@.len() == duplicates.deep_view().len(),
        forall|j: int|
            0 <= j < duplicates.deep_view().len() ==> (#[trigger] r.group_rows@[j]).occurrence_count
                == duplicates.deep_view()[j].len() && r.group_rows@[j].total_size_bytes as int
                == sum_sizes(files@, duplicates.deep_view()[j])
                && r.group_rows@[j].potential_save_bytes as int == (duplicates.deep_view()[j].len()
                - 1) * looked_up_size(files@, duplicates.deep_view()[j][0]),
{
    let ghost dups = duplicates.deep_view();
    let mut file_rows: Vec<FileRow> = Vec::new();
    let mut stat_failures: Vec<String> = Vec::new();
    let n = files.len();
    let mut i: usize = 0;
    while i < n
        invariant
            n == files@.len(),
            dups == duplicates.deep_view(),
            0 <= i <= n,
            file_row_views(file_rows@) == file_rows_spec(files@.take(i as int), dups),
            stat_failures.deep_view() == stat_failed_paths(files@.take(i as int)),
        decreases n - i,
    {
        let ghost prev_rows = file_row_views(file_rows@);
        let ghost prev_failures = stat_failures.deep_view();
        let file = &files[i];
        match file.size_bytes {
            Some(s) => {
                let dup = is_duplicate_path(&duplicates, &file.path);
                file_rows.push(
                    FileRow { path: file.path.clone(), is_duplicate: dup, size_bytes: s },
                );
            },
            None => {
                stat_failures.push(file.path.clone());
            },
        }
        proof {
            let pre = files@.take(i as int);
            let e = files@.take(i + 1);
            assert(e.drop_last() =~= pre);
            assert(e.last() == files@[i as int]);
            match files@[i as int].size_bytes {
                Some(s) => {
                    assert(file_row_views(file_rows@) =~= prev_rows.push(
                        (files@[i as int].path@, in_some_group(dups, files@[i as int].path@), s),
                    ));
                    assert(file_rows_spec(e, dups) =~= file_rows_spec(pre, dups).push(
                        (files@[i as int].path@, in_some_group(dups, files@[i as int].path@), s),
                    ));
                    assert(stat_failed_paths(e) =~= stat_failed_paths(pre));
                },
                None => {
                    assert(stat_failures.deep_view() =~= prev_failures.push(
                        files@[i as int].path@,
                    ));
                    assert(stat_failed_paths(e) =~= stat_failed_paths(pre).push(
                        files@[i as int].path@,
                    ));
                    assert(file_rows_spec(e, dups) =~= file_rows_spec(pre, dups));
                },
            }
            assert(file_row_views(file_rows@) =~= file_rows_spec(e, dups));
            assert(stat_failures.deep_view() =~= stat_failed_paths(e));
        }
        i += 1;
    }
    proof {
        assert(files@.take(n as int) =~= files@);
    }
    let mut group_rows: Vec<GroupRow> = Vec::new();
    let m = duplicates.len();
    let mut j: usize = 0;
    while j < m
        invariant
            m == duplicates@.len(),
            dups == duplicates.deep_view(),
            dups.len() == m,
            forall|jj: int| 0 <= jj < m ==> #[trigger] dups[jj].len() >= 1,
            forall|jj: int, k: int|
                0 <= jj < m && 0 <= k < dups[jj].len() ==> size_lookup(
                    files@,
                    #[trigger] dups[jj][k],
                ) is Some,
            forall|jj: int| 0 <= jj < m ==> sum_sizes(files@, #[trigger] dups[jj]) <= u64::MAX,
            forall|jj: int|
                0 <= jj < m ==> (#[trigger] dups[jj].len() - 1) * looked_up_size(
                    files@,
                    dups[jj][0],
                ) <= u64::MAX,
            0 <= j <= m,
            group_rows@.len() == j,
            forall|jj: int|
                0 <= jj < j ==> (#[trigger] group_rows@[jj]).occurrence_count == dups[jj].len()
                    && group_rows@[jj].total_size_bytes as int == sum_sizes(files@, dups[jj])
                    && group_rows@[jj].potential_save_bytes as int == (dups[jj].len() - 1)
                    * looked_up_size(files@, dups[jj][0]),
        decreases m - j,
    {
        let group = &duplicates[j];
        proof {
            assert(dups[j as int] == duplicates@[j as int].deep_view());
        }
        let occurrence = group.len();
        let total = group_total_size(&files, group);
        let rep = match lookup_size(&files, &group[0]) {
            Some(s) => s,
            None => {
                proof {
                    assert(size_lookup(files@, dups[j as int][0]) is Some);
                }
                unreached()
            },
        };
        let save = ((occurrence - 1) as u64) * rep;
        group_rows.push(
            GroupRow {
                occurrence_count: occurrence,
                total_size_bytes: total,
                potential_save_bytes: save,
            },
        );
        j += 1;
    }
    Report { file_rows, group_rows, stat_failures }
}

/// Savings arithmetic: in a group of `n` members that all have recorded size
/// `s`, the total of the recorded sizes is `n * s`, and the potential saving,
/// taken from one representative member, is `(n - 1) * s`.
pub proof fn lemma_savings_arithmetic(files: Seq<SizedFile>, g: Seq<Seq<char>>, s: u64)
    requires
        g.len() >= 1,
        forall|k: int| 0 <= k < g.len() ==> looked_up_size(files, #[trigger] g[k]) == s as int,
    ensures
        sum_sizes(files, g) == g.len() * (s as int),
        (g.len() - 1) * looked_up_size(files, g[0]) == (g.len() - 1) * (s as int),
    decreases g.len(),
{
    if g.len() == 1 {
        assert(g.drop_last() =~= Seq::<Seq<char>>::empty());
        assert(sum_sizes(files, Seq::<Seq<char>>::empty()) == 0);
        assert(g.last() == g[0]);
        assert(sum_sizes(files, g) == looked_up_size(files, g[0]));
    } else {
        let pre = g.drop_last();
        assert(forall|k: int|
            0 <= k < pre.len() ==> looked_up_size(files, #[trigger] pre[k]) == s as int);
        lemma_savings_arithmetic(files, pre, s);
        assert(sum_sizes(files, g) == sum_sizes(files, pre) + looked_up_size(files, g.last()));
        assert(sum_sizes(files, g) == (g.len() - 1) * (s as int) + s) by {
            assert(pre.len() == g.len() - 1);
        }
        assert((g.len() - 1) * (s as int) + s == g.len() * (s as int)) by (nonlinear_arith);
    }
}

} // verus!
