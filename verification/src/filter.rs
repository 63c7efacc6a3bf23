use vstd::prelude::*;

verus! {

/// A substring occurs in `s` starting at position `i`.
pub open spec fn substring_at(s: Seq<char>, pat: Seq<char>, i: int) -> bool {
    0 <= i && i + pat.len() <= s.len() && s.subrange(i, i + pat.len()) == pat
}

/// `s` contains `pat` as a contiguous substring.
pub open spec fn contains_substring(s: Seq<char>, pat: Seq<char>) -> bool {
    exists|i: int| substring_at(s, pat, i)
}

/// Whether `pat` occurs in `s` starting exactly at position `i`.
fn matches_at(s: &str, pat: &str, i: usize, n: usize, m: usize) -> (r: bool)
    requires
        n == s@.len(),
        m == pat@.len(),
        i + m <= n,
    ensures
        r == substring_at(s@, pat@, i as int),
{
    let mut j: usize = 0;
    while j < m
        invariant
            n == s@.len(),
            m == pat@.len(),
            i + m <= n,
            0 <= j <= m,
            forall|k: int| 0 <= k < j ==> s@[i + k] == pat@[k],
        decreases m - j,
    {
        if s.get_char(i + j) != pat.get_char(j) {
            assert(!substring_at(s@, pat@, i as int)) by {
                if substring_at(s@, pat@, i as int) {
                    assert(s@.subrange(i as int, i + m)[j as int] == pat@[j as int]);
                }
            }
            return false;
        }
        j += 1;
    }
    assert(s@.subrange(i as int, i + m) =~= pat@);
    true
}

/// Whether the text `s` contains the text `pat` as a substring.
pub fn contains_pattern(s: &str, pat: &str) -> (r: bool)
    ensures
        r == contains_substring(s@, pat@),
{
    let n = s.unicode_len();
    let m = pat.unicode_len();
    if m > n {
        assert(forall|i: int| !substring_at(s@, pat@, i));
        return false;
    }
    if m == 0 {
        assert(s@.subrange(0, 0) =~= pat@);
        assert(substring_at(s@, pat@, 0));
        return true;
    }
    let mut i: usize = 0;
    while i < n - m + 1
        invariant
            n == s@.len(),
            m == pat@.len(),
            1 <= m <= n,
            0 <= i <= n - m + 1,
            forall|k: int| 0 <= k < i ==> !substring_at(s@, pat@, k),
        decreases n - m + 1 - i,
    {
        if matches_at(s, pat, i, n, m) {
            return true;
        }
        i += 1;
    }
    assert(forall|k: int| substring_at(s@, pat@, k) ==> 0 <= k <= n - m);
    false
}


/// The subsequence of `files` whose text contains `pat`, in input order.
pub open spec fn matching(files: Seq<Seq<char>>, pat: Seq<char>) -> Seq<Seq<char>>
    decreases files.len(),
{
    if files.len() == 0 {
        Seq::empty()
    } else {
        matching(files.drop_last(), pat) + (if contains_substring(files.last(), pat) {
            seq![files.last()]
        } else {
            Seq::empty()
        })
    }
}

/// Keep exactly the files whose path contains `pattern` as a substring,
/// in their input order.
pub fn find(files: Vec<String>, pattern: &str) -> (r: Vec<String>)
    ensures
        r.deep_view() == matching(files.deep_view(), pattern@),
{
    let mut matches: Vec<String> = Vec::new();
    let n = files.len();
    let mut i: usize = 0;
    while i < n
        invariant
            n == files@.len(),
            0 <= i <= n,
            matches.deep_view() == matching(files.deep_view().take(i as int), pattern@),
        decreases n - i,
    {
        let ghost prev = matches.deep_view();
        let file = &files[i];
        if contains_pattern(file.as_str(), pattern) {
            matches.push(file.clone());
        }
        proof {
            let dv = files.deep_view();
            assert(dv[i as int] == files@[i as int]@);
            assert(dv.take(i + 1).drop_last() =~= dv.take(i as int));
            assert(dv.take(i + 1).last() == dv[i as int]);
            if contains_substring(dv[i as int], pattern@) {
                assert(matches.deep_view() =~= prev.push(file@));
                assert(matching(dv.take(i + 1), pattern@) =~= matching(dv.take(i as int), pattern@).push(dv[i as int]));
            } else {
                assert(matching(dv.take(i + 1), pattern@) =~= matching(dv.take(i as int), pattern@));
            }
            assert(matches.deep_view() =~= matching(dv.take(i + 1), pattern@));
        }
        i += 1;
    }
    proof {
        assert(files.deep_view().take(n as int) =~= files.deep_view());
    }
    matches
}

} // verus!

