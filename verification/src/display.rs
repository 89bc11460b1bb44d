//! The order in which changes are presented, and the per-character
//! comparison that highlights what changed inside a version string.

use vstd::prelude::*;

use crate::store::diff::PackageDiff;
use crate::store::diff::StoreDiff;

verus! {

broadcast use vstd::seq_lib::group_to_multiset_ensures;

/// Lexicographic order on character sequences, by code point; a prefix comes
/// before what extends it.
pub open spec fn str_le(a: Seq<char>, b: Seq<char>) -> bool
    decreases a.len(),
{
    if a.len() == 0 {
        true
    } else if b.len() == 0 {
        false
    } else if a[0] == b[0] {
        str_le(a.drop_first(), b.drop_first())
    } else {
        a[0] < b[0]
    }
}

/// The order package changes are shown in: packages whose own version
/// changed first, then more dependency changes before fewer, then names
/// in lexicographic order.
pub open spec fn pkg_le(a: PackageDiff, b: PackageDiff) -> bool {
    if (a.pkg is Some) != (b.pkg is Some) {
        a.pkg is Some
    } else if a.deps@.len() != b.deps@.len() {
        a.deps@.len() > b.deps@.len()
    } else {
        str_le(a.name@, b.name@)
    }
}

/// The order dependency changes are shown in: names in lexicographic order.
pub open spec fn diff_le(a: StoreDiff, b: StoreDiff) -> bool {
    str_le(a.name@, b.name@)
}

pub open spec fn pkg_sorted(s: Seq<PackageDiff>) -> bool {
    forall|a: int, b: int| 0 <= a < b < s.len() ==> pkg_le(s[a], s[b])
}

pub open spec fn diffs_sorted(s: Seq<StoreDiff>) -> bool {
    forall|a: int, b: int| 0 <= a < b < s.len() ==> diff_le(s[a], s[b])
}

/// Any two strings compare one way or the other.
pub proof fn lemma_str_le_total(a: Seq<char>, b: Seq<char>)
    ensures
        str_le(a, b) || str_le(b, a),
    decreases a.len(),
{
    if a.len() == 0 {
        assert(str_le(a, b));
    } else if b.len() == 0 {
        assert(str_le(b, a));
    } else if a[0] == b[0] {
        lemma_str_le_total(a.drop_first(), b.drop_first());
        assert(str_le(a.drop_first(), b.drop_first()) ==> str_le(a, b));
        assert(str_le(b.drop_first(), a.drop_first()) ==> str_le(b, a));
    } else {
        assert(a[0] < b[0] || b[0] < a[0]);
    }
}

/// The string order is transitive.
pub proof fn lemma_str_le_trans(a: Seq<char>, b: Seq<char>, c: Seq<char>)
    requires
        str_le(a, b),
        str_le(b, c),
    ensures
        str_le(a, c),
    decreases a.len(),
{
    if a.len() > 0 && b.len() > 0 && c.len() > 0 && a[0] == b[0] && b[0] == c[0] {
        lemma_str_le_trans(a.drop_first(), b.drop_first(), c.drop_first());
    }
}

proof fn lemma_pkg_le_total(a: PackageDiff, b: PackageDiff)
    ensures
        pkg_le(a, b) || pkg_le(b, a),
{
    lemma_str_le_total(a.name@, b.name@);
}

proof fn lemma_pkg_le_trans(a: PackageDiff, b: PackageDiff, c: PackageDiff)
    requires
        pkg_le(a, b),
        pkg_le(b, c),
    ensures
        pkg_le(a, c),
{
    if (a.pkg is Some) == (b.pkg is Some) && (b.pkg is Some) == (c.pkg is Some)
        && a.deps@.len() == b.deps@.len() && b.deps@.len() == c.deps@.len() {
        lemma_str_le_trans(a.name@, b.name@, c.name@);
    }
}

proof fn lemma_diff_le_total(a: StoreDiff, b: StoreDiff)
    ensures
        diff_le(a, b) || diff_le(b, a),
{
    lemma_str_le_total(a.name@, b.name@);
}

proof fn lemma_diff_le_trans(a: StoreDiff, b: StoreDiff, c: StoreDiff)
    requires
        diff_le(a, b),
        diff_le(b, c),
    ensures
        diff_le(a, c),
{
    lemma_str_le_trans(a.name@, b.name@, c.name@);
}

/// Moving an element one place to the left keeps the sequence's contents.
proof fn lemma_shift_left_multiset<A>(s: Seq<A>, j: int)
    requires
        1 <= j < s.len(),
    ensures
        s.remove(j).insert(j - 1, s[j]).to_multiset() =~= s.to_multiset(),
{
    assert(s.to_multiset().contains(s[j]));
}

/// Whether `a` comes no later than `b` in the package display order.
fn pkg_le_exec(a: &PackageDiff, b: &PackageDiff) -> (r: bool)
    ensures
        r == pkg_le(*a, *b),
{
    let a_some = a.pkg.is_some();
    let b_some = b.pkg.is_some();
    if a_some != b_some {
        a_some
    } else if a.deps.len() != b.deps.len() {
        a.deps.len() > b.deps.len()
    } else {
        str_le_exec(a.name.as_str(), b.name.as_str())
    }
}

/// Whether `a` comes no later than `b` in the dependency display order.
fn diff_le_exec(a: &StoreDiff, b: &StoreDiff) -> (r: bool)
    ensures
        r == diff_le(*a, *b),
{
    str_le_exec(a.name.as_str(), b.name.as_str())
}

proof fn lemma_str_le_skip(a: Seq<char>, b: Seq<char>, i: int)
    requires
        0 <= i <= a.len(),
        i <= b.len(),
        forall|k: int| 0 <= k < i ==> a[k] == b[k],
    ensures
        str_le(a, b) == str_le(a.skip(i), b.skip(i)),
    decreases i,
{
    if i > 0 {
        assert(a.len() > 0 && b.len() > 0 && a[0] == b[0]);
        assert(forall|k: int| 0 <= k < i - 1 ==> a.drop_first()[k] == b.drop_first()[k]);
        lemma_str_le_skip(a.drop_first(), b.drop_first(), i - 1);
        assert(a.drop_first().skip(i - 1) =~= a.skip(i));
        assert(b.drop_first().skip(i - 1) =~= b.skip(i));
    } else {
        assert(a.skip(0) =~= a);
        assert(b.skip(0) =~= b);
    }
}

/// Whether `a` comes no later than `b` in lexicographic order.
pub fn str_le_exec(a: &str, b: &str) -> (r: bool)
    ensures
        r == str_le(a@, b@),
{
    let la = a.unicode_len();
    let lb = b.unicode_len();
    let mut i: usize = 0;
    while i < la && i < lb
        invariant
            i <= la == a@.len(),
            i <= lb == b@.len(),
            forall|k: int| 0 <= k < i ==> a@[k] == b@[k],
        decreases la - i,
    {
        let ca = a.get_char(i);
        let cb = b.get_char(i);
        if ca != cb {
            proof {
                lemma_str_le_skip(a@, b@, i as int);
                assert(a@.skip(i as int)[0] == ca);
                assert(b@.skip(i as int)[0] == cb);
            }
            return ca < cb;
        }
        i = i + 1;
    }
    proof {
        if i >= la {
            lemma_str_le_skip(a@, b@, la as int);
            assert(a@.skip(la as int).len() == 0);
        } else {
            lemma_str_le_skip(a@, b@, lb as int);
            assert(b@.skip(lb as int).len() == 0);
            assert(a@.skip(lb as int).len() > 0);
        }
    }
    i >= la
}

/// Sorts the package changes for display: packages whose own version changed
/// first, then more dependency changes before fewer, then names ascending.
/// The contents are kept; only the order changes.
pub fn sort_package_diffs(diffs: &mut Vec<PackageDiff>)
    ensures
        final(diffs)@.len() == old(diffs)@.len(),
        final(diffs)@.to_multiset() == old(diffs)@.to_multiset(),
        pkg_sorted(final(diffs)@),
{
    let n = diffs.len();
    let mut i: usize = 1;
    if n < 2 {
        return ;
    }
    while i < n
        invariant
            1 <= i <= n == diffs@.len(),
            diffs@.to_multiset() == old(diffs)@.to_multiset(),
            forall|a: int, b: int| 0 <= a < b < i ==> pkg_le(diffs@[a], diffs@[b]),
        decreases n - i,
    {
        let mut j: usize = i;
        while j > 0 && !pkg_le_exec(&diffs[j - 1], &diffs[j])
            invariant
                0 <= j <= i < n == diffs@.len(),
                diffs@.to_multiset() == old(diffs)@.to_multiset(),
                forall|a: int, b: int|
                    0 <= a < b <= i && b != j ==> pkg_le(diffs@[a], diffs@[b]),
                forall|a: int| j < a <= i ==> pkg_le(diffs@[j as int], #[trigger] diffs@[a]),
            decreases j,
        {
            proof {
                lemma_pkg_le_total(diffs@[j - 1], diffs@[j as int]);
                lemma_shift_left_multiset(diffs@, j as int);
            }
            let ghost pre = diffs@;
            let x = diffs.remove(j);
            diffs.insert(j - 1, x);
            proof {
                assert(diffs@ =~= pre.remove(j as int).insert(j as int - 1, pre[j as int]));
                assert forall|a: int, b: int|
                    0 <= a < b <= i && b != j - 1 implies pkg_le(diffs@[a], diffs@[b]) by {
                    if a == j - 1 {
                        assert(diffs@[a] == pre[j as int]);
                        if b == j {
                            assert(diffs@[b] == pre[j - 1]);
                        } else {
                            assert(diffs@[b] == pre[b]);
                            lemma_pkg_le_trans(pre[j as int], pre[j - 1], pre[b]);
                        }
                    } else {
                        assert(diffs@[a] == if a == j { pre[j - 1] } else { pre[a] });
                        assert(diffs@[b] == if b == j { pre[j - 1] } else { pre[b] });
                    }
                }
                assert forall|a: int| j - 1 < a <= i implies pkg_le(
                    diffs@[j - 1],
                    #[trigger] diffs@[a],
                ) by {
                    assert(diffs@[j - 1] == pre[j as int]);
                    if a == j {
                        assert(diffs@[a] == pre[j - 1]);
                    } else {
                        assert(diffs@[a] == pre[a]);
                        lemma_pkg_le_trans(pre[j as int], pre[j - 1], pre[a]);
                    }
                }
            }
            j = j - 1;
        }
        proof {
            assert forall|a: int, b: int| 0 <= a < b <= i implies pkg_le(diffs@[a], diffs@[b]) by {
                if b == j && j > 0 {
                    if a < j - 1 {
                        lemma_pkg_le_trans(diffs@[a], diffs@[j - 1], diffs@[j as int]);
                    }
                }
            }
        }
        i = i + 1;
    }
}

/// Sorts the dependency changes of one package by name, ascending. The
/// contents are kept; only the order changes.
pub fn sort_store_diffs(diffs: &mut Vec<StoreDiff>)
    ensures
        final(diffs)@.len() == old(diffs)@.len(),
        final(diffs)@.to_multiset() == old(diffs)@.to_multiset(),
        diffs_sorted(final(diffs)@),
{
    let n = diffs.len();
    let mut i: usize = 1;
    if n < 2 {
        return ;
    }
    while i < n
        invariant
            1 <= i <= n == diffs@.len(),
            diffs@.to_multiset() == old(diffs)@.to_multiset(),
            forall|a: int, b: int| 0 <= a < b < i ==> diff_le(diffs@[a], diffs@[b]),
        decreases n - i,
    {
        let mut j: usize = i;
        while j > 0 && !diff_le_exec(&diffs[j - 1], &diffs[j])
            invariant
                0 <= j <= i < n == diffs@.len(),
                diffs@.to_multiset() == old(diffs)@.to_multiset(),
                forall|a: int, b: int|
                    0 <= a < b <= i && b != j ==> diff_le(diffs@[a], diffs@[b]),
                forall|a: int| j < a <= i ==> diff_le(diffs@[j as int], #[trigger] diffs@[a]),
            decreases j,
        {
            proof {
                lemma_diff_le_total(diffs@[j - 1], diffs@[j as int]);
                lemma_shift_left_multiset(diffs@, j as int);
            }
            let ghost pre = diffs@;
            let x = diffs.remove(j);
            diffs.insert(j - 1, x);
            proof {
                assert(diffs@ =~= pre.remove(j as int).insert(j as int - 1, pre[j as int]));
                assert forall|a: int, b: int|
                    0 <= a < b <= i && b != j - 1 implies diff_le(diffs@[a], diffs@[b]) by {
                    if a == j - 1 {
                        assert(diffs@[a] == pre[j as int]);
                        if b == j {
                            assert(diffs@[b] == pre[j - 1]);
                        } else {
                            assert(diffs@[b] == pre[b]);
                            lemma_diff_le_trans(pre[j as int], pre[j - 1], pre[b]);
                        }
                    } else {
                        assert(diffs@[a] == if a == j { pre[j - 1] } else { pre[a] });
                        assert(diffs@[b] == if b == j { pre[j - 1] } else { pre[b] });
                    }
                }
                assert forall|a: int| j - 1 < a <= i implies diff_le(
                    diffs@[j - 1],
                    #[trigger] diffs@[a],
                ) by {
                    assert(diffs@[j - 1] == pre[j as int]);
                    if a == j {
                        assert(diffs@[a] == pre[j - 1]);
                    } else {
                        assert(diffs@[a] == pre[a]);
                        lemma_diff_le_trans(pre[j as int], pre[j - 1], pre[a]);
                    }
                }
            }
            j = j - 1;
        }
        proof {
            assert forall|a: int, b: int| 0 <= a < b <= i implies diff_le(
                diffs@[a],
                diffs@[b],
            ) by {
                if b == j && j > 0 {
                    if a < j - 1 {
                        lemma_diff_le_trans(diffs@[a], diffs@[j - 1], diffs@[j as int]);
                    }
                }
            }
        }
        i = i + 1;
    }
}

/// For each character of the new version, whether the old version has the
/// same character at the same position: the unchanged part of a version is
/// shown plainly and the changed part stands out.
pub fn version_char_matches(from: &str, to: &str) -> (r: Vec<bool>)
    ensures
        r@.len() == to@.len(),
        forall|i: int|
            0 <= i < r@.len() ==> r@[i] == (i < from@.len() && from@[i] == to@[i]),
{
    let lf = from.unicode_len();
    let lt = to.unicode_len();
    let mut r: Vec<bool> = Vec::new();
    let mut i: usize = 0;
    while i < lt
        invariant
            i <= lt == to@.len(),
            lf == from@.len(),
            r@.len() == i,
            forall|k: int| 0 <= k < i ==> r@[k] == (k < from@.len() && from@[k] == to@[k]),
        decreases lt - i,
    {
        let m = i < lf && from.get_char(i) == to.get_char(i);
        r.push(m);
        i = i + 1;
    }
    r
}

} // verus!
