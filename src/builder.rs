//! Builds the master sequence from a walk: the walk's pre-order nesting is
//! kept, and each sibling group is sorted by the ordering engine.

use vstd::prelude::*;
use core::cmp::Ordering;
use crate::sort::{SortOptions, entry_order, is_le, sort_positions, ties_in_order};
use crate::tree::{WalkRecord, FileEntry, well_formed};
use crate::utils::format_permissions;

verus! {

/// The walk is in pre-order: the first record is at depth 1, every record
/// is at depth 1 or more, each is at most one level below the one before it,
/// and one that is one level below the one before it is that record's child,
/// which then is a directory.
pub open spec fn walk_well_formed(s: Seq<WalkRecord>) -> bool {
    &&& s.len() > 0 ==> s[0].depth == 1
    &&& forall|k: int| 0 <= k < s.len() ==> #[trigger] s[k].depth >= 1
    &&& forall|k: int|
        0 <= k && k + 1 < s.len() ==> #[trigger] s[k + 1].depth <= s[k].depth + 1
    &&& forall|k: int|
        0 <= k && k + 1 < s.len() && #[trigger] s[k + 1].depth == s[k].depth + 1 ==> s[k].is_dir
}

/// `[lo, hi)` is a run of whole subtrees whose roots are at depth `d`.
pub open spec fn forest(s: Seq<WalkRecord>, lo: int, hi: int, d: int) -> bool {
    &&& 0 <= lo <= hi <= s.len()
    &&& lo < hi ==> s[lo].depth == d
    &&& forall|x: int| lo <= x < hi ==> #[trigger] s[x].depth >= d
}

/// The first position from `k` on, and before `hi`, whose record is not
/// below the record at `h`; `hi` where there is none.
pub open spec fn scan_end(s: Seq<WalkRecord>, h: int, k: int, hi: int) -> int
    decreases hi - k,
{
    if k >= hi || s[k].depth <= s[h].depth {
        k
    } else {
        scan_end(s, h, k + 1, hi)
    }
}

/// The end of the subtree rooted at `h`, within `[h, hi)`.
pub open spec fn subtree_end(s: Seq<WalkRecord>, h: int, hi: int) -> int {
    scan_end(s, h, h + 1, hi)
}

proof fn lemma_scan_end(s: Seq<WalkRecord>, h: int, k: int, hi: int)
    requires
        0 <= h < k <= hi <= s.len(),
        forall|x: int| h < x < k ==> #[trigger] s[x].depth > s[h].depth,
    ensures
        k <= scan_end(s, h, k, hi) <= hi,
        forall|x: int| h < x < scan_end(s, h, k, hi) ==> #[trigger] s[x].depth > s[h].depth,
        scan_end(s, h, k, hi) < hi ==> s[scan_end(s, h, k, hi)].depth <= s[h].depth,
    decreases hi - k,
{
    if k < hi && s[k].depth > s[h].depth {
        lemma_scan_end(s, h, k + 1, hi);
    }
}

proof fn lemma_subtree_end(s: Seq<WalkRecord>, h: int, hi: int)
    requires
        0 <= h < hi <= s.len(),
    ensures
        h < subtree_end(s, h, hi) <= hi,
        forall|x: int| h < x < subtree_end(s, h, hi) ==> #[trigger] s[x].depth > s[h].depth,
        subtree_end(s, h, hi) < hi ==> s[subtree_end(s, h, hi)].depth <= s[h].depth,
{
    lemma_scan_end(s, h, h + 1, hi);
}

/// Two roots at one depth have subtrees that do not overlap.
proof fn lemma_roots_apart(s: Seq<WalkRecord>, h1: int, h2: int, hi: int)
    requires
        0 <= h1 < h2 < hi <= s.len(),
        s[h1].depth == s[h2].depth,
    ensures
        subtree_end(s, h1, hi) <= h2,
{
    lemma_subtree_end(s, h1, hi);
}

/// `x` lies in the subtree of one of the first `i` roots in `hs`.
pub open spec fn under_some(s: Seq<WalkRecord>, hs: Seq<usize>, i: int, x: int, hi: int) -> bool {
    exists|j: int| 0 <= j < i && #[trigger] hs[j] <= x < subtree_end(s, hs[j] as int, hi)
}

/// Depth of the record at output position `k`.
pub open spec fn depth_at(s: Seq<WalkRecord>, a: Seq<usize>, k: int) -> int {
    s[a[k] as int].depth as int
}

/// The records that `a` points at, in its order, form a pre-order sequence
/// whose roots are at depth `d`.
pub open spec fn shaped(s: Seq<WalkRecord>, a: Seq<usize>, d: int) -> bool {
    &&& a.len() > 0 ==> depth_at(s, a, 0) == d
    &&& forall|k: int| 0 <= k < a.len() ==> #[trigger] depth_at(s, a, k) >= d
    &&& forall|k: int|
        0 <= k && k + 1 < a.len() ==> #[trigger] depth_at(s, a, k + 1) <= depth_at(s, a, k) + 1
    &&& forall|k: int|
        0 <= k && k + 1 < a.len() && #[trigger] depth_at(s, a, k + 1) == depth_at(s, a, k) + 1
            ==> s[a[k] as int].is_dir
}

/// Output positions `i < j` hold consecutive members of one sibling group:
/// same depth, and everything between them deeper.
pub open spec fn siblings(s: Seq<WalkRecord>, a: Seq<usize>, i: int, j: int) -> bool {
    &&& 0 <= i < j < a.len()
    &&& depth_at(s, a, i) == depth_at(s, a, j)
    &&& forall|c: int| i < c < j ==> #[trigger] depth_at(s, a, c) > depth_at(s, a, i)
}

/// Each sibling group is in order, and siblings that compare equal keep
/// their walk order.
pub open spec fn siblings_sorted(s: Seq<WalkRecord>, a: Seq<usize>, o: SortOptions) -> bool {
    forall|i: int, j: int|
        #[trigger] siblings(s, a, i, j) ==> is_le(entry_order(s[a[i] as int], s[a[j] as int], o)) && (
        entry_order(s[a[i] as int], s[a[j] as int], o) == Ordering::Equal ==> a[i] < a[j])
}

/// Every entry after output position `k` up to `c` is below the entry at `k`.
pub open spec fn below_run(s: Seq<WalkRecord>, a: Seq<usize>, k: int, c: int) -> bool {
    forall|x: int| k < x <= c ==> #[trigger] depth_at(s, a, x) > depth_at(s, a, k)
}

/// Nesting is kept: the entry at output position `c` lies in the output
/// subtree of the entry at `k` exactly when its record lies in the walk
/// subtree (within `[.., hi)`) of the other's record.
pub open spec fn nesting_kept(s: Seq<WalkRecord>, a: Seq<usize>, hi: int) -> bool {
    forall|k: int, c: int|
        0 <= k < c < a.len() ==> (#[trigger] below_run(s, a, k, c) <==> a[k] < a[c] < subtree_end(
            s,
            a[k] as int,
            hi,
        ))
}

/// A subtree inside another subtree ends no later than the other.
proof fn lemma_subtree_nested(s: Seq<WalkRecord>, r: int, x: int, hi: int)
    requires
        0 <= r <= x < subtree_end(s, r, hi),
        r < hi <= s.len(),
    ensures
        subtree_end(s, x, hi) <= subtree_end(s, r, hi),
{
    lemma_subtree_end(s, r, hi);
    lemma_subtree_end(s, x, hi);
    let er = subtree_end(s, r, hi);
    if subtree_end(s, x, hi) > er {
        assert(s[er].depth > s[x].depth);
        if x > r {
            assert(s[x].depth > s[r].depth);
        }
    }
}

proof fn lemma_scan_end_bound(s: Seq<WalkRecord>, x: int, k: int, e: int, hi: int)
    requires
        0 <= x < k <= e <= hi <= s.len(),
        e < hi ==> s[e].depth <= s[x].depth,
    ensures
        scan_end(s, x, k, e) == scan_end(s, x, k, hi),
    decreases e - k,
{
    if k < e && s[k].depth > s[x].depth {
        lemma_scan_end_bound(s, x, k + 1, e, hi);
    }
}

/// Inside the subtree of `h`, subtrees end at the same place whether the
/// scan stops at the end of `h`'s subtree or further on.
proof fn lemma_subtree_end_bound(s: Seq<WalkRecord>, h: int, x: int, hi: int)
    requires
        0 <= h < x < subtree_end(s, h, hi),
        hi <= s.len(),
    ensures
        subtree_end(s, x, subtree_end(s, h, hi)) == subtree_end(s, x, hi),
{
    lemma_subtree_end(s, h, hi);
    let e = subtree_end(s, h, hi);
    assert(s[x].depth > s[h].depth);
    lemma_scan_end_bound(s, x, x + 1, e, hi);
}

/// A sequence without repeats, inside `[lo, hi)`, holding all of it, is as
/// long as that range.
proof fn lemma_covering_length(a: Seq<usize>, lo: int, hi: int)
    requires
        lo <= hi,
        a.no_duplicates(),
        forall|k: int| 0 <= k < a.len() ==> lo <= #[trigger] a[k] < hi,
        forall|x: int| lo <= x < hi ==> #[trigger] a.contains(x as usize),
        hi <= usize::MAX + 1,
        lo >= 0,
    ensures
        a.len() == hi - lo,
    decreases hi - lo,
{
    if hi == lo {
        if a.len() > 0 {
            assert(lo <= a[0] < hi);
        }
    } else {
        assert(a.contains((hi - 1) as usize));
        let k = choose|k: int| 0 <= k < a.len() && a[k] == (hi - 1) as usize;
        let b = a.remove(k);
        assert forall|m: int| 0 <= m < b.len() implies lo <= #[trigger] b[m] < hi - 1 by {
            if m < k {
                assert(b[m] == a[m]);
            } else {
                assert(b[m] == a[m + 1]);
            }
        }
        assert forall|x: int| lo <= x < hi - 1 implies #[trigger] b.contains(x as usize) by {
            assert(a.contains(x as usize));
            let m = choose|m: int| 0 <= m < a.len() && a[m] == x as usize;
            if m < k {
                assert(b[m] == x as usize);
            } else {
                assert(b[m - 1] == x as usize);
            }
        }
        assert(b.no_duplicates()) by {
            assert forall|p: int, q: int| 0 <= p < b.len() && 0 <= q < b.len() && p != q implies b[p]
                != b[q] by {
                let pp = if p < k { p } else { p + 1 };
                let qq = if q < k { q } else { q + 1 };
                assert(b[p] == a[pp] && b[q] == a[qq]);
            }
        }
        lemma_covering_length(b, lo, hi - 1);
    }
}

/// The sorted roots `hs` of the forest `[lo, hi)` at depth `d`: inside it,
/// at depth `d`, without repeats, and in order without natural sort.
pub open spec fn roots(s: Seq<WalkRecord>, hs: Seq<usize>, lo: int, hi: int, d: int, o: SortOptions) -> bool {
    &&& hs.no_duplicates()
    &&& forall|j: int| 0 <= j < hs.len() ==> lo <= #[trigger] hs[j] < hi
    &&& forall|j: int| 0 <= j < hs.len() ==> #[trigger] s[hs[j] as int].depth == d
    &&& !o.natural_sort ==> crate::sort::positions_sorted(s, hs, o)
    &&& !o.natural_sort ==> ties_in_order(s, hs, o)
}

/// `b` holds the first `i` roots of `hs`, each followed by its subtree, in
/// master order.
pub open spec fn emitted(s: Seq<WalkRecord>, hs: Seq<usize>, i: int, b: Seq<usize>, hi: int, d: int, o: SortOptions) -> bool {
    &&& forall|m: int| 0 <= m < b.len() ==> under_some(s, hs, i, #[trigger] b[m] as int, hi)
    &&& forall|j: int, x: int|
        0 <= j < i && hs[j] <= x < subtree_end(s, hs[j] as int, hi) ==> #[trigger] b.contains(
            x as usize,
        ) && #[trigger] hs[j] >= 0
    &&& b.no_duplicates()
    &&& shaped(s, b, d)
    &&& !o.natural_sort ==> siblings_sorted(s, b, o)
    &&& nesting_kept(s, b, hi)
    &&& i == 0 ==> b.len() == 0
    &&& i > 0 ==> exists|l: int|
        0 <= l < b.len() && b[l] == hs[i - 1] && forall|c: int|
            l < c < b.len() ==> #[trigger] depth_at(s, b, c) > d
}

proof fn lemma_append_nesting(
    s: Seq<WalkRecord>,
    hs: Seq<usize>,
    i: int,
    b0: Seq<usize>,
    ah: Seq<usize>,
    lo: int,
    hi: int,
    d: int,
    o: SortOptions,
)
    requires
        walk_well_formed(s),
        forest(s, lo, hi, d),
        d >= 1,
        0 <= i < hs.len(),
        roots(s, hs, lo, hi, d, o),
        forall|m: int| 0 <= m < b0.len() ==> under_some(s, hs, i, #[trigger] b0[m] as int, hi),
        forall|k: int| 0 <= k < b0.len() ==> #[trigger] depth_at(s, b0, k) >= d,
        nesting_kept(s, b0, hi),
        ({
            let h = hs[i] as int;
            let e = subtree_end(s, h, hi);
            &&& ah.len() == e - h - 1
            &&& forall|k: int| 0 <= k < ah.len() ==> h + 1 <= #[trigger] ah[k] < e
            &&& forall|k: int| 0 <= k < ah.len() ==> #[trigger] depth_at(s, ah, k) >= d + 1
            &&& nesting_kept(s, ah, e)
        }),
    ensures
        nesting_kept(s, b0.push(hs[i]) + ah, hi),
{
    let h = hs[i];
    let e = subtree_end(s, h as int, hi);
    let b = b0.push(h) + ah;
    let l0 = b0.len() as int;
    lemma_subtree_end(s, h as int, hi);
    assert forall|k: int| 0 <= k < b.len() implies b[k] == (if k < l0 {
        b0[k]
    } else if k == l0 {
        h
    } else {
        ah[k - l0 - 1]
    }) by {}
    assert forall|k: int, c: int| 0 <= k < c < b.len() implies (#[trigger] below_run(s, b, k, c)
        <==> b[k] < b[c] < subtree_end(s, b[k] as int, hi)) by {
        if c < l0 {
            assert(below_run(s, b, k, c) == below_run(s, b0, k, c)) by {
                if below_run(s, b0, k, c) {
                    assert forall|x: int| k < x <= c implies #[trigger] depth_at(s, b, x) > depth_at(
                        s,
                        b,
                        k,
                    ) by {
                        assert(depth_at(s, b0, x) > depth_at(s, b0, k));
                    }
                }
                if below_run(s, b, k, c) {
                    assert forall|x: int| k < x <= c implies #[trigger] depth_at(s, b0, x) > depth_at(
                        s,
                        b0,
                        k,
                    ) by {
                        assert(depth_at(s, b, x) > depth_at(s, b, k));
                    }
                }
            }
            assert(below_run(s, b0, k, c) <==> b0[k] < b0[c] < subtree_end(s, b0[k] as int, hi));
        } else if k < l0 {
            assert(depth_at(s, b0, k) >= d);
            assert(depth_at(s, b, l0) == d);
            assert(!below_run(s, b, k, c));
            assert(under_some(s, hs, i, b0[k] as int, hi));
            let j = choose|j: int| 0 <= j < i && #[trigger] hs[j] <= b0[k] < subtree_end(s, hs[j] as int, hi);
            assert(hs[j] != h);
            lemma_subtree_nested(s, hs[j] as int, b0[k] as int, hi);
            if hs[j] < h {
                lemma_roots_apart(s, hs[j] as int, h as int, hi);
            } else {
                lemma_roots_apart(s, h as int, hs[j] as int, hi);
            }
            if c > l0 {
                assert(h < ah[c - l0 - 1] < e);
            }
        } else if k == l0 {
            assert forall|x: int| k < x <= c implies #[trigger] depth_at(s, b, x) > depth_at(s, b, k) by {
                assert(depth_at(s, ah, x - l0 - 1) >= d + 1);
            }
            assert(h < ah[c - l0 - 1] < e);
        } else {
            let (kk, cc) = (k - l0 - 1, c - l0 - 1);
            assert(below_run(s, b, k, c) == below_run(s, ah, kk, cc)) by {
                if below_run(s, ah, kk, cc) {
                    assert forall|x: int| k < x <= c implies #[trigger] depth_at(s, b, x) > depth_at(
                        s,
                        b,
                        k,
                    ) by {
                        assert(depth_at(s, ah, x - l0 - 1) > depth_at(s, ah, kk));
                    }
                }
                if below_run(s, b, k, c) {
                    assert forall|x: int| kk < x <= cc implies #[trigger] depth_at(s, ah, x) > depth_at(
                        s,
                        ah,
                        kk,
                    ) by {
                        assert(depth_at(s, b, x + l0 + 1) > depth_at(s, b, k));
                    }
                }
            }
            assert(below_run(s, ah, kk, cc) <==> ah[kk] < ah[cc] < subtree_end(s, ah[kk] as int, e));
            lemma_subtree_end_bound(s, h as int, ah[kk] as int, hi);
        }
    }
}

proof fn lemma_append_block(
    s: Seq<WalkRecord>,
    hs: Seq<usize>,
    i: int,
    b0: Seq<usize>,
    ah: Seq<usize>,
    lo: int,
    hi: int,
    d: int,
    o: SortOptions,
)
    requires
        walk_well_formed(s),
        forest(s, lo, hi, d),
        d >= 1,
        0 <= i < hs.len(),
        roots(s, hs, lo, hi, d, o),
        emitted(s, hs, i, b0, hi, d, o),
        ({
            let h = hs[i] as int;
            let e = subtree_end(s, h, hi);
            &&& ah.len() == e - h - 1
            &&& forall|k: int| 0 <= k < ah.len() ==> h + 1 <= #[trigger] ah[k] < e
            &&& forall|x: int| h + 1 <= x < e ==> #[trigger] ah.contains(x as usize)
            &&& ah.no_duplicates()
            &&& shaped(s, ah, d + 1)
            &&& !o.natural_sort ==> siblings_sorted(s, ah, o)
            &&& nesting_kept(s, ah, e)
        }),
    ensures
        emitted(s, hs, i + 1, b0.push(hs[i]) + ah, hi, d, o),
{
    let h = hs[i];
    let e = subtree_end(s, h as int, hi);
    let b = b0.push(h) + ah;
    let l0 = b0.len() as int;
    lemma_subtree_end(s, h as int, hi);
    assert forall|k: int| 0 <= k < b.len() implies b[k] == (if k < l0 {
        b0[k]
    } else if k == l0 {
        h
    } else {
        ah[k - l0 - 1]
    }) by {}
    assert forall|m: int| 0 <= m < l0 implies !(h <= #[trigger] b0[m] < e) by {
        assert(under_some(s, hs, i, b0[m] as int, hi));
        let j = choose|j: int| 0 <= j < i && #[trigger] hs[j] <= b0[m] < subtree_end(s, hs[j] as int, hi);
        assert(hs[j] != h);
        if hs[j] < h {
            lemma_roots_apart(s, hs[j] as int, h as int, hi);
        } else {
            lemma_roots_apart(s, h as int, hs[j] as int, hi);
        }
    }
    assert forall|m: int| 0 <= m < b.len() implies under_some(s, hs, i + 1, #[trigger] b[m] as int, hi) by {
        if m < l0 {
            assert(under_some(s, hs, i, b0[m] as int, hi));
            let j = choose|j: int| 0 <= j < i && #[trigger] hs[j] <= b0[m] < subtree_end(s, hs[j] as int, hi);
            assert(hs[j] <= b[m] < subtree_end(s, hs[j] as int, hi));
        } else {
            assert(hs[i] <= b[m] < subtree_end(s, hs[i] as int, hi));
        }
    }
    assert forall|j: int, x: int|
        0 <= j < i + 1 && hs[j] <= x < subtree_end(s, hs[j] as int, hi) implies #[trigger] b.contains(
            x as usize,
        ) && #[trigger] hs[j] >= 0 by {
        if j < i {
            assert(b0.contains(x as usize));
            let m = choose|m: int| 0 <= m < b0.len() && b0[m] == x as usize;
            assert(b[m] == x as usize);
        } else if x == h {
            assert(b[l0] == x as usize);
        } else {
            assert(ah.contains(x as usize));
            let m = choose|m: int| 0 <= m < ah.len() && ah[m] == x as usize;
            assert(b[l0 + 1 + m] == x as usize);
        }
    }
    assert(b.no_duplicates()) by {
        assert forall|p: int, q: int| 0 <= p < b.len() && 0 <= q < b.len() && p != q implies b[p]
            != b[q] by {
            let (p1, q1) = if p < q { (p, q) } else { (q, p) };
            if q1 < l0 {
                assert(b0[p1] != b0[q1]);
            } else if q1 == l0 {
                assert(!(h <= b0[p1] < e));
            } else if p1 < l0 {
                assert(!(h <= b0[p1] < e));
                assert(h < ah[q1 - l0 - 1] < e);
            } else if p1 == l0 {
                assert(h < ah[q1 - l0 - 1]);
            } else {
                assert(ah[p1 - l0 - 1] != ah[q1 - l0 - 1]);
            }
        }
    }
    assert(shaped(s, b, d)) by {
        assert forall|k: int| 0 <= k < b.len() implies #[trigger] depth_at(s, b, k) >= d by {
            if k < l0 {
                assert(depth_at(s, b0, k) >= d);
            } else if k > l0 {
                assert(depth_at(s, ah, k - l0 - 1) >= d + 1);
            }
        }
        assert forall|k: int| 0 <= k && k + 1 < b.len() implies #[trigger] depth_at(s, b, k + 1)
            <= depth_at(s, b, k) + 1 by {
            if k + 1 < l0 {
                assert(depth_at(s, b0, k + 1) <= depth_at(s, b0, k) + 1);
            } else if k + 1 == l0 {
                assert(depth_at(s, b0, k) >= d);
            } else if k == l0 {
                assert(depth_at(s, ah, 0) == d + 1);
            } else {
                let m = k - l0 - 1;
                assert(depth_at(s, ah, m + 1) <= depth_at(s, ah, m) + 1);
            }
        }
        assert forall|k: int|
            0 <= k && k + 1 < b.len() && #[trigger] depth_at(s, b, k + 1) == depth_at(s, b, k) + 1
                implies s[b[k] as int].is_dir by {
            if k + 1 < l0 {
                assert(depth_at(s, b0, k + 1) == depth_at(s, b0, k) + 1);
            } else if k + 1 == l0 {
                assert(depth_at(s, b0, k) >= d);
            } else if k == l0 {
                assert(ah.contains((h + 1) as usize));
                let m = choose|m: int| 0 <= m < ah.len() && ah[m] == (h + 1) as usize;
                assert(h + 1 < e);
                assert(s[h as int + 1].depth > s[h as int].depth);
                assert(s[h as int + 1].depth <= s[h as int].depth + 1);
                assert(s[h as int + 1].depth == s[h as int].depth + 1);
            } else {
                let m = k - l0 - 1;
                assert(depth_at(s, ah, m + 1) == depth_at(s, ah, m) + 1);
            }
        }
        if l0 == 0 {
            assert(depth_at(s, b, 0) == d);
        } else {
            assert(depth_at(s, b, 0) == depth_at(s, b0, 0));
        }
    }
    if !o.natural_sort {
        assert forall|p: int, q: int| #[trigger] siblings(s, b, p, q) implies is_le(
            entry_order(s[b[p] as int], s[b[q] as int], o),
        ) && (entry_order(s[b[p] as int], s[b[q] as int], o) == Ordering::Equal ==> b[p] < b[q]) by {
            if q < l0 {
                assert forall|c: int| p < c < q implies #[trigger] depth_at(s, b0, c) > depth_at(
                    s,
                    b0,
                    p,
                ) by {
                    assert(depth_at(s, b, c) > depth_at(s, b, p));
                }
                assert(siblings(s, b0, p, q));
            } else if q == l0 {
                let l = choose|l: int|
                    0 <= l < b0.len() && b0[l] == hs[i - 1] && forall|c: int|
                        l < c < b0.len() ==> #[trigger] depth_at(s, b0, c) > d;
                if p < l {
                    assert(depth_at(s, b, l) == d);
                    assert(depth_at(s, b, l) > depth_at(s, b, p));
                } else if p > l {
                    assert(depth_at(s, b0, p) > d);
                } else {
                    let m = i - 1;
                    assert(is_le(entry_order(s[hs[m] as int], s[hs[m + 1] as int], o)));
                    if entry_order(s[hs[m] as int], s[hs[m + 1] as int], o) == Ordering::Equal {
                        assert(hs[m] < hs[m + 1]);
                    }
                }
            } else if p < l0 {
                assert(depth_at(s, b, l0) == d);
                assert(depth_at(s, b0, p) >= d);
                assert(depth_at(s, b, l0) > depth_at(s, b, p));
            } else if p == l0 {
                assert(depth_at(s, ah, q - l0 - 1) >= d + 1);
            } else {
                let (pp, qq) = (p - l0 - 1, q - l0 - 1);
                assert forall|c: int| pp < c < qq implies #[trigger] depth_at(s, ah, c) > depth_at(
                    s,
                    ah,
                    pp,
                ) by {
                    assert(depth_at(s, b, c + l0 + 1) > depth_at(s, b, p));
                }
                assert(siblings(s, ah, pp, qq));
            }
        }
    }
    assert(b[l0] == hs[i]);
    assert forall|c: int| l0 < c < b.len() implies #[trigger] depth_at(s, b, c) > d by {
        assert(depth_at(s, ah, c - l0 - 1) >= d + 1);
    }
    lemma_append_nesting(s, hs, i, b0, ah, lo, hi, d, o);
}

fn find_end(records: &Vec<WalkRecord>, h: usize, hi: usize) -> (r: usize)
    requires
        h < hi <= records@.len(),
    ensures
        r == subtree_end(records@, h as int, hi as int),
        h < r <= hi,
        forall|x: int| h < x < r ==> #[trigger] records@[x].depth > records@[h as int].depth,
        r < hi ==> records@[r as int].depth <= records@[h as int].depth,
{
    proof {
        lemma_subtree_end(records@, h as int, hi as int);
    }
    let d = records[h].depth;
    let mut k = h + 1;
    while k < hi && records[k].depth > d
        invariant
            h < k <= hi,
            hi <= records@.len(),
            d == records@[h as int].depth,
            scan_end(records@, h as int, h + 1, hi as int) == scan_end(
                records@,
                h as int,
                k as int,
                hi as int,
            ),
        decreases hi - k,
    {
        k = k + 1;
    }
    k
}

/// Appends to `out` the positions of the forest `[lo, hi)` at depth `d` in
/// master order: its roots sorted, each followed by its own subtree,
/// arranged the same way.
#[verifier::rlimit(50)]
fn arrange(
    records: &Vec<WalkRecord>,
    lo: usize,
    hi: usize,
    d: usize,
    options: &SortOptions,
    out: &mut Vec<usize>,
)
    requires
        walk_well_formed(records@),
        forest(records@, lo as int, hi as int, d as int),
        d >= 1,
    ensures
        ({
            let a = final(out)@.subrange(old(out)@.len() as int, final(out)@.len() as int);
            &&& final(out)@.len() >= old(out)@.len()
            &&& final(out)@.subrange(0, old(out)@.len() as int) == old(out)@
            &&& a.len() == hi - lo
            &&& forall|k: int| 0 <= k < a.len() ==> lo <= #[trigger] a[k] < hi
            &&& forall|x: int| lo <= x < hi ==> #[trigger] a.contains(x as usize)
            &&& a.no_duplicates()
            &&& shaped(records@, a, d as int)
            &&& !options.natural_sort ==> siblings_sorted(records@, a, *options)
            &&& nesting_kept(records@, a, hi as int)
        }),
    decreases hi - lo,
{
    let ghost s = records@;
    let ghost base = out@.len() as int;
    let ghost start = out@;
    if lo >= hi {
        proof {
            let a = out@.subrange(base, out@.len() as int);
            assert(a.len() == 0);
            assert(out@.subrange(0, base) =~= start);
        }
        return;
    }
    // The roots of the forest, in walk order.
    let mut heads: Vec<usize> = Vec::new();
    let mut k: usize = lo;
    while k < hi
        invariant
            lo <= k <= hi,
            forest(s, lo as int, hi as int, d as int),
            hi <= s.len(),
            s == records@,
            k < hi ==> s[k as int].depth == d,
            forall|j: int| 0 <= j < heads@.len() ==> lo <= #[trigger] heads@[j] < k,
            forall|j: int| 0 <= j < heads@.len() ==> #[trigger] s[heads@[j] as int].depth == d,
            forall|i: int, j: int| 0 <= i < j < heads@.len() ==> heads@[i] < heads@[j],
            forall|x: int|
                lo <= x < k ==> exists|j: int|
                    0 <= j < heads@.len() && heads@[j] <= x < subtree_end(
                        s,
                        #[trigger] heads@[j] as int,
                        hi as int,
                    ) && #[trigger] s[x].depth >= 0,
        decreases hi - k,
    {
        let ghost before = heads@;
        heads.push(k);
        let e = find_end(records, k, hi);
        proof {
            assert(heads@[before.len() as int] == k);
            assert forall|x: int| lo <= x < e implies exists|j: int|
                0 <= j < heads@.len() && heads@[j] <= x < subtree_end(
                    s,
                    #[trigger] heads@[j] as int,
                    hi as int,
                ) && #[trigger] s[x].depth >= 0 by {
                if x < k {
                    let j = choose|j: int|
                        0 <= j < before.len() && before[j] <= x < subtree_end(
                            s,
                            #[trigger] before[j] as int,
                            hi as int,
                        ) && #[trigger] s[x].depth >= 0;
                    assert(heads@[j] == before[j]);
                } else {
                    assert(heads@[before.len() as int] <= x);
                }
            }
            if e < hi {
                assert(s[e as int].depth >= d);
            }
        }
        k = e;
    }
    let ghost walk_heads = heads@;
    sort_positions(records, &mut heads, options);
    let ghost hs = heads@;
    proof {
        assert(walk_heads.no_duplicates());
        walk_heads.lemma_multiset_has_no_duplicates();
        hs.lemma_multiset_has_no_duplicates_conv();
        walk_heads.to_multiset_ensures();
        hs.to_multiset_ensures();
        assert forall|j: int| 0 <= j < hs.len() implies lo <= #[trigger] hs[j] < hi
            && s[hs[j] as int].depth == d by {
            assert(hs.contains(hs[j]));
            assert(hs.to_multiset().count(hs[j]) > 0);
            assert(walk_heads.to_multiset().count(hs[j]) > 0);
            assert(walk_heads.contains(hs[j]));
        }
    }
    let n = heads.len();
    let mut i: usize = 0;
    proof {
        assert(out@.subrange(base, out@.len() as int) =~= Seq::<usize>::empty());
    }
    while i < n
        invariant
            i <= n,
            n == hs.len(),
            heads@ == hs,
            s == records@,
            walk_well_formed(s),
            forest(s, lo as int, hi as int, d as int),
            d >= 1,
            lo < hi,
            roots(s, hs, lo as int, hi as int, d as int, *options),
            0 <= base <= out@.len(),
            out@.subrange(0, base) == start,
            emitted(s, hs, i as int, out@.subrange(base, out@.len() as int), hi as int, d as int, *options),
        decreases n - i,
    {
        let h = heads[i];
        let ghost b0 = out@.subrange(base, out@.len() as int);
        let ghost out0 = out@;
        out.push(h);
        let ghost out1 = out@;
        let e = find_end(records, h, hi);
        if h + 1 < e {
            proof {
                assert(s[h + 1].depth > d);
                assert(s[h as int + 1].depth <= s[h as int].depth + 1);
                assert(forest(s, h + 1, e as int, d + 1));
            }
            arrange(records, h + 1, e, d + 1, options, out);
        }
        proof {
            let ah = out@.subrange(out1.len() as int, out@.len() as int);
            let b = out@.subrange(base, out@.len() as int);
            assert(out@.subrange(0, out1.len() as int) == out1);
            assert forall|x: int| 0 <= x < out1.len() implies out@[x] == out1[x] by {
                assert(out@.subrange(0, out1.len() as int)[x] == out1[x]);
            }
            assert(out1 =~= out0.push(h));
            let l0 = b0.len() as int;
            assert(out1.len() == base + l0 + 1);
            assert forall|k: int| 0 <= k < b.len() implies b[k] == (b0.push(h) + ah)[k] by {
                assert(b[k] == out@[base + k]);
                if k < l0 {
                    assert(out1[base + k] == out0[base + k]);
                    assert(b0[k] == out0[base + k]);
                } else if k == l0 {
                    assert(out1[base + k] == h);
                } else {
                    assert(ah[k - l0 - 1] == out@[out1.len() + (k - l0 - 1)]);
                }
            }
            assert(b.len() == (b0.push(h) + ah).len());
            assert(b =~= b0.push(h) + ah);
            assert(out@.subrange(0, base) =~= start) by {
                assert forall|x: int| 0 <= x < base implies out@[x] == start[x] by {
                    assert(out0.subrange(0, base)[x] == start[x]);
                    assert(out0[x] == start[x]);
                    assert(out1[x] == out0[x]);
                }
            }
            if h + 1 >= e {
                assert(ah =~= Seq::<usize>::empty());
            }
            lemma_append_block(s, hs, i as int, b0, ah, lo as int, hi as int, d as int, *options);
        }
        i = i + 1;
    }
    proof {
        let b = out@.subrange(base, out@.len() as int);
        assert(emitted(s, hs, n as int, b, hi as int, d as int, *options));
        assert forall|x: int| lo <= x < hi implies #[trigger] b.contains(x as usize) by {
            let j = choose|j: int|
                0 <= j < walk_heads.len() && walk_heads[j] <= x < subtree_end(
                    s,
                    #[trigger] walk_heads[j] as int,
                    hi as int,
                ) && #[trigger] s[x].depth >= 0;
            assert(walk_heads.contains(walk_heads[j]));
            assert(walk_heads.to_multiset().count(walk_heads[j]) > 0);
            assert(hs.to_multiset().count(walk_heads[j]) > 0);
            assert(hs.contains(walk_heads[j]));
            let jj = choose|jj: int| 0 <= jj < hs.len() && hs[jj] == walk_heads[j];
            assert(b.contains(x as usize) && hs[jj] >= 0);
        }
        assert forall|m: int| 0 <= m < b.len() implies lo <= #[trigger] b[m] < hi by {
            assert(under_some(s, hs, n as int, b[m] as int, hi as int));
            let j = choose|j: int|
                0 <= j < n && #[trigger] hs[j] <= b[m] < subtree_end(s, hs[j] as int, hi as int);
            lemma_subtree_end(s, hs[j] as int, hi as int);
        }
        lemma_covering_length(b, lo as int, hi as int);
    }
}

/// `order` lists each position of the walk `s` once, and the records in its
/// order form a well-formed pre-order sequence whose sibling groups are in
/// order (without natural sort), each subtree kept whole under its root.
pub open spec fn master_order(s: Seq<WalkRecord>, order: Seq<usize>, o: SortOptions) -> bool {
    &&& order.len() == s.len()
    &&& forall|k: int| 0 <= k < order.len() ==> #[trigger] order[k] < s.len()
    &&& forall|x: int| 0 <= x < s.len() ==> #[trigger] order.contains(x as usize)
    &&& order.no_duplicates()
    &&& shaped(s, order, 1)
    &&& !o.natural_sort ==> siblings_sorted(s, order, o)
    &&& nesting_kept(s, order, s.len() as int)
}

/// Positions of the walk's records in master order.
pub fn build_order(records: &Vec<WalkRecord>, options: &SortOptions) -> (order: Vec<usize>)
    requires
        walk_well_formed(records@),
    ensures
        master_order(records@, order@, *options),
{
    let mut out: Vec<usize> = Vec::new();
    let n = records.len();
    arrange(records, 0, n, 1, options, &mut out);
    proof {
        assert(out@.subrange(0, out@.len() as int) =~= out@);
    }
    out
}

/// The type character of the permission column: `d` for a directory.
pub open spec fn type_char(is_dir: bool) -> char {
    if is_dir {
        'd'
    } else {
        '-'
    }
}

/// `e` is the node for record `r`: collapsed, with the size only when sizes
/// are shown and `r` is a file, and the permissions only when they are shown
/// and known.
pub open spec fn node_of(e: FileEntry, r: WalkRecord, with_size: bool, with_permissions: bool) -> bool {
    &&& e.path == r.path
    &&& e.depth == r.depth
    &&& e.is_dir == r.is_dir
    &&& !e.is_expanded
    &&& e.size == (if with_size && !r.is_dir {
        r.len
    } else {
        None
    })
    &&& e.permissions.is_some() == (with_permissions && r.mode.is_some())
    &&& e.permissions.is_some() ==> e.permissions->0@ == seq![type_char(r.is_dir)]
        + crate::utils::permission_text(r.mode->0)
    &&& e.git_status == r.status
}

fn node_from(r: &WalkRecord, with_size: bool, with_permissions: bool) -> (e: FileEntry)
    ensures
        node_of(e, *r, with_size, with_permissions),
{
    let permissions = match r.mode {
        Some(mode) if with_permissions => {
            proof {
                reveal_strlit("d");
                reveal_strlit("-");
            }
            let mut text = String::from_str(if r.is_dir { "d" } else { "-" });
            assert(text@ =~= seq![type_char(r.is_dir)]);
            let bits = format_permissions(mode);
            text.append(bits.as_str());
            assert(text@ =~= seq![type_char(r.is_dir)] + crate::utils::permission_text(mode));
            Some(text)
        },
        _ => None,
    };
    FileEntry {
        path: r.path.clone(),
        depth: r.depth,
        is_dir: r.is_dir,
        is_expanded: false,
        size: if with_size && !r.is_dir {
            r.len
        } else {
            None
        },
        permissions,
        git_status: r.status,
    }
}

/// Builds the master sequence of a walk: the records in master order, each
/// made a collapsed node.
pub fn build_master(
    records: &Vec<WalkRecord>,
    options: &SortOptions,
    with_size: bool,
    with_permissions: bool,
) -> (master: Vec<FileEntry>)
    requires
        walk_well_formed(records@),
    ensures
        well_formed(master@),
        exists|order: Seq<usize>|
            master_order(records@, order, *options) && order.len() == master@.len() && forall|k: int|
                0 <= k < order.len() ==> node_of(
                    #[trigger] master@[k],
                    records@[order[k] as int],
                    with_size,
                    with_permissions,
                ),
{
    let order = build_order(records, options);
    let ghost s = records@;
    let mut master: Vec<FileEntry> = Vec::new();
    let mut k: usize = 0;
    while k < order.len()
        invariant
            k <= order@.len(),
            master_order(s, order@, *options),
            s == records@,
            master@.len() == k,
            forall|m: int|
                0 <= m < k ==> node_of(
                    #[trigger] master@[m],
                    s[order@[m] as int],
                    with_size,
                    with_permissions,
                ),
        decreases order@.len() - k,
    {
        let e = node_from(&records[order[k]], with_size, with_permissions);
        master.push(e);
        k = k + 1;
    }
    proof {
        let m = master@;
        let o = order@;
        assert forall|x: int| 0 <= x < m.len() implies #[trigger] m[x].depth == depth_at(s, o, x)
            && m[x].is_dir == s[o[x] as int].is_dir by {
            assert(node_of(m[x], s[o[x] as int], with_size, with_permissions));
        }
        assert(well_formed(m)) by {
            assert forall|x: int| 0 <= x < m.len() implies #[trigger] m[x].depth >= 1 by {
                assert(depth_at(s, o, x) >= 1);
            }
            assert forall|x: int| 0 <= x && x + 1 < m.len() implies #[trigger] m[x + 1].depth
                <= m[x].depth + 1 by {
                assert(depth_at(s, o, x + 1) <= depth_at(s, o, x) + 1);
            }
            assert forall|x: int| 0 <= x && x + 1 < m.len() && #[trigger] m[x + 1].depth == m[x].depth
                + 1 implies m[x].is_dir by {
                assert(depth_at(s, o, x + 1) == depth_at(s, o, x) + 1);
            }
        }
    }
    master
}

/// Checks that a walk is in the pre-order that the builder expects.
pub fn is_walk_well_formed(records: &Vec<WalkRecord>) -> (r: bool)
    ensures
        r == walk_well_formed(records@),
{
    let ghost s = records@;
    let n = records.len();
    if n == 0 {
        return true;
    }
    if records[0].depth != 1 {
        return false;
    }
    let mut k: usize = 0;
    while k < n
        invariant
            k <= n,
            n == s.len(),
            s == records@,
            n > 0,
            s[0].depth == 1,
            forall|m: int| 0 <= m < k ==> #[trigger] s[m].depth >= 1,
            forall|m: int| 0 <= m && m + 1 < k ==> #[trigger] s[m + 1].depth <= s[m].depth + 1,
            forall|m: int|
                0 <= m && m + 1 < k && #[trigger] s[m + 1].depth == s[m].depth + 1
                    ==> s[m].is_dir,
        decreases n - k,
    {
        let d = records[k].depth;
        if d < 1 {
            return false;
        }
        if k > 0 {
            let p = records[k - 1].depth;
            if d > p && d - p > 1 {
                proof {
                    let m = k - 1;
                    assert(s[m + 1].depth > s[m].depth + 1);
                }
                return false;
            }
            if d > p && d - p == 1 && !records[k - 1].is_dir {
                proof {
                    let m = k - 1;
                    assert(s[m + 1].depth == s[m].depth + 1);
                }
                return false;
            }
            proof {
                let m = k - 1;
                assert(s[m + 1].depth <= s[m].depth + 1);
            }
        }
        k = k + 1;
    }
    true
}

} // verus!
