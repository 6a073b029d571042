//! The navigation state: the master sequence, its visible projection and the
//! selection, kept consistent across expand and collapse.

use vstd::prelude::*;
use crate::tree::{
    FileEntry,
    well_formed,
    is_visible,
    last_at_depth,
    visible_prefix,
    visible_positions,
    project_visible,
    ancestor_expanded,
    same_flags_before,
    lemma_same_prefix,
};

verus! {

/// Facts on the positions of the visible nodes among the first `n`: each is
/// below `n` and visible, they increase, every visible position below `n`
/// is among them, and those below `q` come first.
pub proof fn lemma_visible_prefix(s: Seq<FileEntry>, n: int)
    requires
        0 <= n <= s.len(),
        n <= usize::MAX,
    ensures
        forall|k: int|
            0 <= k < visible_prefix(s, n).len() ==> #[trigger] visible_prefix(s, n)[k] < n
                && is_visible(s, visible_prefix(s, n)[k] as int),
        forall|a: int, b: int|
            0 <= a < b < visible_prefix(s, n).len() ==> #[trigger] visible_prefix(s, n)[a]
                < #[trigger] visible_prefix(s, n)[b],
        forall|m: int|
            0 <= m < n && #[trigger] is_visible(s, m) ==> exists|k: int|
                0 <= k < visible_prefix(s, n).len() && visible_prefix(s, n)[k] == m,
        visible_prefix(s, n).len() <= n,
    decreases n,
{
    if n > 0 {
        lemma_visible_prefix(s, n - 1);
        let p = visible_prefix(s, n - 1);
        if is_visible(s, n - 1) {
            let v = p.push((n - 1) as usize);
            assert(v == visible_prefix(s, n));
            assert(v[p.len() as int] == n - 1);
            assert forall|m: int| 0 <= m < n && #[trigger] is_visible(s, m) implies exists|k: int|
                0 <= k < v.len() && v[k] == m by {
                if m == n - 1 {
                    assert(v[p.len() as int] == m);
                } else {
                    let k = choose|k: int| 0 <= k < p.len() && p[k] == m;
                    assert(v[k] == m);
                }
            }
        } else {
            assert(p == visible_prefix(s, n));
            assert forall|m: int| 0 <= m < n && #[trigger] is_visible(s, m) implies exists|k: int|
                0 <= k < p.len() && p[k] == m by {
                assert(m < n - 1);
            }
        }
    }
}

/// The first node of a well-formed sequence is at depth 1 and so comes
/// first among the visible ones.
proof fn lemma_first_visible(s: Seq<FileEntry>, n: int)
    requires
        well_formed(s),
        0 < n <= s.len(),
    ensures
        visible_prefix(s, n).len() > 0,
        visible_prefix(s, n)[0] == 0,
    decreases n,
{
    assert(is_visible(s, 0));
    if n > 1 {
        lemma_first_visible(s, n - 1);
    } else {
        assert(visible_prefix(s, 0) =~= Seq::<usize>::empty());
    }
}

/// `e` with its expansion flag flipped, where it is a directory.
pub open spec fn toggled(e: FileEntry) -> FileEntry {
    FileEntry { is_expanded: if e.is_dir { !e.is_expanded } else { e.is_expanded }, ..e }
}

/// `e` expanded where it is a directory above depth `level`.
pub open spec fn expanded_to(e: FileEntry, level: usize) -> FileEntry {
    if e.is_dir && e.depth < level {
        FileEntry { is_expanded: true, ..e }
    } else {
        e
    }
}

/// After a change of visibility, `new_sel` holds the selection for a node
/// that was at master position `q`: the visible node nearest to it at or
/// before it, which is that node itself where it is still visible.
pub open spec fn reselected(s: Seq<FileEntry>, vis: Seq<usize>, q: int, new_sel: Option<usize>) -> bool {
    &&& new_sel is Some
    &&& new_sel->0 < vis.len()
    &&& vis[new_sel->0 as int] <= q
    &&& (vis[new_sel->0 as int] == q <==> is_visible(s, q))
    &&& forall|m: int| vis[new_sel->0 as int] < m <= q ==> !#[trigger] is_visible(s, m)
}

pub struct AppState {
    /// The master sequence, in pre-order.
    pub master_entries: Vec<FileEntry>,
    /// Master positions of the visible nodes, in order.
    pub visible_entries: Vec<usize>,
    /// Index of the selected node in the visible sequence.
    pub selected: Option<usize>,
}

impl AppState {
    /// The state is consistent: the master sequence is well formed, the
    /// visible sequence is its projection, and there is a selection, inside
    /// the visible sequence, exactly when that sequence is not empty.
    pub open spec fn inv(&self) -> bool {
        &&& well_formed(self.master_entries@)
        &&& self.visible_entries@ == visible_positions(self.master_entries@)
        &&& match self.selected {
            Some(i) => i < self.visible_entries@.len(),
            None => self.visible_entries@.len() == 0,
        }
    }

    /// Builds the state over a master sequence: directories above depth
    /// `expand_level` are expanded, and the first visible node is selected.
    pub fn new(master_entries: Vec<FileEntry>, expand_level: Option<usize>) -> (r: Self)
        requires
            well_formed(master_entries@),
        ensures
            r.inv(),
            r.master_entries@.len() == master_entries@.len(),
            forall|k: int|
                0 <= k < master_entries@.len() ==> #[trigger] r.master_entries@[k] == match expand_level {
                    Some(level) => expanded_to(master_entries@[k], level),
                    None => master_entries@[k],
                },
            r.selected == (if master_entries@.len() > 0 {
                Some(0usize)
            } else {
                None
            }),
    {
        let mut master_entries = master_entries;
        let ghost start = master_entries@;
        if let Some(level) = expand_level {
            let n = master_entries.len();
            let mut k: usize = 0;
            while k < n
                invariant
                    k <= n,
                    n == start.len(),
                    master_entries@.len() == n,
                    forall|m: int| 0 <= m < k ==> #[trigger] master_entries@[m] == expanded_to(start[m], level),
                    forall|m: int| k <= m < n ==> #[trigger] master_entries@[m] == start[m],
                decreases n - k,
            {
                if master_entries[k].is_dir && master_entries[k].depth < level {
                    master_entries[k].is_expanded = true;
                }
                k = k + 1;
            }
            proof {
                assert forall|m: int| 0 <= m < n implies #[trigger] master_entries@[m].depth == start[m].depth
                    && master_entries@[m].is_dir == start[m].is_dir by {}
                assert(well_formed(master_entries@)) by {
                    let s = master_entries@;
                    assert forall|m: int| 0 <= m && m + 1 < s.len() implies #[trigger] s[m + 1].depth <= s[m].depth + 1 by {
                        assert(start[m + 1].depth <= start[m].depth + 1);
                    }
                    assert forall|m: int| 0 <= m && m + 1 < s.len() && #[trigger] s[m + 1].depth == s[m].depth + 1 implies s[m].is_dir by {
                        assert(start[m + 1].depth == start[m].depth + 1);
                    }
                    assert forall|m: int| 0 <= m < s.len() implies #[trigger] s[m].depth >= 1 by {
                        assert(start[m].depth >= 1);
                    }
                }
            }
        }
        let visible_entries = project_visible(&master_entries);
        let selected = if master_entries.len() > 0 {
            Some(0)
        } else {
            None
        };
        proof {
            if master_entries@.len() > 0 {
                lemma_first_visible(master_entries@, master_entries@.len() as int);
            }
            lemma_visible_prefix(master_entries@, master_entries@.len() as int);
        }
        AppState { master_entries, visible_entries, selected }
    }

    /// Recomputes the visible sequence from the master sequence.
    pub fn regenerate_visible_entries(&mut self)
        requires
            well_formed(old(self).master_entries@),
        ensures
            final(self).master_entries == old(self).master_entries,
            final(self).selected == old(self).selected,
            final(self).visible_entries@ == visible_positions(old(self).master_entries@),
    {
        self.visible_entries = project_visible(&self.master_entries);
    }

    /// Moves the selection one node down, from the last to the first.
    pub fn next(&mut self)
        requires
            old(self).inv(),
        ensures
            final(self).inv(),
            final(self).master_entries == old(self).master_entries,
            final(self).visible_entries == old(self).visible_entries,
            final(self).selected == match old(self).selected {
                Some(i) => Some(
                    if i + 1 == old(self).visible_entries@.len() {
                        0usize
                    } else {
                        (i + 1) as usize
                    },
                ),
                None => None,
            },
    {
        let len = self.visible_entries.len();
        if let Some(i) = self.selected {
            if i + 1 == len {
                self.selected = Some(0);
            } else {
                self.selected = Some(i + 1);
            }
        }
    }

    /// Moves the selection one node up, from the first to the last.
    pub fn previous(&mut self)
        requires
            old(self).inv(),
        ensures
            final(self).inv(),
            final(self).master_entries == old(self).master_entries,
            final(self).visible_entries == old(self).visible_entries,
            final(self).selected == match old(self).selected {
                Some(i) => Some(
                    if i == 0 {
                        (old(self).visible_entries@.len() - 1) as usize
                    } else {
                        (i - 1) as usize
                    },
                ),
                None => None,
            },
    {
        if let Some(i) = self.selected {
            if i == 0 {
                self.selected = Some(self.visible_entries.len() - 1);
            } else {
                self.selected = Some(i - 1);
            }
        }
    }

    /// The selected node, if any.
    pub fn get_selected_entry(&self) -> (r: Option<&FileEntry>)
        requires
            self.inv(),
        ensures
            match self.selected {
                Some(i) => r == Some(&self.master_entries@[self.visible_entries@[i as int] as int]),
                None => r is None,
            },
    {
        match self.selected {
            Some(i) => {
                let n = self.master_entries.len();
                proof {
                    lemma_visible_prefix(self.master_entries@, n as int);
                }
                Some(&self.master_entries[self.visible_entries[i]])
            },
            None => None,
        }
    }

    /// Flips the expansion of the directory at visible index `i`, recomputes
    /// the visible sequence, and moves the selection to the same node where it
    /// is still visible, else to the nearest visible node before it.
    pub fn toggle_expansion(&mut self, i: usize)
        requires
            old(self).inv(),
            i < old(self).visible_entries@.len(),
        ensures
            final(self).inv(),
            ({
                let p = old(self).visible_entries@[i as int] as int;
                final(self).master_entries@ == old(self).master_entries@.update(
                    p,
                    toggled(old(self).master_entries@[p]),
                )
            }),
            match old(self).selected {
                Some(j) => reselected(
                    final(self).master_entries@,
                    final(self).visible_entries@,
                    old(self).visible_entries@[j as int] as int,
                    final(self).selected,
                ),
                None => final(self).selected is None,
            },
    {
        let ghost s0 = self.master_entries@;
        let n = self.master_entries.len();
        proof {
            lemma_visible_prefix(s0, n as int);
        }
        let p = self.visible_entries[i];
        if self.master_entries[p].is_dir {
            self.master_entries[p].is_expanded = !self.master_entries[p].is_expanded;
        }
        let ghost s = self.master_entries@;
        proof {
            assert(s =~= s0.update(p as int, toggled(s0[p as int])));
            assert forall|m: int| 0 <= m < s.len() implies #[trigger] s[m].depth == s0[m].depth
                && s[m].is_dir == s0[m].is_dir by {}
            assert(well_formed(s)) by {
                assert forall|m: int| 0 <= m && m + 1 < s.len() implies #[trigger] s[m + 1].depth <= s[m].depth + 1 by {
                    assert(s0[m + 1].depth <= s0[m].depth + 1);
                }
                assert forall|m: int| 0 <= m && m + 1 < s.len() && #[trigger] s[m + 1].depth == s[m].depth + 1 implies s[m].is_dir by {
                    assert(s0[m + 1].depth == s0[m].depth + 1);
                }
                assert forall|m: int| 0 <= m < s.len() implies #[trigger] s[m].depth >= 1 by {
                    assert(s0[m].depth >= 1);
                }
            }
        }
        let selected_at = match self.selected {
            Some(j) => Some(self.visible_entries[j]),
            None => None,
        };
        self.regenerate_visible_entries();
        if let Some(q) = selected_at {
            self.selected = Some(self.nearest_visible(q));
        }
    }

    /// Index in the visible sequence of the visible node nearest to master
    /// position `q`, at or before it.
    fn nearest_visible(&self, q: usize) -> (k: usize)
        requires
            well_formed(self.master_entries@),
            self.visible_entries@ == visible_positions(self.master_entries@),
            q < self.master_entries@.len(),
        ensures
            reselected(self.master_entries@, self.visible_entries@, q as int, Some(k)),
    {
        let ghost s = self.master_entries@;
        let n = self.master_entries.len();
        proof {
            lemma_visible_prefix(s, n as int);
            lemma_first_visible(s, n as int);
        }
        let len = self.visible_entries.len();
        let mut c: usize = 0;
        while c < len && self.visible_entries[c] < q
            invariant
                c <= len,
                len == self.visible_entries@.len(),
                forall|k: int| 0 <= k < c ==> #[trigger] self.visible_entries@[k] < q,
            decreases len - c,
        {
            c = c + 1;
        }
        let vis = &self.visible_entries;
        if c < len && vis[c] == q {
            proof {
                assert(is_visible(s, q as int));
            }
            c
        } else {
            proof {
                assert(c > 0) by {
                    if c == 0 {
                        assert(vis@[0] == 0);
                    }
                }
                assert(!is_visible(s, q as int)) by {
                    if is_visible(s, q as int) {
                        let x = choose|x: int| 0 <= x < vis@.len() && vis@[x] == q;
                        if x < c {
                        } else if x > c {
                            assert(vis@[c as int] < vis@[x]);
                        }
                    }
                }
                assert forall|m: int| vis@[c - 1] < m <= q implies !#[trigger] is_visible(s, m) by {
                    if is_visible(s, m) && m < q {
                        let x = choose|x: int| 0 <= x < vis@.len() && vis@[x] == m;
                        if x < c - 1 {
                            assert(vis@[x] < vis@[c - 1]);
                        } else if x > c - 1 && x < c {
                        } else if x >= c {
                            if x > c {
                                assert(vis@[c as int] < vis@[x]);
                            }
                        }
                    }
                }
            }
            c - 1
        }
    }

    /// Acts on the selected node: a directory is expanded or collapsed, and
    /// for a file its master position is returned, to be opened elsewhere.
    pub fn activate(&mut self) -> (opened: Option<usize>)
        requires
            old(self).inv(),
        ensures
            final(self).inv(),
            match old(self).selected {
                Some(i) => {
                    let p = old(self).visible_entries@[i as int] as int;
                    if old(self).master_entries@[p].is_dir {
                        &&& opened is None
                        &&& final(self).master_entries@ == old(self).master_entries@.update(
                            p,
                            toggled(old(self).master_entries@[p]),
                        )
                        &&& reselected(
                            final(self).master_entries@,
                            final(self).visible_entries@,
                            p,
                            final(self).selected,
                        )
                    } else {
                        &&& opened == Some(p as usize)
                        &&& *final(self) == *old(self)
                    }
                },
                None => opened is None && *final(self) == *old(self),
            },
    {
        if let Some(i) = self.selected {
            let n = self.master_entries.len();
            proof {
                lemma_visible_prefix(self.master_entries@, n as int);
            }
            let p = self.visible_entries[i];
            if self.master_entries[p].is_dir {
                self.toggle_expansion(i);
                None
            } else {
                Some(p)
            }
        } else {
            None
        }
    }

    /// Flips the expansion of the selected node, where it is a directory.
    pub fn toggle_selected_directory(&mut self)
        requires
            old(self).inv(),
        ensures
            final(self).inv(),
            match old(self).selected {
                Some(i) => {
                    let p = old(self).visible_entries@[i as int] as int;
                    &&& final(self).master_entries@ == old(self).master_entries@.update(
                        p,
                        toggled(old(self).master_entries@[p]),
                    )
                    &&& reselected(
                        final(self).master_entries@,
                        final(self).visible_entries@,
                        p,
                        final(self).selected,
                    )
                },
                None => final(self).master_entries == old(self).master_entries
                    && final(self).selected is None,
            },
    {
        if let Some(i) = self.selected {
            self.toggle_expansion(i);
        }
    }
}

/// `q` is a child of the node at `p`: one level below it, inside its
/// subtree.
pub open spec fn is_child(s: Seq<FileEntry>, p: int, q: int) -> bool {
    &&& 0 <= p < q < s.len()
    &&& s[q].depth == s[p].depth + 1
    &&& forall|c: int| p < c <= q ==> #[trigger] s[c].depth > s[p].depth
}

/// Positions of the children of `p` before position `n`, in order.
pub open spec fn children_before(s: Seq<FileEntry>, p: int, n: int) -> Seq<usize>
    decreases n - p,
{
    if n <= p + 1 {
        Seq::empty()
    } else if is_child(s, p, n - 1) {
        children_before(s, p, n - 1).push((n - 1) as usize)
    } else {
        children_before(s, p, n - 1)
    }
}

/// The first position from `k` on whose node is not below the node at `p`,
/// or the length.
pub open spec fn end_from(s: Seq<FileEntry>, p: int, k: int) -> int
    decreases s.len() - k,
{
    if k >= s.len() || s[k].depth <= s[p].depth {
        k
    } else {
        end_from(s, p, k + 1)
    }
}

proof fn lemma_end_from(s: Seq<FileEntry>, p: int, k: int)
    requires
        0 <= p < k <= s.len(),
        forall|c: int| p < c < k ==> #[trigger] s[c].depth > s[p].depth,
    ensures
        k <= end_from(s, p, k) <= s.len(),
        forall|c: int| p < c < end_from(s, p, k) ==> #[trigger] s[c].depth > s[p].depth,
        end_from(s, p, k) < s.len() ==> s[end_from(s, p, k)].depth <= s[p].depth,
    decreases s.len() - k,
{
    if k < s.len() && s[k].depth > s[p].depth {
        lemma_end_from(s, p, k + 1);
    }
}

/// The closest position at or before `i` at depth `t` is at or after any
/// position `j <= i` at that depth, and no position after it up to `i` is at
/// that depth.
proof fn lemma_last_at_depth(s: Seq<FileEntry>, i: int, t: int, j: int)
    requires
        0 <= j <= i < s.len(),
        s[j].depth == t,
    ensures
        j <= last_at_depth(s, i, t) <= i,
        s[last_at_depth(s, i, t)].depth == t,
        forall|x: int| last_at_depth(s, i, t) < x <= i ==> #[trigger] s[x].depth != t,
    decreases i,
{
    if s[i].depth != t {
        lemma_last_at_depth(s, i - 1, t, j);
    }
}

/// Positions after `j` up to `i` that are not at depth `t` do not change the
/// closest position at depth `t`.
proof fn lemma_last_at_depth_skip(s: Seq<FileEntry>, i: int, j: int, t: int)
    requires
        -1 <= j <= i < s.len(),
        forall|x: int| j < x <= i ==> #[trigger] s[x].depth != t,
    ensures
        last_at_depth(s, i, t) == last_at_depth(s, j, t),
    decreases i - j,
{
    if i > j {
        lemma_last_at_depth_skip(s, i - 1, j, t);
    }
}

/// Inside the subtree of an expanded visible directory whose child
/// directories are collapsed, exactly the children are visible.
proof fn lemma_subtree_visible(t: Seq<FileEntry>, p: int, n: int)
    requires
        well_formed(t),
        t.len() <= usize::MAX,
        0 <= p < n <= t.len(),
        is_visible(t, p),
        t[p].is_dir,
        t[p].is_expanded,
        forall|c: int| p < c < n ==> #[trigger] t[c].depth > t[p].depth,
        forall|c: int| #[trigger] is_child(t, p, c) && t[c].is_dir ==> !t[c].is_expanded,
    ensures
        visible_prefix(t, n) == visible_prefix(t, p + 1) + children_before(t, p, n),
    decreases n,
{
    let d = t[p].depth as int;
    if n == p + 1 {
        assert(visible_prefix(t, n) =~= visible_prefix(t, p + 1) + children_before(t, p, n));
    } else {
        lemma_subtree_visible(t, p, n - 1);
        let q = n - 1;
        assert(t[p + 1].depth <= t[p].depth + 1);
        assert(t[p + 1].depth > d);
        if t[q].depth == d + 1 {
            assert(is_child(t, p, q));
            assert forall|u: int| 1 <= u < t[q].depth implies #[trigger] ancestor_expanded(t, q, u) by {
                lemma_last_at_depth_skip(t, q - 1, p, u);
                if u == d {
                } else {
                    lemma_last_at_depth_skip(t, p, p - 1, u);
                    assert(ancestor_expanded(t, p, u));
                }
            }
            assert(is_visible(t, q));
        } else {
            assert(!is_child(t, p, q));
            let u = d + 1;
            lemma_last_at_depth(t, q - 1, u, p + 1);
            let c = last_at_depth(t, q - 1, u);
            assert(t[c + 1].depth > d);
            if c + 1 < q {
                assert(t[c + 1].depth != u);
            }
            let c0 = c;
            assert(t[c0 + 1].depth <= t[c0].depth + 1);
            assert(t[c0 + 1].depth == t[c0].depth + 1);
            assert(t[c].is_dir);
            assert forall|x: int| p < x <= c implies #[trigger] t[x].depth > t[p].depth by {}
            assert(is_child(t, p, c));
            assert(!ancestor_expanded(t, q, u));
            assert(!is_visible(t, q));
        }
        assert(visible_prefix(t, n) =~= visible_prefix(t, p + 1) + children_before(t, p, n));
    }
}

/// Past the end of a subtree no position is a child of its root.
proof fn lemma_children_stop(t: Seq<FileEntry>, p: int, e: int, m: int)
    requires
        0 <= p < e <= m <= t.len(),
        e < t.len() ==> t[e].depth <= t[p].depth,
    ensures
        children_before(t, p, m) == children_before(t, p, e),
    decreases m,
{
    if m > e {
        assert(!is_child(t, p, m - 1)) by {
            if m - 1 > e {
                assert(!(t[e].depth > t[p].depth));
            }
        }
        lemma_children_stop(t, p, e, m - 1);
    }
}

/// The visible positions before `n` begin the visible positions before any
/// `m >= n`.
proof fn lemma_visible_prefix_grows(s: Seq<FileEntry>, n: int, m: int)
    requires
        0 <= n <= m <= s.len(),
    ensures
        visible_prefix(s, n).len() <= visible_prefix(s, m).len(),
        forall|k: int| 0 <= k < visible_prefix(s, n).len() ==> #[trigger] visible_prefix(s, m)[k]
            == visible_prefix(s, n)[k],
    decreases m,
{
    if m > n {
        lemma_visible_prefix_grows(s, n, m - 1);
    }
}

/// Expanding the directory at visible index `i`, whose child directories
/// are all collapsed, shows its children right after it: at visible indices
/// `i + 1`, `i + 2`, ..., in master order.
pub proof fn lemma_expand_shows_children(s: Seq<FileEntry>, i: int)
    requires
        well_formed(s),
        s.len() <= usize::MAX,
        0 <= i < visible_positions(s).len(),
        s[visible_positions(s)[i] as int].is_dir,
        !s[visible_positions(s)[i] as int].is_expanded,
        forall|c: int| #[trigger] is_child(s, visible_positions(s)[i] as int, c) && s[c].is_dir ==> !s[c].is_expanded,
    ensures
        ({
            let p = visible_positions(s)[i] as int;
            let t = s.update(p, toggled(s[p]));
            let v = visible_positions(t);
            let ch = children_before(t, p, t.len() as int);
            &&& v[i] == p
            &&& i + 1 + ch.len() <= v.len()
            &&& forall|k: int| 0 <= k < ch.len() ==> v[i + 1 + k] == #[trigger] ch[k]
        }),
{
    let n = s.len() as int;
    let vis = visible_positions(s);
    lemma_visible_prefix(s, n);
    let p = vis[i] as int;
    let t = s.update(p, toggled(s[p]));
    assert forall|m: int| 0 <= m < t.len() implies #[trigger] t[m].depth == s[m].depth && t[m].is_dir
        == s[m].is_dir by {}
    assert(well_formed(t)) by {
        assert forall|m: int| 0 <= m && m + 1 < t.len() implies #[trigger] t[m + 1].depth <= t[m].depth + 1 by {
            assert(s[m + 1].depth <= s[m].depth + 1);
        }
        assert forall|m: int| 0 <= m && m + 1 < t.len() && #[trigger] t[m + 1].depth == t[m].depth + 1 implies t[m].is_dir by {
            assert(s[m + 1].depth == s[m].depth + 1);
        }
        assert forall|m: int| 0 <= m < t.len() implies #[trigger] t[m].depth >= 1 by {
            assert(s[m].depth >= 1);
        }
    }
    assert(same_flags_before(t, s, p)) by {
        assert forall|k: int| 0 <= k < p implies #[trigger] t[k].depth == s[k].depth && t[k].is_dir == s[k].is_dir
            && t[k].is_expanded == s[k].is_expanded by {}
    }
    assert(same_flags_before(t, s, p + 1 - 1));
    lemma_same_prefix(t, s, p + 1);
    if p > 0 {
        assert(same_flags_before(t, s, p - 1)) by {
            assert forall|k: int| 0 <= k < p - 1 implies #[trigger] t[k].depth == s[k].depth && t[k].is_dir
                == s[k].is_dir && t[k].is_expanded == s[k].is_expanded by {}
        }
    }
    lemma_same_prefix(t, s, p);
    // `p` is visible, and its index among the visible positions is `i`.
    assert(is_visible(s, p));
    let before = visible_prefix(s, p + 1);
    assert(before == visible_prefix(s, p).push(p as usize));
    assert(visible_prefix(t, p + 1) == before);
    assert(is_visible(t, p)) by {
        if !is_visible(t, p) {
            assert(visible_prefix(t, p + 1) == visible_prefix(t, p));
            assert(visible_prefix(t, p + 1).len() == visible_prefix(s, p).len());
        }
    }
    lemma_visible_prefix_grows(s, p + 1, n);
    let li = before.len() - 1;
    assert(vis[li] == p);
    assert(li == i) by {
        if li < i {
            assert(vis[li] < vis[i]);
        } else if li > i {
            assert(vis[i] < vis[li]);
        }
    }
    // The subtree of `p`.
    lemma_end_from(t, p, p + 1);
    let e = end_from(t, p, p + 1);
    assert forall|c: int| #[trigger] is_child(t, p, c) && t[c].is_dir implies !t[c].is_expanded by {
        assert forall|x: int| p < x <= c implies #[trigger] s[x].depth > s[p].depth by {
            assert(t[x].depth > t[p].depth);
        }
        assert(is_child(s, p, c));
    }
    lemma_subtree_visible(t, p, e);
    lemma_children_stop(t, p, e, n);
    lemma_visible_prefix_grows(t, e, n);
    let ch = children_before(t, p, n);
    let v = visible_positions(t);
    assert(visible_prefix(t, e) == before + ch);
    assert(v[i] == visible_prefix(t, e)[i]);
    assert forall|k: int| 0 <= k < ch.len() implies v[i + 1 + k] == #[trigger] ch[k] by {
        assert(visible_prefix(t, e)[i + 1 + k] == ch[k]);
    }
}

} // verus!
