//! The master sequence: entries of a walk in pre-order, each sibling group
//! sorted, and the projection of the entries that are visible.

use vstd::prelude::*;
use crate::git::FileStatus;

verus! {

/// One record of the filesystem walk, below the root.
pub struct WalkRecord {
    /// The entry's path.
    pub path: String,
    /// The last component of the path.
    pub name: String,
    /// 1 for a direct child of the root, one more for each level below.
    pub depth: usize,
    pub is_dir: bool,
    /// Byte length from the entry's metadata, where it could be read.
    pub len: Option<u64>,
    /// Modification time in nanoseconds from the Unix epoch, where known.
    pub modified: Option<i128>,
    /// Unix mode bits, where known.
    pub mode: Option<u32>,
    /// Status from the status lookup, where it has one.
    pub status: Option<FileStatus>,
}

/// One node of the master sequence.
pub struct FileEntry {
    pub path: String,
    /// 1 for a direct child of the root, one more for each level below.
    pub depth: usize,
    pub is_dir: bool,
    /// Whether the directory's children are shown; meaningful for
    /// directories only.
    pub is_expanded: bool,
    /// Byte length, present only when sizes are shown and the node is a file.
    pub size: Option<u64>,
    /// Type character and `rwxrwxrwx`, present only when permissions are shown.
    pub permissions: Option<String>,
    /// Status tag, present only when status tracking is on and the lookup has
    /// one for the node.
    pub git_status: Option<FileStatus>,
}

/// Depths of a pre-order sequence: the first node is at depth 1, every node
/// is at depth 1 or more, each node is at most one level below the one before
/// it, and a node one level below the one before it is the child of that
/// node, which then is a directory.
pub open spec fn well_formed(s: Seq<FileEntry>) -> bool {
    &&& s.len() > 0 ==> s[0].depth == 1
    &&& forall|k: int| 0 <= k < s.len() ==> #[trigger] s[k].depth >= 1
    &&& forall|k: int|
        0 <= k && k + 1 < s.len() ==> #[trigger] s[k + 1].depth <= s[k].depth + 1
    &&& forall|k: int|
        0 <= k && k + 1 < s.len() && #[trigger] s[k + 1].depth == s[k].depth + 1 ==> s[k].is_dir
}

/// The closest position at or before `i` whose node is at depth `t`, or -1.
/// In a well-formed sequence, for `t` below the depth of the node after `i`,
/// this is that node's ancestor at depth `t`.
pub open spec fn last_at_depth(s: Seq<FileEntry>, i: int, t: int) -> int
    decreases i + 1,
{
    if i < 0 {
        -1
    } else if s[i].depth == t {
        i
    } else {
        last_at_depth(s, i - 1, t)
    }
}

/// The ancestor of the node at `i` at depth `t` exists and is expanded.
pub open spec fn ancestor_expanded(s: Seq<FileEntry>, i: int, t: int) -> bool {
    let a = last_at_depth(s, i - 1, t);
    0 <= a && s[a].is_expanded
}

/// A node is visible when every ancestor is expanded; depth-1 nodes are
/// always visible.
pub open spec fn is_visible(s: Seq<FileEntry>, i: int) -> bool {
    forall|t: int| 1 <= t < s[i].depth ==> #[trigger] ancestor_expanded(s, i, t)
}

/// Positions of the visible nodes among the first `n`, in order.
pub open spec fn visible_prefix(s: Seq<FileEntry>, n: int) -> Seq<usize>
    decreases n,
{
    if n <= 0 {
        Seq::empty()
    } else if is_visible(s, n - 1) {
        visible_prefix(s, n - 1).push((n - 1) as usize)
    } else {
        visible_prefix(s, n - 1)
    }
}

/// Positions of all visible nodes, in master order.
pub open spec fn visible_positions(s: Seq<FileEntry>) -> Seq<usize> {
    visible_prefix(s, s.len() as int)
}

fn all_set(stack: &Vec<bool>) -> (r: bool)
    ensures
        r == (forall|t: int| 0 <= t < stack@.len() ==> #[trigger] stack@[t]),
{
    let mut k: usize = 0;
    while k < stack.len()
        invariant
            k <= stack@.len(),
            forall|t: int| 0 <= t < k ==> #[trigger] stack@[t],
        decreases stack@.len() - k,
    {
        if !stack[k] {
            return false;
        }
        k = k + 1;
    }
    true
}

/// Computes the visible sequence of a master sequence in one pass, keeping a
/// stack with the expansion flag of each open ancestor.
pub fn project_visible(master: &Vec<FileEntry>) -> (r: Vec<usize>)
    requires
        well_formed(master@),
    ensures
        r@ == visible_positions(master@),
{
    let ghost s = master@;
    let n = master.len();
    let mut r: Vec<usize> = Vec::new();
    let mut stack: Vec<bool> = Vec::new();
    let mut k: usize = 0;
    while k < n
        invariant
            k <= n,
            n == s.len(),
            s == master@,
            well_formed(s),
            r@ == visible_prefix(s, k as int),
            k == 0 ==> stack@.len() == 0,
            k > 0 ==> stack@.len() == s[k - 1].depth - 1 + (if s[k - 1].is_dir {
                1int
            } else {
                0int
            }),
            forall|t: int|
                0 <= t < stack@.len() ==> {
                    let a = #[trigger] last_at_depth(s, k - 1, t + 1);
                    0 <= a < k && stack@[t] == s[a].is_expanded
                },
        decreases n - k,
    {
        let d = master[k].depth;
        proof {
            if k > 0 {
                let m = k - 1;
                assert(s[m + 1].depth <= s[m].depth + 1);
                if s[m + 1].depth == s[m].depth + 1 {
                    assert(s[m].is_dir);
                }
            }
            assert(s[k as int].depth >= 1);
        }
        while stack.len() >= d
            invariant
                stack@.len() >= d - 1,
                d >= 1,
                forall|t: int|
                    0 <= t < stack@.len() ==> {
                        let a = #[trigger] last_at_depth(s, k - 1, t + 1);
                        0 <= a < k && stack@[t] == s[a].is_expanded
                    },
            decreases stack@.len(),
        {
            stack.pop();
        }
        let all = all_set(&stack);
        proof {
            assert(stack@.len() == d - 1);
            assert forall|t: int| 1 <= t < s[k as int].depth implies #[trigger] ancestor_expanded(
                s,
                k as int,
                t,
            ) == stack@[t - 1] by {
                let a = last_at_depth(s, k - 1, (t - 1) + 1);
            }
            if all {
                assert forall|t: int| 1 <= t < s[k as int].depth implies #[trigger] ancestor_expanded(
                    s,
                    k as int,
                    t,
                ) by {
                    assert(stack@[t - 1]);
                }
            } else {
                let t0 = choose|t: int| 0 <= t < stack@.len() && !stack@[t];
                assert(!ancestor_expanded(s, k as int, t0 + 1));
            }
        }
        if all {
            r.push(k);
        }
        if master[k].is_dir {
            stack.push(master[k].is_expanded);
        }
        proof {
            assert forall|t: int| 0 <= t < stack@.len() implies {
                let a = #[trigger] last_at_depth(s, k as int, t + 1);
                0 <= a < k + 1 && stack@[t] == s[a].is_expanded
            } by {
                if t + 1 != d {
                    assert(last_at_depth(s, k as int, t + 1) == last_at_depth(s, k - 1, t + 1));
                }
            }
        }
        k = k + 1;
    }
    r
}

/// `a` and `b` agree on depth, type and expansion flag before position `n`.
pub open spec fn same_flags_before(a: Seq<FileEntry>, b: Seq<FileEntry>, n: int) -> bool {
    &&& n <= a.len()
    &&& n <= b.len()
    &&& forall|k: int|
        0 <= k < n ==> #[trigger] a[k].depth == b[k].depth && a[k].is_dir == b[k].is_dir
            && a[k].is_expanded == b[k].is_expanded
}

proof fn lemma_same_ancestors(a: Seq<FileEntry>, b: Seq<FileEntry>, i: int, t: int)
    requires
        same_flags_before(a, b, i + 1),
        -1 <= i < a.len(),
    ensures
        last_at_depth(a, i, t) == last_at_depth(b, i, t),
        last_at_depth(a, i, t) <= i,
    decreases i + 1,
{
    if i >= 0 {
        assert(a[i].depth == b[i].depth);
        lemma_same_ancestors(a, b, i - 1, t);
    }
}

/// Visibility of the nodes before position `n` depends on the flags of the
/// nodes before the last of them, and on its depth, alone.
pub proof fn lemma_same_prefix(a: Seq<FileEntry>, b: Seq<FileEntry>, n: int)
    requires
        n <= a.len(),
        n <= b.len(),
        n > 0 ==> same_flags_before(a, b, n - 1) && a[n - 1].depth == b[n - 1].depth,
    ensures
        visible_prefix(a, n) == visible_prefix(b, n),
    decreases n,
{
    if n > 0 {
        if n > 1 {
            assert(a[n - 2].depth == b[n - 2].depth);
        }
        lemma_same_prefix(a, b, n - 1);
        let i = n - 1;
        assert(a[i].depth == b[i].depth);
        assert forall|t: int| 1 <= t < a[i].depth implies #[trigger] ancestor_expanded(a, i, t)
            == ancestor_expanded(b, i, t) by {
            lemma_same_ancestors(a, b, i - 1, t);
            let x = last_at_depth(a, i - 1, t);
            if 0 <= x {
                assert(a[x].depth == b[x].depth);
                assert(a[x].is_expanded == b[x].is_expanded);
            }
        }
        if is_visible(a, i) {
            assert forall|t: int| 1 <= t < b[i].depth implies #[trigger] ancestor_expanded(b, i, t) by {
                assert(ancestor_expanded(a, i, t));
            }
        }
        if is_visible(b, i) {
            assert forall|t: int| 1 <= t < a[i].depth implies #[trigger] ancestor_expanded(a, i, t) by {
                assert(ancestor_expanded(b, i, t));
            }
        }
    }
}

/// The projection is a function of the master sequence's depths, types and
/// expansion flags: two sequences that agree on them have the same visible
/// sequence.
pub proof fn lemma_projection_determined(a: Seq<FileEntry>, b: Seq<FileEntry>)
    requires
        same_flags_before(a, b, a.len() as int),
        a.len() == b.len(),
    ensures
        visible_positions(a) == visible_positions(b),
{
    if a.len() > 0 {
        assert(a[a.len() - 1].depth == b[a.len() - 1].depth);
    }
    lemma_same_prefix(a, b, a.len() as int);
}

} // verus!
