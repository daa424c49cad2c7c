//! The Eytzinger layout: a sorted sequence stored as a binary search tree,
//! level by level.
//!
//! Positions count from 1. Position 1 is the root, and the children of
//! position `k` are `2k` (left) and `2k + 1` (right). A tree of `n` entries
//! uses the positions `1..=n`.

use vstd::prelude::*;

verus! {

/// The number of positions in the subtree rooted at `k`, in a tree of `n`.
pub open spec fn subtree_size(k: int, n: int) -> int
    decreases
        if 1 <= k <= n {
            n - k + 1
        } else {
            0
        },
{
    if k < 1 || k > n {
        0
    } else {
        1 + subtree_size(2 * k, n) + subtree_size(2 * k + 1, n)
    }
}

/// The number of positions that an in-order walk of the tree visits before it
/// enters the subtree rooted at `k`.
pub open spec fn subtree_base(k: int, n: int) -> int
    decreases k,
{
    if k <= 1 {
        0
    } else if k % 2 == 0 {
        subtree_base(k / 2, n)
    } else {
        subtree_base(k / 2, n) + subtree_size(k - 1, n) + 1
    }
}

/// The number of positions that an in-order walk of the tree visits before
/// position `k`: the index, in sorted order, of the entry stored at `k`.
pub open spec fn inorder_rank(k: int, n: int) -> int {
    subtree_base(k, n) + subtree_size(2 * k, n)
}

/// Whether `j` lies in the subtree rooted at `k`.
pub open spec fn in_subtree(j: int, k: int) -> bool
    decreases j,
{
    if j < 1 || k < 1 || j < k {
        false
    } else if j == k {
        true
    } else {
        in_subtree(j / 2, k)
    }
}

/// Collects `eytzinger::PermutationGenerator::new(size)`: for each position of
/// the Eytzinger array in turn, the index in the sorted array of the entry that
/// belongs there. The generator lays the sorted array out as a binary search
/// tree stored level by level, so the entry at position `i + 1` is the one
/// that an in-order walk reaches after `inorder_rank(i + 1, size)` others.
/// The bound keeps the generator's `(size + 2).next_power_of_two()` in range.
#[verifier::external_body]
pub(crate) fn collect_permutation(size: usize) -> (perm: Vec<usize>)
    requires
        size < 0x4000_0000,
    ensures
        perm@.len() == size,
        forall|i: int| 0 <= i < size ==> (#[trigger] perm@[i]) == inorder_rank(i + 1, size as int),
{
    eytzinger::PermutationGenerator::new(size).collect()
}

/// A subtree is never of negative size, and is empty past the last position.
pub proof fn lemma_subtree_size_bounds(k: int, n: int)
    ensures
        subtree_size(k, n) >= 0,
        1 <= k <= n ==> subtree_size(k, n) == 1 + subtree_size(2 * k, n) + subtree_size(
            2 * k + 1,
            n,
        ),
        1 <= k <= n ==> subtree_size(k, n) >= 1,
        (k < 1 || k > n) ==> subtree_size(k, n) == 0,
    decreases
        if 1 <= k <= n {
            n - k + 1
        } else {
            0
        },
{
    if 1 <= k <= n {
        lemma_subtree_size_bounds(2 * k, n);
        lemma_subtree_size_bounds(2 * k + 1, n);
    }
}

/// A position below the root of a subtree lies under one of its two children,
/// and a position under a child lies under the parent.
pub proof fn lemma_in_subtree_children(j: int, k: int)
    requires
        1 <= k,
    ensures
        in_subtree(j, k) && j != k ==> in_subtree(j, 2 * k) || in_subtree(j, 2 * k + 1),
        in_subtree(j, 2 * k) ==> in_subtree(j, k) && j != k,
        in_subtree(j, 2 * k + 1) ==> in_subtree(j, k) && j != k,
        !(in_subtree(j, 2 * k) && in_subtree(j, 2 * k + 1)),
        in_subtree(j, k) ==> j >= k,
    decreases j,
{
    if j > k {
        lemma_in_subtree_children(j / 2, k);
        assert(in_subtree(k, k));
        assert(in_subtree(2 * k, 2 * k));
        assert(in_subtree(2 * k + 1, 2 * k + 1));
    }
}

/// The lowest position that two positions both lie under.
pub open spec fn meeting_point(i: int, j: int) -> int
    decreases i + j,
{
    if i < 1 || j < 1 || i == j {
        i
    } else if i > j {
        meeting_point(i / 2, j)
    } else {
        meeting_point(i, j / 2)
    }
}

/// Two positions lie under their meeting point, and not under the same child
/// of it.
pub proof fn lemma_meeting_point(i: int, j: int)
    requires
        1 <= i,
        1 <= j,
    ensures
        1 <= meeting_point(i, j),
        in_subtree(i, meeting_point(i, j)),
        in_subtree(j, meeting_point(i, j)),
        !(in_subtree(i, 2 * meeting_point(i, j)) && in_subtree(j, 2 * meeting_point(i, j))),
        !(in_subtree(i, 2 * meeting_point(i, j) + 1) && in_subtree(
            j,
            2 * meeting_point(i, j) + 1,
        )),
    decreases i + j,
{
    if i > j {
        lemma_meeting_point(i / 2, j);
        lemma_in_subtree_children(i / 2, meeting_point(i, j));
    } else if i < j {
        lemma_meeting_point(i, j / 2);
        lemma_in_subtree_children(j / 2, meeting_point(i, j));
    }
}

/// Every position lies under the root.
pub proof fn lemma_in_subtree_of_root(j: int)
    requires
        1 <= j,
    ensures
        in_subtree(j, 1),
    decreases j,
{
    if j > 1 {
        lemma_in_subtree_of_root(j / 2);
    }
}

/// One more entry makes every subtree that holds the new position larger by
/// one, and leaves the others as they were.
pub proof fn lemma_subtree_size_grows(k: int, n: int)
    requires
        1 <= k,
        0 <= n,
    ensures
        subtree_size(k, n + 1) == subtree_size(k, n) + if in_subtree(n + 1, k) {
            1int
        } else {
            0int
        },
    decreases
        if k <= n + 1 {
            n + 2 - k
        } else {
            0
        },
{
    lemma_subtree_size_bounds(k, n);
    lemma_subtree_size_bounds(k, n + 1);
    if k <= n {
        lemma_subtree_size_grows(2 * k, n);
        lemma_subtree_size_grows(2 * k + 1, n);
        lemma_in_subtree_children(n + 1, k);
    } else if k == n + 1 {
        lemma_subtree_size_bounds(2 * k, n + 1);
        lemma_subtree_size_bounds(2 * k + 1, n + 1);
    } else {
        lemma_in_subtree_children(n + 1, k);
    }
}

/// The whole tree has as many positions as entries.
pub proof fn lemma_tree_size(n: int)
    requires
        0 <= n,
    ensures
        subtree_size(1, n) == n,
    decreases n,
{
    if n > 0 {
        lemma_tree_size(n - 1);
        lemma_subtree_size_grows(1, n - 1);
        lemma_in_subtree_of_root(n);
    }
}

/// The in-order walk visits the positions of a subtree one after another:
/// the ranks of a subtree fill an interval, which lies inside the interval of
/// every subtree around it.
pub proof fn lemma_subtree_interval(j: int, r: int, n: int)
    requires
        1 <= r,
        1 <= j <= n,
        in_subtree(j, r),
    ensures
        subtree_base(r, n) <= subtree_base(j, n),
        subtree_base(j, n) + subtree_size(j, n) <= subtree_base(r, n) + subtree_size(r, n),
        subtree_base(j, n) <= inorder_rank(j, n) < subtree_base(j, n) + subtree_size(j, n),
    decreases j,
{
    lemma_subtree_size_bounds(j, n);
    lemma_subtree_size_bounds(2 * j, n);
    lemma_subtree_size_bounds(2 * j + 1, n);
    if j != r {
        let p = j / 2;
        lemma_in_subtree_children(j, r);
        lemma_subtree_interval(p, r, n);
        lemma_subtree_size_bounds(p, n);
        lemma_subtree_size_bounds(2 * p, n);
        lemma_subtree_size_bounds(2 * p + 1, n);
    }
}

/// The layout is a search tree: everything under the left child of a position
/// comes before it in sorted order, everything under the right child after it.
pub proof fn lemma_rank_is_search_tree(j: int, k: int, n: int)
    requires
        1 <= k <= n,
        1 <= j <= n,
    ensures
        in_subtree(j, 2 * k) ==> inorder_rank(j, n) < inorder_rank(k, n),
        in_subtree(j, 2 * k + 1) ==> inorder_rank(j, n) > inorder_rank(k, n),
{
    lemma_subtree_size_bounds(k, n);
    lemma_subtree_size_bounds(2 * k, n);
    lemma_in_subtree_children(j, k);
    if in_subtree(j, 2 * k) {
        lemma_subtree_interval(j, 2 * k, n);
    }
    if in_subtree(j, 2 * k + 1) {
        lemma_subtree_interval(j, 2 * k + 1, n);
    }
}

/// Every rank is an index into the sorted entries.
pub proof fn lemma_rank_bounds(j: int, n: int)
    requires
        1 <= j <= n,
    ensures
        0 <= inorder_rank(j, n) < n,
{
    lemma_in_subtree_of_root(j);
    lemma_subtree_interval(j, 1, n);
    lemma_tree_size(n);
}

/// The position with rank `s`, searched from position `r` down.
pub open spec fn position_of_rank(r: int, s: int, n: int) -> int
    decreases
        if 1 <= r <= n {
            n - r + 1
        } else {
            0
        },
{
    if r < 1 || r > n {
        0
    } else if s == inorder_rank(r, n) {
        r
    } else if s < inorder_rank(r, n) {
        position_of_rank(2 * r, s, n)
    } else {
        position_of_rank(2 * r + 1, s, n)
    }
}

/// Every rank inside the interval of a subtree is the rank of a position of
/// that subtree.
pub proof fn lemma_position_of_rank(r: int, s: int, n: int)
    requires
        1 <= r <= n,
        subtree_base(r, n) <= s < subtree_base(r, n) + subtree_size(r, n),
    ensures
        1 <= position_of_rank(r, s, n) <= n,
        in_subtree(position_of_rank(r, s, n), r),
        inorder_rank(position_of_rank(r, s, n), n) == s,
    decreases n - r,
{
    lemma_subtree_size_bounds(r, n);
    lemma_subtree_size_bounds(2 * r, n);
    lemma_subtree_size_bounds(2 * r + 1, n);
    if s < inorder_rank(r, n) {
        lemma_position_of_rank(2 * r, s, n);
        lemma_in_subtree_children(position_of_rank(2 * r, s, n), r);
    } else if s > inorder_rank(r, n) {
        lemma_position_of_rank(2 * r + 1, s, n);
        lemma_in_subtree_children(position_of_rank(2 * r + 1, s, n), r);
    }
}

/// The search by rank finds every position by its own rank.
pub proof fn lemma_rank_of_position(j: int, r: int, n: int)
    requires
        1 <= r,
        1 <= j <= n,
        in_subtree(j, r),
    ensures
        position_of_rank(r, inorder_rank(j, n), n) == j,
    decreases n - r,
{
    lemma_in_subtree_children(j, r);
    if j != r {
        lemma_rank_is_search_tree(j, r, n);
        if in_subtree(j, 2 * r) {
            lemma_rank_of_position(j, 2 * r, n);
        } else {
            lemma_rank_of_position(j, 2 * r + 1, n);
        }
    }
}

/// The layout is a permutation: different positions have different ranks, and
/// every index into the sorted entries is the rank of a position.
pub proof fn lemma_rank_is_permutation(n: int)
    requires
        0 <= n,
    ensures
        forall|j: int| 1 <= j <= n ==> 0 <= #[trigger] inorder_rank(j, n) < n,
        forall|i: int, j: int|
            1 <= i <= n && 1 <= j <= n && #[trigger] inorder_rank(i, n) == #[trigger] inorder_rank(
                j,
                n,
            ) ==> i == j,
        forall|s: int|
            0 <= s < n ==> 1 <= #[trigger] position_of_rank(1, s, n) <= n && inorder_rank(
                position_of_rank(1, s, n),
                n,
            ) == s,
{
    lemma_tree_size(n);
    assert forall|j: int| 1 <= j <= n implies 0 <= #[trigger] inorder_rank(j, n) < n by {
        lemma_rank_bounds(j, n);
    }
    assert forall|i: int, j: int|
        1 <= i <= n && 1 <= j <= n && #[trigger] inorder_rank(i, n) == #[trigger] inorder_rank(
            j,
            n,
        ) implies i == j by {
        lemma_in_subtree_of_root(i);
        lemma_in_subtree_of_root(j);
        lemma_rank_of_position(i, 1, n);
        lemma_rank_of_position(j, 1, n);
    }
    assert forall|s: int| 0 <= s < n implies 1 <= #[trigger] position_of_rank(1, s, n) <= n
        && inorder_rank(position_of_rank(1, s, n), n) == s by {
        lemma_position_of_rank(1, s, n);
    }
}

} // verus!
