//! A static 2-D spatial index over the point store of one zoom level.
//!
//! The index keeps one entry per store row and reorders the entries in place
//! so that recursive median partitioning on alternating axes yields
//! contiguous sub-ranges for each node, with leaf buckets of at most
//! `node_size` entries.  Queries walk that structure, pruning sub-ranges
//! whose half-plane cannot intersect the query region, and return exactly
//! the row indices a brute-force scan would: see [`KDBush::range`] and
//! [`KDBush::within`].

use crate::fixed::COORD_ONE;
use crate::store::{StoreRow, MAX_POINTS};
use vstd::prelude::*;
use vstd::seq_lib::*;

verus! {

/// One entry of the spatial index: a row id with that row's coordinates.
#[derive(Clone, Copy, Debug, PartialEq, Eq)]
pub struct KDItem {
    /// The index of the row this entry stands for.
    pub id: usize,

    /// The row's x coordinate.
    pub x: i64,

    /// The row's y coordinate.
    pub y: i64,
}

/// The coordinate of an entry along the given axis: x on axis 0, y on axis 1.
pub open spec fn item_axis(it: KDItem, axis: int) -> int {
    if axis == 0 {
        it.x as int
    } else {
        it.y as int
    }
}

/// The coordinate of the entry at position `i` along the given axis.
pub open spec fn axis_val(items: Seq<KDItem>, i: int, axis: int) -> int {
    item_axis(items[i], axis)
}

/// The structural invariant of a built sub-tree over positions
/// `left ..= right`: the middle position holds a value that splits the
/// range along `axis`, and both halves are themselves built on the other
/// axis.  Ranges of at most `node_size` positions are leaf buckets.
pub open spec fn tree_sorted(
    items: Seq<KDItem>,
    left: int,
    right: int,
    axis: int,
    node_size: int,
) -> bool
    decreases right - left + 1,
{
    if left < 0 || node_size < 1 || right - left <= node_size {
        true
    } else {
        let m = (left + right) / 2;
        &&& (forall|i: int|
            left <= i < m ==> axis_val(items, i, axis) <= axis_val(items, m, axis))
        &&& (forall|i: int|
            m < i <= right ==> axis_val(items, m, axis) <= axis_val(items, i, axis))
        &&& tree_sorted(items, left, m - 1, 1 - axis, node_size)
        &&& tree_sorted(items, m + 1, right, 1 - axis, node_size)
    }
}

/// Two entry sequences that agree on `left ..= right` build the same
/// sub-trees there.
proof fn lemma_tree_sorted_frame(
    a: Seq<KDItem>,
    b: Seq<KDItem>,
    left: int,
    right: int,
    axis: int,
    node_size: int,
)
    requires
        forall|i: int| left <= i <= right ==> a[i] == b[i],
    ensures
        tree_sorted(a, left, right, axis, node_size) == tree_sorted(b, left, right, axis, node_size),
    decreases right - left + 1,
{
    if !(left < 0 || node_size < 1 || right - left <= node_size) {
        let m = (left + right) / 2;
        lemma_tree_sorted_frame(a, b, left, m - 1, 1 - axis, node_size);
        lemma_tree_sorted_frame(a, b, m + 1, right, 1 - axis, node_size);
        assert forall|i: int| left <= i <= right implies axis_val(a, i, axis) == axis_val(
            b,
            i,
            axis,
        ) by {
            assert(a[i] == b[i]);
        }
    }
}

/// For a position inside a permuted range, gives the position its value
/// came from.
proof fn lemma_perm_value_origin(
    pre: Seq<KDItem>,
    post: Seq<KDItem>,
    l: int,
    r: int,
    j: int,
) -> (j0: int)
    requires
        0 <= l <= j <= r < pre.len(),
        post.len() == pre.len(),
        post.subrange(l, r + 1).to_multiset() == pre.subrange(l, r + 1).to_multiset(),
    ensures
        l <= j0 <= r,
        pre[j0] == post[j],
{
    let ps = post.subrange(l, r + 1);
    let qs = pre.subrange(l, r + 1);
    assert(ps[j - l] == post[j]);
    assert(ps.contains(post[j]));
    ps.to_multiset_ensures();
    qs.to_multiset_ensures();
    assert(qs.to_multiset().count(post[j]) > 0);
    assert(qs.contains(post[j]));
    let t = choose|t: int| 0 <= t < qs.len() && qs[t] == post[j];
    assert(pre[t + l] == post[j]);
    t + l
}

/// Swapping two positions inside `left ..= right` keeps the multiset of
/// that range.
proof fn lemma_swap_subrange_multiset<A>(
    pre: Seq<A>,
    post: Seq<A>,
    i: int,
    j: int,
    l: int,
    r: int,
)
    requires
        pre.len() == post.len(),
        0 <= l <= i <= r < pre.len(),
        l <= j <= r,
        post[i] == pre[j],
        post[j] == pre[i],
        forall|k: int| 0 <= k < pre.len() && k != i && k != j ==> post[k] == pre[k],
    ensures
        post.subrange(l, r + 1).to_multiset() == pre.subrange(l, r + 1).to_multiset(),
{
    let a = pre.subrange(l, r + 1);
    let b = post.subrange(l, r + 1);
    if i == j {
        assert(a =~= b);
    } else {
        assert(b =~= a.update(i - l, pre[j]).update(j - l, pre[i]));
        broadcast use group_to_multiset_ensures;
        broadcast use vstd::multiset::group_multiset_axioms;
        broadcast use vstd::multiset::group_multiset_properties;

        assert(a[i - l] == pre[i] && a[j - l] == pre[j]);
        assert(a.contains(pre[i]));
        assert(a.to_multiset().count(pre[i]) > 0);
        let a1 = a.update(i - l, pre[j]);
        assert(a1[j - l] == pre[j]);
        assert(a1.to_multiset() == a.to_multiset().insert(pre[j]).remove(pre[i]));
        assert(a1.update(j - l, pre[i]).to_multiset() == a1.to_multiset().insert(pre[i]).remove(
            pre[j],
        ));
        assert(b.to_multiset() =~= a.to_multiset());
    }
}

/// Replacing the inner range `l2 ..= r2` by a permutation of itself keeps
/// the multiset of the outer range `l1 ..= r1`.
proof fn lemma_widen_subrange_multiset(
    pre: Seq<KDItem>,
    post: Seq<KDItem>,
    l1: int,
    r1: int,
    l2: int,
    r2: int,
)
    requires
        pre.len() == post.len(),
        0 <= l1 <= l2 <= r2 <= r1 < pre.len(),
        post.subrange(l2, r2 + 1).to_multiset() == pre.subrange(l2, r2 + 1).to_multiset(),
        forall|k: int| l1 <= k < l2 ==> post[k] == pre[k],
        forall|k: int| r2 < k <= r1 ==> post[k] == pre[k],
    ensures
        post.subrange(l1, r1 + 1).to_multiset() == pre.subrange(l1, r1 + 1).to_multiset(),
{
    let a1 = pre.subrange(l1, l2);
    let a2 = pre.subrange(l2, r2 + 1);
    let a3 = pre.subrange(r2 + 1, r1 + 1);
    let b1 = post.subrange(l1, l2);
    let b2 = post.subrange(l2, r2 + 1);
    let b3 = post.subrange(r2 + 1, r1 + 1);
    assert(pre.subrange(l1, r1 + 1) =~= a1 + a2 + a3);
    assert(post.subrange(l1, r1 + 1) =~= b1 + b2 + b3);
    assert(b1 =~= a1);
    assert(b3 =~= a3);
    lemma_multiset_commutative(a1 + a2, a3);
    lemma_multiset_commutative(a1, a2);
    lemma_multiset_commutative(b1 + b2, b3);
    lemma_multiset_commutative(b1, b2);
}

/// Swap the entries at positions `i` and `j`.
fn swap_items(items: &mut Vec<KDItem>, i: usize, j: usize)
    requires
        i < old(items).len(),
        j < old(items).len(),
    ensures
        final(items)@.len() == old(items)@.len(),
        final(items)@[i as int] == old(items)@[j as int],
        final(items)@[j as int] == old(items)@[i as int],
        forall|k: int|
            0 <= k < final(items)@.len() && k != i && k != j ==> final(items)@[k] == old(items)@[k],
{
    let a = items[i];
    let b = items[j];
    items.set(i, b);
    items.set(j, a);
}

/// The entry's coordinate along the given axis.
fn item_axis_coord(it: KDItem, axis: usize) -> (v: i64)
    requires
        axis <= 1,
    ensures
        v as int == item_axis(it, axis as int),
{
    if axis == 0 {
        it.x
    } else {
        it.y
    }
}

/// Reorder `left ..= right` around its last entry: afterwards some position
/// `p` holds that entry, everything before `p` is at most its axis
/// coordinate, and everything after is at least it.
fn partition(items: &mut Vec<KDItem>, left: usize, right: usize, axis: usize) -> (p: usize)
    requires
        axis <= 1,
        left <= right < old(items).len(),
    ensures
        left <= p <= right,
        final(items)@.len() == old(items)@.len(),
        forall|k: int|
            0 <= k < final(items)@.len() && !(left <= k <= right) ==> final(items)@[k] == old(items)@[k],
        final(items)@.subrange(left as int, right as int + 1).to_multiset() == old(items)@.subrange(
            left as int,
            right as int + 1,
        ).to_multiset(),
        forall|i: int|
            left <= i < p ==> axis_val(final(items)@, i, axis as int) <= axis_val(
                final(items)@,
                p as int,
                axis as int,
            ),
        forall|i: int|
            p < i <= right ==> axis_val(final(items)@, p as int, axis as int) <= axis_val(
                final(items)@,
                i,
                axis as int,
            ),
{
    let ghost orig = items@;
    let pivot = item_axis_coord(items[right], axis);
    let mut s = left;
    let mut j = left;
    while j < right
        invariant
            axis <= 1,
            left <= s <= j <= right < items@.len(),
            items@.len() == orig.len(),
            items@[right as int] == orig[right as int],
            pivot as int == axis_val(items@, right as int, axis as int),
            forall|k: int|
                0 <= k < orig.len() && !(left <= k <= right) ==> items@[k] == orig[k],
            items@.subrange(left as int, right as int + 1).to_multiset() == orig.subrange(
                left as int,
                right as int + 1,
            ).to_multiset(),
            forall|i: int| left <= i < s ==> axis_val(items@, i, axis as int) <= pivot,
            forall|i: int| s <= i < j ==> axis_val(items@, i, axis as int) > pivot,
        decreases right - j,
    {
        let vj = item_axis_coord(items[j], axis);
        if vj <= pivot {
            let ghost pre = items@;
            swap_items(items, s, j);
            proof {
                let ax = axis as int;
                lemma_swap_subrange_multiset(
                    pre,
                    items@,
                    s as int,
                    j as int,
                    left as int,
                    right as int,
                );
                assert(items@[s as int] == pre[j as int]);
                assert forall|i: int| left <= i < s + 1 implies axis_val(items@, i, ax)
                    <= pivot by {
                    if i < s {
                        assert(axis_val(pre, i, ax) <= pivot);
                        assert(items@[i] == pre[i]);
                    } else {
                        assert(axis_val(pre, j as int, ax) == vj as int);
                    }
                }
                assert forall|i: int| s + 1 <= i < j + 1 implies axis_val(items@, i, ax)
                    > pivot by {
                    if i < j {
                        assert(axis_val(pre, i, ax) > pivot);
                        assert(items@[i] == pre[i]);
                    } else {
                        assert(axis_val(pre, s as int, ax) > pivot);
                        assert(items@[j as int] == pre[s as int]);
                    }
                }
            }
            s = s + 1;
        }
        j = j + 1;
    }
    let ghost pre = items@;
    swap_items(items, s, right);
    proof {
        let ax = axis as int;
        lemma_swap_subrange_multiset(pre, items@, s as int, right as int, left as int, right as int);
        assert(items@[s as int] == pre[right as int]);
        assert(axis_val(items@, s as int, ax) == pivot as int);
        assert forall|i: int| left <= i < s implies axis_val(items@, i, ax) <= axis_val(
            items@,
            s as int,
            ax,
        ) by {
            assert(axis_val(pre, i, ax) <= pivot);
            assert(items@[i] == pre[i]);
        }
        assert forall|i: int| s < i <= right implies axis_val(items@, s as int, ax) <= axis_val(
            items@,
            i,
            ax,
        ) by {
            if i < right {
                assert(axis_val(pre, i, ax) > pivot);
                assert(items@[i] == pre[i]);
            } else {
                assert(axis_val(pre, s as int, ax) > pivot);
                assert(items@[right as int] == pre[s as int]);
            }
        }
    }
    s
}

/// Move the `k`-th smallest entry (along `axis`) of `left ..= right` to
/// position `k`, with smaller entries before it and larger ones after it.
fn select_at(items: &mut Vec<KDItem>, k: usize, left: usize, right: usize, axis: usize)
    requires
        axis <= 1,
        left <= k <= right < old(items).len(),
    ensures
        final(items)@.len() == old(items)@.len(),
        forall|t: int|
            0 <= t < final(items)@.len() && !(left <= t <= right) ==> final(items)@[t] == old(items)@[t],
        final(items)@.subrange(left as int, right as int + 1).to_multiset() == old(items)@.subrange(
            left as int,
            right as int + 1,
        ).to_multiset(),
        forall|i: int|
            left <= i < k ==> axis_val(final(items)@, i, axis as int) <= axis_val(
                final(items)@,
                k as int,
                axis as int,
            ),
        forall|i: int|
            k < i <= right ==> axis_val(final(items)@, k as int, axis as int) <= axis_val(
                final(items)@,
                i,
                axis as int,
            ),
{
    let ghost orig = items@;
    let mut l = left;
    let mut r = right;
    while l < r
        invariant
            axis <= 1,
            left <= l <= k <= r <= right < items@.len(),
            items@.len() == orig.len(),
            forall|t: int|
                0 <= t < orig.len() && !(left <= t <= right) ==> items@[t] == orig[t],
            items@.subrange(left as int, right as int + 1).to_multiset() == orig.subrange(
                left as int,
                right as int + 1,
            ).to_multiset(),
            forall|i: int, j: int|
                left <= i < l && l <= j <= right ==> axis_val(items@, i, axis as int) <= axis_val(
                    items@,
                    j,
                    axis as int,
                ),
            forall|i: int, j: int|
                left <= i <= r && r < j <= right ==> axis_val(items@, i, axis as int) <= axis_val(
                    items@,
                    j,
                    axis as int,
                ),
        decreases r - l,
    {
        let ghost pre = items@;
        let ghost ax = axis as int;
        let p = partition(items, l, r, axis);
        proof {
            lemma_widen_subrange_multiset(
                pre,
                items@,
                left as int,
                right as int,
                l as int,
                r as int,
            );
            assert forall|i: int, j: int|
                left <= i < l && l <= j <= right implies axis_val(items@, i, ax) <= axis_val(
                items@,
                j,
                ax,
            ) by {
                if j <= r {
                    let j0 = lemma_perm_value_origin(pre, items@, l as int, r as int, j);
                    assert(axis_val(pre, i, ax) <= axis_val(pre, j0, ax));
                } else {
                    assert(axis_val(pre, i, ax) <= axis_val(pre, j, ax));
                }
            }
            assert forall|i: int, j: int|
                left <= i <= r && r < j <= right implies axis_val(items@, i, ax) <= axis_val(
                items@,
                j,
                ax,
            ) by {
                if l <= i {
                    let i0 = lemma_perm_value_origin(pre, items@, l as int, r as int, i);
                    assert(axis_val(pre, i0, ax) <= axis_val(pre, j, ax));
                } else {
                    assert(axis_val(pre, i, ax) <= axis_val(pre, j, ax));
                }
            }
        }
        if p == k {
            proof {
                let ax2 = axis as int;
                assert forall|i: int, j: int|
                    left <= i < k && k <= j <= right implies axis_val(items@, i, ax2) <= axis_val(
                    items@,
                    j,
                    ax2,
                ) by {
                    if i < l {
                        assert(axis_val(items@, i, ax2) <= axis_val(items@, j, ax2));
                    } else if j <= r {
                        if j == k {
                            assert(axis_val(items@, i, ax2) <= axis_val(items@, k as int, ax2));
                        } else {
                            assert(axis_val(items@, i, ax2) <= axis_val(items@, k as int, ax2));
                            assert(axis_val(items@, k as int, ax2) <= axis_val(items@, j, ax2));
                        }
                    } else {
                        assert(axis_val(items@, i, ax2) <= axis_val(items@, j, ax2));
                    }
                }
                assert forall|i: int, j: int|
                    left <= i <= k && k < j <= right implies axis_val(items@, i, ax2) <= axis_val(
                    items@,
                    j,
                    ax2,
                ) by {
                    if i < l {
                        assert(axis_val(items@, i, ax2) <= axis_val(items@, j, ax2));
                    } else if j <= r {
                        if i == k {
                            assert(axis_val(items@, k as int, ax2) <= axis_val(items@, j, ax2));
                        } else {
                            assert(axis_val(items@, i, ax2) <= axis_val(items@, k as int, ax2));
                            assert(axis_val(items@, k as int, ax2) <= axis_val(items@, j, ax2));
                        }
                    } else {
                        assert(axis_val(items@, i, ax2) <= axis_val(items@, j, ax2));
                    }
                }
            }
            l = k;
            r = k;
        } else if k < p {
            r = p - 1;
        } else {
            l = p + 1;
        }
    }
}

/// Build the sub-tree over `left ..= right` along `axis` by selecting the
/// median and recursing into both halves on the other axis.
fn sort_kd(items: &mut Vec<KDItem>, node_size: usize, left: usize, right: usize, axis: usize)
    requires
        axis <= 1,
        1 <= node_size,
        left <= right < old(items).len() <= MAX_POINTS,
    ensures
        final(items)@.len() == old(items)@.len(),
        forall|t: int|
            0 <= t < final(items)@.len() && !(left <= t <= right) ==> final(items)@[t] == old(items)@[t],
        final(items)@.subrange(left as int, right as int + 1).to_multiset() == old(items)@.subrange(
            left as int,
            right as int + 1,
        ).to_multiset(),
        tree_sorted(final(items)@, left as int, right as int, axis as int, node_size as int),
    decreases right - left,
{
    if right - left <= node_size {
        return ;
    }
    let m = (left + right) / 2;
    let ghost ax = axis as int;
    let ghost s0 = items@;
    select_at(items, m, left, right, axis);
    let ghost s1 = items@;
    sort_kd(items, node_size, left, m - 1, 1 - axis);
    let ghost s2 = items@;
    proof {
        lemma_widen_subrange_multiset(s1, s2, left as int, right as int, left as int, m - 1);
    }
    sort_kd(items, node_size, m + 1, right, 1 - axis);
    let ghost s3 = items@;
    proof {
        lemma_widen_subrange_multiset(s2, s3, left as int, right as int, m + 1, right as int);
        // the two half sorts leave position m alone
        assert(s3[m as int] == s1[m as int]);
        // partition facts survive the half sorts
        assert forall|i: int| left <= i < m implies axis_val(s3, i, ax) <= axis_val(
            s3,
            m as int,
            ax,
        ) by {
            let i0 = lemma_perm_value_origin(s1, s2, left as int, m - 1, i);
            assert(s3[i] == s2[i]);
            assert(axis_val(s1, i0, ax) <= axis_val(s1, m as int, ax));
        }
        assert forall|i: int| m < i <= right implies axis_val(s3, m as int, ax) <= axis_val(
            s3,
            i,
            ax,
        ) by {
            let i0 = lemma_perm_value_origin(s2, s3, m + 1, right as int, i);
            assert(s2[i0] == s1[i0]);
            assert(axis_val(s1, m as int, ax) <= axis_val(s1, i0, ax));
        }
        // the left sub-tree built on s2 is untouched in s3
        lemma_tree_sorted_frame(s2, s3, left as int, m - 1, 1 - ax, node_size as int);
    }
}

/// A row lies in the closed axis-aligned box.
pub open spec fn row_in_box(row: StoreRow, min_x: int, min_y: int, max_x: int, max_y: int) -> bool {
    min_x <= row.x <= max_x && min_y <= row.y <= max_y
}

/// A row lies in the closed disk of radius `r` around `(cx, cy)`.
pub open spec fn row_in_disk(row: StoreRow, cx: int, cy: int, r: int) -> bool {
    (row.x - cx) * (row.x - cx) + (row.y - cy) * (row.y - cy) <= r * r
}

/// The row indices below `k` whose rows satisfy `pred`, in ascending order.
pub open spec fn sel_ids_upto(
    rows: Seq<StoreRow>,
    pred: spec_fn(StoreRow) -> bool,
    k: int,
) -> Seq<usize>
    decreases k,
{
    if k <= 0 {
        Seq::empty()
    } else {
        sel_ids_upto(rows, pred, k - 1) + (if pred(rows[k - 1]) {
            seq![(k - 1) as usize]
        } else {
            Seq::empty()
        })
    }
}

/// The row indices inside the box, ascending: what a brute-force scan of the
/// store would select.
pub open spec fn box_row_ids(
    rows: Seq<StoreRow>,
    min_x: int,
    min_y: int,
    max_x: int,
    max_y: int,
) -> Seq<usize> {
    sel_ids_upto(
        rows,
        |row: StoreRow| row_in_box(row, min_x, min_y, max_x, max_y),
        rows.len() as int,
    )
}

/// The row indices inside the disk, ascending.
pub open spec fn disk_row_ids(rows: Seq<StoreRow>, cx: int, cy: int, r: int) -> Seq<usize> {
    sel_ids_upto(rows, |row: StoreRow| row_in_disk(row, cx, cy, r), rows.len() as int)
}

/// The selected index sequence is strictly ascending, stays below `k`, picks
/// only rows satisfying `pred`, and picks every one of them.
pub proof fn lemma_sel_ids_props(rows: Seq<StoreRow>, pred: spec_fn(StoreRow) -> bool, k: int)
    requires
        k <= rows.len(),
        k <= usize::MAX,
    ensures
        forall|a: int, b: int|
            0 <= a < b < sel_ids_upto(rows, pred, k).len() ==> sel_ids_upto(rows, pred, k)[a]
                < sel_ids_upto(rows, pred, k)[b],
        forall|a: int|
            0 <= a < sel_ids_upto(rows, pred, k).len() ==> sel_ids_upto(rows, pred, k)[a] < k
                && pred(rows[sel_ids_upto(rows, pred, k)[a] as int]),
        forall|u: int|
            0 <= u < k && pred(rows[u]) ==> sel_ids_upto(rows, pred, k).contains(u as usize),
    decreases k,
{
    if k > 0 {
        lemma_sel_ids_props(rows, pred, k - 1);
        let prev = sel_ids_upto(rows, pred, k - 1);
        let cur = sel_ids_upto(rows, pred, k);
        assert forall|a: int|
            0 <= a < cur.len() implies cur[a] < k && pred(rows[cur[a] as int]) by {
            if a < prev.len() {
                assert(cur[a] == prev[a]);
            } else {
                assert(cur[a] == (k - 1) as usize);
            }
        }
        assert forall|a: int, b: int| 0 <= a < b < cur.len() implies cur[a] < cur[b] by {
            if b < prev.len() {
                assert(cur[a] == prev[a] && cur[b] == prev[b]);
            } else {
                assert(cur[b] == (k - 1) as usize);
                assert(cur[a] == prev[a]);
                assert(prev[a] < k - 1);
            }
        }
        assert forall|u: int| 0 <= u < k && pred(rows[u]) implies cur.contains(u as usize) by {
            if u < k - 1 {
                assert(prev.contains(u as usize));
                let a = choose|a: int| 0 <= a < prev.len() && prev[a] == u as usize;
                assert(cur[a] == u as usize);
            } else {
                assert(cur[cur.len() - 1] == (k - 1) as usize);
            }
        }
    }
}

/// Two stores with the same coordinates select the same indices.
pub proof fn lemma_sel_ids_congruent(
    a: Seq<StoreRow>,
    b: Seq<StoreRow>,
    fa: spec_fn(StoreRow) -> bool,
    fb: spec_fn(StoreRow) -> bool,
    k: int,
)
    requires
        a.len() == b.len(),
        k <= a.len(),
        forall|t: int| 0 <= t < k ==> fa(#[trigger] a[t]) == fb(#[trigger] b[t]),
    ensures
        sel_ids_upto(a, fa, k) == sel_ids_upto(b, fb, k),
    decreases k,
{
    if k > 0 {
        lemma_sel_ids_congruent(a, b, fa, fb, k - 1);
        assert(fa(a[k - 1]) == fb(b[k - 1]));
        assert(sel_ids_upto(a, fa, k) =~= sel_ids_upto(b, fb, k));
    }
}

/// The disk selection looks only at coordinates: stores that agree on them
/// select the same indices.
pub proof fn lemma_disk_ids_coords_only(
    a: Seq<StoreRow>,
    b: Seq<StoreRow>,
    cx: int,
    cy: int,
    r: int,
)
    requires
        a.len() == b.len(),
        forall|t: int|
            0 <= t < a.len() ==> (#[trigger] a[t]).x == b[t].x && a[t].y == b[t].y,
    ensures
        disk_row_ids(a, cx, cy, r) == disk_row_ids(b, cx, cy, r),
{
    let fa = |row: StoreRow| row_in_disk(row, cx, cy, r);
    let fb = |row: StoreRow| row_in_disk(row, cx, cy, r);
    lemma_sel_ids_congruent(a, b, fa, fb, a.len() as int);
}

/// The disk selection is strictly ascending, stays inside the store, picks
/// only rows in the disk, and picks every row in the disk.
pub proof fn lemma_disk_row_ids_props(rows: Seq<StoreRow>, cx: int, cy: int, r: int)
    requires
        rows.len() <= usize::MAX,
    ensures
        forall|a: int, b: int|
            0 <= a < b < disk_row_ids(rows, cx, cy, r).len() ==> disk_row_ids(rows, cx, cy, r)[a]
                < disk_row_ids(rows, cx, cy, r)[b],
        forall|a: int|
            0 <= a < disk_row_ids(rows, cx, cy, r).len() ==> disk_row_ids(rows, cx, cy, r)[a]
                < rows.len() && row_in_disk(
                rows[disk_row_ids(rows, cx, cy, r)[a] as int],
                cx,
                cy,
                r,
            ),
        forall|u: int|
            0 <= u < rows.len() && row_in_disk(rows[u], cx, cy, r) ==> disk_row_ids(
                rows,
                cx,
                cy,
                r,
            ).contains(u as usize),
{
    let f = |row: StoreRow| row_in_disk(row, cx, cy, r);
    lemma_sel_ids_props(rows, f, rows.len() as int);
}

/// The box selection is strictly ascending, stays inside the store, picks
/// only rows in the box, and picks every row in the box.
pub proof fn lemma_box_row_ids_props(
    rows: Seq<StoreRow>,
    min_x: int,
    min_y: int,
    max_x: int,
    max_y: int,
)
    requires
        rows.len() <= usize::MAX,
    ensures
        forall|a: int, b: int|
            0 <= a < b < box_row_ids(rows, min_x, min_y, max_x, max_y).len() ==> box_row_ids(
                rows,
                min_x,
                min_y,
                max_x,
                max_y,
            )[a] < box_row_ids(rows, min_x, min_y, max_x, max_y)[b],
        forall|a: int|
            0 <= a < box_row_ids(rows, min_x, min_y, max_x, max_y).len() ==> box_row_ids(
                rows,
                min_x,
                min_y,
                max_x,
                max_y,
            )[a] < rows.len() && row_in_box(
                rows[box_row_ids(rows, min_x, min_y, max_x, max_y)[a] as int],
                min_x,
                min_y,
                max_x,
                max_y,
            ),
        forall|u: int|
            0 <= u < rows.len() && row_in_box(rows[u], min_x, min_y, max_x, max_y)
                ==> box_row_ids(rows, min_x, min_y, max_x, max_y).contains(u as usize),
{
    let f = |row: StoreRow| row_in_box(row, min_x, min_y, max_x, max_y);
    lemma_sel_ids_props(rows, f, rows.len() as int);
}

/// In a strictly ascending sequence each entry is at least its position.
pub proof fn lemma_ascending_ge_index(s: Seq<usize>, a: int)
    requires
        forall|i: int, j: int| 0 <= i < j < s.len() ==> s[i] < s[j],
        0 <= a < s.len(),
    ensures
        s[a] >= a,
    decreases a,
{
    if a > 0 {
        lemma_ascending_ge_index(s, a - 1);
        assert(s[a - 1] < s[a]);
    }
}

/// A strictly ascending sequence of indices below `n` has at most `n`
/// entries.
pub proof fn lemma_ascending_len_bound(s: Seq<usize>, n: int)
    requires
        0 <= n,
        forall|i: int, j: int| 0 <= i < j < s.len() ==> s[i] < s[j],
        forall|i: int| 0 <= i < s.len() ==> (#[trigger] s[i]) < n,
    ensures
        s.len() <= n,
{
    if s.len() > n {
        lemma_ascending_ge_index(s, s.len() - 1);
        assert(s[s.len() - 1] < n);
        assert(false);
    }
}

/// Strictly ascending sequences with the same members are equal.
pub proof fn lemma_ascending_same_membership(a: Seq<usize>, b: Seq<usize>)
    requires
        forall|i: int, j: int| 0 <= i < j < a.len() ==> a[i] < a[j],
        forall|i: int, j: int| 0 <= i < j < b.len() ==> b[i] < b[j],
        forall|u: usize| a.contains(u) <==> b.contains(u),
    ensures
        a == b,
    decreases a.len() + b.len(),
{
    if a.len() == 0 {
        if b.len() > 0 {
            assert(b.contains(b[0]));
            assert(a.contains(b[0]));
            assert(false);
        }
        assert(a =~= b);
    } else if b.len() == 0 {
        assert(a.contains(a[0]));
        assert(b.contains(a[0]));
        assert(false);
    } else {
        assert(a.contains(a[0]) && b.contains(b[0]));
        assert(b.contains(a[0]));
        let j = choose|j: int| 0 <= j < b.len() && b[j] == a[0];
        assert(a.contains(b[0]));
        let i = choose|i: int| 0 <= i < a.len() && a[i] == b[0];
        assert(b[0] <= b[j] && a[0] <= a[i]);
        assert(a[0] == b[0]);
        let at = a.drop_first();
        let bt = b.drop_first();
        assert forall|u: usize| at.contains(u) <==> bt.contains(u) by {
            if at.contains(u) {
                let t = choose|t: int| 0 <= t < at.len() && at[t] == u;
                assert(a[t + 1] == u);
                assert(a.contains(u));
                assert(a[0] < u);
                assert(b.contains(u));
                let t2 = choose|t2: int| 0 <= t2 < b.len() && b[t2] == u;
                assert(t2 > 0);
                assert(bt[t2 - 1] == u);
            }
            if bt.contains(u) {
                let t = choose|t: int| 0 <= t < bt.len() && bt[t] == u;
                assert(b[t + 1] == u);
                assert(b.contains(u));
                assert(b[0] < u);
                assert(a.contains(u));
                let t2 = choose|t2: int| 0 <= t2 < a.len() && a[t2] == u;
                assert(t2 > 0);
                assert(at[t2 - 1] == u);
            }
        }
        lemma_ascending_same_membership(at, bt);
        assert forall|i: int| 0 <= i < a.len() implies a[i] == b[i] by {
            if i > 0 {
                assert(a[i] == at[i - 1]);
                assert(b[i] == bt[i - 1]);
            }
        }
        assert(a =~= b);
    }
}

/// A query region: a closed box or a closed disk.
#[derive(Clone, Copy, Debug)]
enum Region {
    /// All points with coordinates inside the box.
    Rect {
        /// West edge.
        min_x: i64,
        /// North edge.
        min_y: i64,
        /// East edge.
        max_x: i64,
        /// South edge.
        max_y: i64,
    },
    /// All points within distance `r` of the center.
    Disk {
        /// Center x.
        cx: i64,
        /// Center y.
        cy: i64,
        /// Radius.
        r: i64,
    },
}

/// Disk centers stay in the unit square and radii below `2^48`, so that the
/// squared-distance test fits in `i128`.
spec fn region_wf(reg: Region) -> bool {
    match reg {
        Region::Rect { .. } => true,
        Region::Disk { cx, cy, r } => {
            0 <= cx <= COORD_ONE && 0 <= cy <= COORD_ONE && 0 <= r <= 0x4_0000_0000_0000
        },
    }
}

/// Membership of a coordinate pair in the region.
spec fn region_holds(reg: Region, x: int, y: int) -> bool {
    match reg {
        Region::Rect { min_x, min_y, max_x, max_y } => {
            min_x <= x <= max_x && min_y <= y <= max_y
        },
        Region::Disk { cx, cy, r } => (x - cx) * (x - cx) + (y - cy) * (y - cy) <= r * r,
    }
}

/// Membership of a row in the region.
spec fn region_row_pred(reg: Region) -> spec_fn(StoreRow) -> bool {
    |row: StoreRow| region_holds(reg, row.x as int, row.y as int)
}

/// An index entry inside the unit square.
spec fn item_in_unit(it: KDItem) -> bool {
    0 <= it.x <= COORD_ONE && 0 <= it.y <= COORD_ONE
}

/// The region membership test.
fn region_contains(reg: Region, x: i64, y: i64) -> (b: bool)
    requires
        region_wf(reg),
        0 <= x <= COORD_ONE,
        0 <= y <= COORD_ONE,
    ensures
        b == region_holds(reg, x as int, y as int),
{
    match reg {
        Region::Rect { min_x, min_y, max_x, max_y } => {
            min_x <= x && x <= max_x && min_y <= y && y <= max_y
        },
        Region::Disk { cx, cy, r } => {
            proof {
                assert((x - cx) * (x - cx) <= 0x1_0000_0000_0000_0000 && 0 <= (x - cx) * (x - cx))
                    by (nonlinear_arith)
                    requires
                        -0x1_0000_0000 <= x - cx <= 0x1_0000_0000,
                ;
                assert((y - cy) * (y - cy) <= 0x1_0000_0000_0000_0000 && 0 <= (y - cy) * (y - cy))
                    by (nonlinear_arith)
                    requires
                        -0x1_0000_0000 <= y - cy <= 0x1_0000_0000,
                ;
                assert(r * r <= 0x10_0000_0000_0000_0000_0000_0000_0000 && 0 <= r * r)
                    by (nonlinear_arith)
                    requires
                        0 <= r <= 0x4_0000_0000_0000,
                ;
            }
            let dx = x as i128 - cx as i128;
            let dy = y as i128 - cy as i128;
            let rr = r as i128;
            dx * dx + dy * dy <= rr * rr
        },
    }
}

/// The smallest coordinate along `axis` a member of the region can have.
spec fn region_lo_spec(reg: Region, axis: int) -> int {
    match reg {
        Region::Rect { min_x, min_y, .. } => if axis == 0 {
            min_x as int
        } else {
            min_y as int
        },
        Region::Disk { cx, cy, r } => (if axis == 0 {
            cx as int
        } else {
            cy as int
        }) - r,
    }
}

/// The largest coordinate along `axis` a member of the region can have.
spec fn region_hi_spec(reg: Region, axis: int) -> int {
    match reg {
        Region::Rect { max_x, max_y, .. } => if axis == 0 {
            max_x as int
        } else {
            max_y as int
        },
        Region::Disk { cx, cy, r } => (if axis == 0 {
            cx as int
        } else {
            cy as int
        }) + r,
    }
}

/// The smallest possible member coordinate along `axis`.
fn region_lo(reg: Region, axis: usize) -> (v: i64)
    requires
        axis <= 1,
        region_wf(reg),
    ensures
        v as int == region_lo_spec(reg, axis as int),
{
    match reg {
        Region::Rect { min_x, min_y, .. } => if axis == 0 {
            min_x
        } else {
            min_y
        },
        Region::Disk { cx, cy, r } => (if axis == 0 {
            cx
        } else {
            cy
        }) - r,
    }
}

/// The largest possible member coordinate along `axis`.
fn region_hi(reg: Region, axis: usize) -> (v: i64)
    requires
        axis <= 1,
        region_wf(reg),
    ensures
        v as int == region_hi_spec(reg, axis as int),
{
    match reg {
        Region::Rect { max_x, max_y, .. } => if axis == 0 {
            max_x
        } else {
            max_y
        },
        Region::Disk { cx, cy, r } => (if axis == 0 {
            cx
        } else {
            cy
        }) + r,
    }
}

/// Coordinates beyond the axis bounds cannot be members of the region.
proof fn lemma_region_axis_prune(reg: Region, x: int, y: int)
    requires
        region_wf(reg),
    ensures
        x < region_lo_spec(reg, 0) ==> !region_holds(reg, x, y),
        x > region_hi_spec(reg, 0) ==> !region_holds(reg, x, y),
        y < region_lo_spec(reg, 1) ==> !region_holds(reg, x, y),
        y > region_hi_spec(reg, 1) ==> !region_holds(reg, x, y),
{
    match reg {
        Region::Rect { .. } => {},
        Region::Disk { cx, cy, r } => {
            if x < cx - r || x > cx + r {
                assert((x - cx) * (x - cx) > r * r) by (nonlinear_arith)
                    requires
                        0 <= r,
                        x < cx - r || x > cx + r,
                ;
                assert((y - cy) * (y - cy) >= 0) by (nonlinear_arith);
            }
            if y < cy - r || y > cy + r {
                assert((y - cy) * (y - cy) > r * r) by (nonlinear_arith)
                    requires
                        0 <= r,
                        y < cy - r || y > cy + r,
                ;
                assert((x - cx) * (x - cx) >= 0) by (nonlinear_arith);
            }
        },
    }
}

/// The ids of positions `l ..= r` whose entries lie in the region, in
/// position order.
spec fn region_pos_ids(items: Seq<KDItem>, l: int, r: int, reg: Region) -> Seq<usize>
    decreases r - l + 1,
{
    if l > r || l < 0 {
        Seq::empty()
    } else {
        region_pos_ids(items, l, r - 1, reg) + (if region_holds(
            reg,
            items[r].x as int,
            items[r].y as int,
        ) {
            seq![items[r].id]
        } else {
            Seq::empty()
        })
    }
}

/// Splitting the position range splits the selected ids.
proof fn lemma_region_pos_split(items: Seq<KDItem>, l: int, k: int, r: int, reg: Region)
    requires
        0 <= l,
        l - 1 <= k <= r,
    ensures
        region_pos_ids(items, l, r, reg) == region_pos_ids(items, l, k, reg) + region_pos_ids(
            items,
            k + 1,
            r,
            reg,
        ),
    decreases r - k,
{
    if r == k {
        assert(region_pos_ids(items, l, k, reg) + region_pos_ids(items, k + 1, r, reg)
            =~= region_pos_ids(items, l, r, reg));
    } else {
        lemma_region_pos_split(items, l, k, r - 1, reg);
        let a = region_pos_ids(items, l, k, reg);
        let b = region_pos_ids(items, k + 1, r - 1, reg);
        let t = if region_holds(reg, items[r].x as int, items[r].y as int) {
            seq![items[r].id]
        } else {
            Seq::empty()
        };
        assert(region_pos_ids(items, k + 1, r, reg) == b + t);
        assert((a + b) + t =~= a + (b + t));
    }
}

/// A range with no member contributes nothing.
proof fn lemma_region_pos_empty(items: Seq<KDItem>, l: int, r: int, reg: Region)
    requires
        forall|i: int|
            l <= i <= r ==> !region_holds(reg, items[i].x as int, items[i].y as int),
    ensures
        region_pos_ids(items, l, r, reg) == Seq::<usize>::empty(),
    decreases r - l + 1,
{
    if !(l > r || l < 0) {
        lemma_region_pos_empty(items, l, r - 1, reg);
        assert(region_pos_ids(items, l, r, reg) =~= Seq::<usize>::empty());
    }
}

/// Membership in the selected ids of a position range.
proof fn lemma_region_pos_membership(items: Seq<KDItem>, l: int, r: int, reg: Region)
    requires
        0 <= l,
        r < items.len(),
    ensures
        forall|u: usize|
            #[trigger] region_pos_ids(items, l, r, reg).contains(u) <==> exists|i: int|
                l <= i <= r && (#[trigger] items[i]).id == u && region_holds(
                    reg,
                    items[i].x as int,
                    items[i].y as int,
                ),
    decreases r - l + 1,
{
    if l > r {
    } else {
        lemma_region_pos_membership(items, l, r - 1, reg);
        let prev = region_pos_ids(items, l, r - 1, reg);
        let cur = region_pos_ids(items, l, r, reg);
        let hit = region_holds(reg, items[r].x as int, items[r].y as int);
        assert forall|u: usize| #[trigger] cur.contains(u) implies exists|i: int|
            l <= i <= r && (#[trigger] items[i]).id == u && region_holds(
                reg,
                items[i].x as int,
                items[i].y as int,
            ) by {
            let a = choose|a: int| 0 <= a < cur.len() && cur[a] == u;
            if a < prev.len() {
                assert(prev[a] == u);
                assert(prev.contains(u));
            } else {
                assert(hit && items[r].id == u);
            }
        }
        assert forall|u: usize|
            (exists|i: int|
                l <= i <= r && (#[trigger] items[i]).id == u && region_holds(
                    reg,
                    items[i].x as int,
                    items[i].y as int,
                )) implies #[trigger] cur.contains(u) by {
            let i = choose|i: int|
                l <= i <= r && (#[trigger] items[i]).id == u && region_holds(
                    reg,
                    items[i].x as int,
                    items[i].y as int,
                );
            if i <= r - 1 {
                assert(prev.contains(u));
                let a = choose|a: int| 0 <= a < prev.len() && prev[a] == u;
                assert(cur[a] == u);
            } else {
                assert(cur[cur.len() - 1] == u);
            }
        }
    }
}

/// With pairwise distinct entry ids, the selected ids have no duplicates.
proof fn lemma_region_pos_no_dup(items: Seq<KDItem>, l: int, r: int, reg: Region)
    requires
        0 <= l,
        r < items.len(),
        forall|i: int, j: int|
            0 <= i < j < items.len() ==> (#[trigger] items[i]).id != (#[trigger] items[j]).id,
    ensures
        region_pos_ids(items, l, r, reg).no_duplicates(),
    decreases r - l + 1,
{
    if l > r {
    } else {
        lemma_region_pos_no_dup(items, l, r - 1, reg);
        lemma_region_pos_membership(items, l, r - 1, reg);
        let prev = region_pos_ids(items, l, r - 1, reg);
        let cur = region_pos_ids(items, l, r, reg);
        if region_holds(reg, items[r].x as int, items[r].y as int) {
            assert(!prev.contains(items[r].id)) by {
                if prev.contains(items[r].id) {
                    let i = choose|i: int|
                        l <= i <= r - 1 && (#[trigger] items[i]).id == items[r].id
                            && region_holds(reg, items[i].x as int, items[i].y as int);
                    assert(items[i].id != items[r].id);
                }
            }
            assert(cur =~= prev.push(items[r].id));
        } else {
            assert(cur =~= prev);
        }
    }
}

/// Every id below the entry count appears among the entries: an injective
/// map from `n` positions into `n` ids covers them all.
proof fn lemma_ids_cover(items: Seq<KDItem>, u: int)
    requires
        forall|i: int| 0 <= i < items.len() ==> (#[trigger] items[i]).id < items.len(),
        forall|i: int, j: int|
            0 <= i < j < items.len() ==> (#[trigger] items[i]).id != (#[trigger] items[j]).id,
        0 <= u < items.len(),
    ensures
        exists|i: int| 0 <= i < items.len() && (#[trigger] items[i]).id == u,
{
    broadcast use vstd::set::group_set_axioms;
    broadcast use vstd::seq_lib::seq_to_set_is_finite;

    let n = items.len() as int;
    let ids = Seq::new(n as nat, |i: int| items[i].id as int);
    assert(ids.no_duplicates());
    ids.unique_seq_to_set();
    let rng = vstd::set_lib::set_int_range(0, n);
    vstd::set_lib::lemma_int_range(0, n);
    assert(ids.to_set().subset_of(rng)) by {
        assert forall|x: int| ids.to_set().contains(x) implies rng.contains(x) by {
            assert(ids.contains(x));
            let i = choose|i: int| 0 <= i < ids.len() && ids[i] == x;
            assert(items[i].id == x);
        }
    }
    if !ids.to_set().contains(u) {
        assert(ids.to_set().subset_of(rng.remove(u)));
        vstd::set_lib::lemma_len_subset(ids.to_set(), rng.remove(u));
        assert(rng.remove(u).len() == n - 1);
        assert(false);
    }
    assert(ids.contains(u));
    let i = choose|i: int| 0 <= i < ids.len() && ids[i] == u;
    assert(items[i].id == u);
}

/// What the tree traversal selects over all positions is, as a multiset,
/// what a brute-force scan of the rows selects.
proof fn lemma_pos_ids_match_rows(
    items: Seq<KDItem>,
    rows: Seq<StoreRow>,
    reg: Region,
    pred: spec_fn(StoreRow) -> bool,
)
    requires
        items.len() == rows.len(),
        rows.len() <= usize::MAX,
        forall|i: int| 0 <= i < items.len() ==> (#[trigger] items[i]).id < rows.len(),
        forall|i: int|
            0 <= i < items.len() ==> (#[trigger] items[i]).x == rows[items[i].id as int].x
                && items[i].y == rows[items[i].id as int].y,
        forall|i: int, j: int|
            0 <= i < j < items.len() ==> (#[trigger] items[i]).id != (#[trigger] items[j]).id,
        forall|u: int|
            0 <= u < rows.len() ==> ((#[trigger] pred(rows[u])) <==> region_holds(
                reg,
                rows[u].x as int,
                rows[u].y as int,
            )),
    ensures
        region_pos_ids(items, 0, items.len() - 1, reg).to_multiset() == sel_ids_upto(
            rows,
            pred,
            rows.len() as int,
        ).to_multiset(),
{
    let n = rows.len() as int;
    let a = region_pos_ids(items, 0, n - 1, reg);
    let b = sel_ids_upto(rows, pred, n);
    lemma_region_pos_membership(items, 0, n - 1, reg);
    lemma_region_pos_no_dup(items, 0, n - 1, reg);
    lemma_sel_ids_props(rows, pred, n);
    assert(b.no_duplicates()) by {
        assert forall|i: int, j: int| 0 <= i < j < b.len() implies b[i] != b[j] by {
            assert(b[i] < b[j]);
        }
    }
    a.lemma_multiset_has_no_duplicates();
    b.lemma_multiset_has_no_duplicates();
    assert forall|u: usize| a.to_multiset().count(u) == b.to_multiset().count(u) by {
        a.to_multiset_ensures();
        b.to_multiset_ensures();
        if a.contains(u) {
            let i = choose|i: int|
                0 <= i <= n - 1 && (#[trigger] items[i]).id == u && region_holds(
                    reg,
                    items[i].x as int,
                    items[i].y as int,
                );
            assert(pred(rows[u as int]));
            assert(b.contains(u));
        } else if b.contains(u) {
            let bi = choose|bi: int| 0 <= bi < b.len() && b[bi] == u;
            assert(b[bi] < n && pred(rows[b[bi] as int]));
            assert(region_holds(reg, rows[u as int].x as int, rows[u as int].y as int));
            lemma_ids_cover(items, u as int);
            let i = choose|i: int| 0 <= i < items.len() && (#[trigger] items[i]).id == u;
            assert(region_holds(reg, items[i].x as int, items[i].y as int));
            assert(a.contains(u));
            assert(false);
        }
    }
    assert(a.to_multiset() =~= b.to_multiset());
}

/// Append the ids of all region members among positions `left ..= right`,
/// walking the built sub-tree and pruning halves the region cannot reach.
fn collect_region(
    items: &Vec<KDItem>,
    node_size: usize,
    left: usize,
    right: usize,
    axis: usize,
    reg: Region,
    out: &mut Vec<usize>,
)
    requires
        axis <= 1,
        1 <= node_size,
        left <= right < items@.len() <= MAX_POINTS,
        region_wf(reg),
        forall|k: int| 0 <= k < items@.len() ==> item_in_unit(#[trigger] items@[k]),
        tree_sorted(items@, left as int, right as int, axis as int, node_size as int),
    ensures
        final(out)@ == old(out)@ + region_pos_ids(items@, left as int, right as int, reg),
    decreases right - left,
{
    let ghost base = out@;
    if right - left <= node_size {
        let mut idx = left;
        while idx <= right
            invariant
                left <= idx <= right + 1 <= items@.len() <= MAX_POINTS,
                region_wf(reg),
                forall|k: int| 0 <= k < items@.len() ==> item_in_unit(#[trigger] items@[k]),
                out@ == base + region_pos_ids(items@, left as int, idx - 1, reg),
            decreases right + 1 - idx,
        {
            let it = items[idx];
            let ghost pre_out = out@;
            if region_contains(reg, it.x, it.y) {
                out.push(it.id);
            }
            proof {
                let t = if region_holds(reg, items@[idx as int].x as int, items@[idx as int].y as int) {
                    seq![items@[idx as int].id]
                } else {
                    Seq::<usize>::empty()
                };
                assert(region_pos_ids(items@, left as int, idx as int, reg) == region_pos_ids(
                    items@,
                    left as int,
                    idx - 1,
                    reg,
                ) + t);
                assert(out@ =~= base + region_pos_ids(items@, left as int, idx as int, reg));
            }
            idx = idx + 1;
        }
        return ;
    }
    let m = (left + right) / 2;
    let it_m = items[m];
    let ghost ax = axis as int;
    let axv = item_axis_coord(it_m, axis);
    let lo = region_lo(reg, axis);
    let hi = region_hi(reg, axis);
    if lo <= axv {
        collect_region(items, node_size, left, m - 1, 1 - axis, reg, out);
    } else {
        proof {
            assert forall|i: int|
                left <= i <= m - 1 implies !region_holds(
                reg,
                items@[i].x as int,
                items@[i].y as int,
            ) by {
                assert(axis_val(items@, i, ax) <= axis_val(items@, m as int, ax));
                lemma_region_axis_prune(reg, items@[i].x as int, items@[i].y as int);
            }
            lemma_region_pos_empty(items@, left as int, m - 1, reg);
            assert(out@ =~= base + region_pos_ids(items@, left as int, m - 1, reg));
        }
    }
    let ghost mid_out = out@;
    if region_contains(reg, it_m.x, it_m.y) {
        out.push(it_m.id);
    }
    proof {
        lemma_region_pos_split(items@, left as int, m - 1, m as int, reg);
        assert(region_pos_ids(items@, m as int, m as int, reg) == region_pos_ids(
            items@,
            m as int,
            m - 1,
            reg,
        ) + (if region_holds(reg, items@[m as int].x as int, items@[m as int].y as int) {
            seq![items@[m as int].id]
        } else {
            Seq::<usize>::empty()
        }));
        assert(out@ =~= base + region_pos_ids(items@, left as int, m as int, reg));
    }
    let ghost before_right = out@;
    if hi >= axv {
        collect_region(items, node_size, m + 1, right, 1 - axis, reg, out);
    } else {
        proof {
            assert forall|i: int|
                m + 1 <= i <= right implies !region_holds(
                reg,
                items@[i].x as int,
                items@[i].y as int,
            ) by {
                assert(axis_val(items@, m as int, ax) <= axis_val(items@, i, ax));
                lemma_region_axis_prune(reg, items@[i].x as int, items@[i].y as int);
            }
            lemma_region_pos_empty(items@, m + 1, right as int, reg);
            assert(out@ =~= before_right + region_pos_ids(items@, m + 1, right as int, reg));
        }
    }
    proof {
        lemma_region_pos_split(items@, left as int, m as int, right as int, reg);
        assert(out@ =~= base + region_pos_ids(items@, left as int, right as int, reg));
    }
}

/// Sort a vector of ids into ascending order.
fn sort_ids(v: &mut Vec<usize>)
    ensures
        final(v)@.len() == old(v)@.len(),
        final(v)@.to_multiset() == old(v)@.to_multiset(),
        forall|a: int, b: int| 0 <= a < b < final(v)@.len() ==> final(v)@[a] <= final(v)@[b],
{
    let ghost orig = v@;
    if v.len() <= 1 {
        return ;
    }
    let mut i: usize = 1;
    while i < v.len()
        invariant
            1 <= i <= v@.len(),
            v@.len() == orig.len(),
            v@.to_multiset() == orig.to_multiset(),
            forall|a: int, b: int| 0 <= a < b < i ==> v@[a] <= v@[b],
        decreases v@.len() - i,
    {
        let mut j = i;
        while j > 0 && v[j - 1] > v[j]
            invariant
                0 <= j <= i < v@.len(),
                v@.len() == orig.len(),
                v@.to_multiset() == orig.to_multiset(),
                forall|a: int, b: int| 0 <= a < b <= i && b != j ==> v@[a] <= v@[b],
            decreases j,
        {
            let ghost pre = v@;
            let x = v[j - 1];
            let y = v[j];
            v.set(j - 1, y);
            v.set(j, x);
            proof {
                lemma_swap_subrange_multiset(pre, v@, j - 1, j as int, 0, pre.len() - 1);
                assert(pre.subrange(0, pre.len() as int) =~= pre);
                assert(v@.subrange(0, pre.len() as int) =~= v@);
                assert forall|a: int, b: int|
                    0 <= a < b <= i && b != j - 1 implies v@[a] <= v@[b] by {
                    if b == j {
                        if a < j - 1 {
                            assert(pre[a] <= pre[j - 1]);
                        }
                    } else {
                        if a == j - 1 {
                            assert(pre[j as int] < pre[j - 1]);
                            assert(pre[j - 1] <= pre[b]);
                        } else if a == j {
                            assert(pre[j - 1] <= pre[b]);
                        } else {
                            assert(pre[a] <= pre[b]);
                        }
                    }
                }
            }
            j = j - 1;
        }
        proof {
            assert forall|a: int, b: int| 0 <= a < b <= i implies v@[a] <= v@[b] by {
                if b == j {
                    assert(j > 0);
                    if a < j - 1 {
                        assert(v@[a] <= v@[j - 1]);
                    }
                    assert(v@[j - 1] <= v@[j as int]);
                }
            }
        }
        i = i + 1;
    }
}

/// A build-once, query-many 2-D index over one zoom level's point store:
/// bucketed median split on alternating axes, with range and radius queries
/// that return exactly what a linear scan of the store would.
pub struct KDBush {
    /// The point store this tree indexes.
    pub rows: Vec<StoreRow>,

    /// The leaf bucket size the tree was built with.
    pub node_size: usize,

    /// One entry per row, permuted in place by the build.
    pub items: Vec<KDItem>,
}

impl KDBush {
    /// A built index: entries are a permutation of the row indices carrying
    /// their row's coordinates, arranged as a KD-tree, over rows inside the
    /// unit square.
    pub closed spec fn wf(self) -> bool {
        &&& self.items@.len() == self.rows@.len()
        &&& self.rows@.len() <= MAX_POINTS
        &&& 1 <= self.node_size
        &&& forall|i: int| 0 <= i < self.rows@.len() ==> (#[trigger] self.rows@[i]).in_unit()
        &&& forall|i: int|
            0 <= i < self.items@.len() ==> (#[trigger] self.items@[i]).id < self.rows@.len()
        &&& forall|i: int|
            0 <= i < self.items@.len() ==> (#[trigger] self.items@[i]).x
                == self.rows@[self.items@[i].id as int].x && self.items@[i].y
                == self.rows@[self.items@[i].id as int].y
        &&& forall|i: int, j: int|
            0 <= i < j < self.items@.len() ==> (#[trigger] self.items@[i]).id
                != (#[trigger] self.items@[j]).id
        &&& tree_sorted(self.items@, 0, self.rows@.len() - 1, 0, self.node_size as int)
    }

    /// Build the index over the given rows.
    pub fn build(rows: Vec<StoreRow>, node_size: usize) -> (t: KDBush)
        requires
            1 <= node_size,
            rows@.len() <= MAX_POINTS,
            forall|i: int| 0 <= i < rows@.len() ==> (#[trigger] rows@[i]).in_unit(),
        ensures
            t.wf(),
            t.rows == rows,
            t.node_size == node_size,
    {
        let n = rows.len();
        let mut items: Vec<KDItem> = Vec::new();
        let mut i: usize = 0;
        while i < n
            invariant
                i <= n == rows@.len(),
                items@.len() == i,
                forall|k: int|
                    0 <= k < i ==> (#[trigger] items@[k]).id == k && items@[k].x == rows@[k].x
                        && items@[k].y == rows@[k].y,
            decreases n - i,
        {
            items.push(KDItem { id: i, x: rows[i].x, y: rows[i].y });
            i = i + 1;
        }
        let ghost pre = items@;
        if n > 0 {
            sort_kd(&mut items, node_size, 0, n - 1, 0);
            proof {
                assert(pre.subrange(0, n as int) =~= pre);
                assert(items@.subrange(0, n as int) =~= items@);
                assert forall|k: int|
                    0 <= k < n implies (#[trigger] items@[k]).id < n && items@[k].x
                    == rows@[items@[k].id as int].x && items@[k].y
                    == rows@[items@[k].id as int].y by {
                    let k0 = lemma_perm_value_origin(pre, items@, 0, n - 1, k);
                    assert(pre[k0].id == k0);
                }
                assert(pre.no_duplicates()) by {
                    assert forall|a: int, b: int| 0 <= a < b < n implies pre[a] != pre[b] by {
                        assert(pre[a].id == a && pre[b].id == b);
                    }
                }
                pre.lemma_multiset_has_no_duplicates();
                items@.lemma_multiset_has_no_duplicates_conv();
                assert forall|a: int, b: int|
                    0 <= a < b < n implies (#[trigger] items@[a]).id
                    != (#[trigger] items@[b]).id by {
                    if items@[a].id == items@[b].id {
                        assert(items@[a].x == rows@[items@[a].id as int].x);
                        assert(items@[a] == items@[b]);
                        let sub = items@.no_duplicates();
                        assert(!sub);
                        assert(false);
                    }
                }
            }
        }
        KDBush { rows, node_size, items }
    }

    /// Replace the stored rows by rows with the same coordinates, keeping
    /// the built tree (used to stamp pass results back into a level).
    pub fn set_rows(&mut self, new_rows: Vec<StoreRow>)
        requires
            old(self).wf(),
            new_rows@.len() == old(self).rows@.len(),
            forall|i: int|
                0 <= i < new_rows@.len() ==> (#[trigger] new_rows@[i]).x == old(self).rows@[i].x
                    && new_rows@[i].y == old(self).rows@[i].y,
        ensures
            final(self).wf(),
            final(self).rows == new_rows,
            final(self).node_size == old(self).node_size,
    {
        proof {
            assert forall|i: int|
                0 <= i < new_rows@.len() implies (#[trigger] new_rows@[i]).in_unit() by {
                assert(old(self).rows@[i].in_unit());
            }
        }
        self.rows = new_rows;
    }

    /// Run a region query: collect ids through the tree, then return them
    /// ascending.
    fn query(&self, reg: Region) -> (res: Vec<usize>)
        requires
            self.wf(),
            region_wf(reg),
        ensures
            res@ == sel_ids_upto(self.rows@, region_row_pred(reg), self.rows@.len() as int),
    {
        let ghost pred = region_row_pred(reg);
        let ghost canon = sel_ids_upto(self.rows@, pred, self.rows@.len() as int);
        let mut out: Vec<usize> = Vec::new();
        let n = self.rows.len();
        if n == 0 {
            assert(out@ =~= canon);
            return out;
        }
        proof {
            assert forall|k: int|
                0 <= k < self.items@.len() implies item_in_unit(#[trigger] self.items@[k]) by {
                assert(self.rows@[self.items@[k].id as int].in_unit());
            }
        }
        collect_region(&self.items, self.node_size, 0, n - 1, 0, reg, &mut out);
        let ghost collected = out@;
        sort_ids(&mut out);
        proof {
            assert(collected =~= Seq::<usize>::empty() + region_pos_ids(
                self.items@,
                0,
                n - 1,
                reg,
            ));
            assert forall|u: int|
                0 <= u < self.rows@.len() implies ((#[trigger] pred(self.rows@[u])) <==> region_holds(
                reg,
                self.rows@[u].x as int,
                self.rows@[u].y as int,
            )) by {}
            lemma_pos_ids_match_rows(self.items@, self.rows@, reg, pred);
            lemma_sel_ids_props(self.rows@, pred, self.rows@.len() as int);
            let leq = |a: usize, b: usize| a <= b;
            assert(vstd::relations::total_ordering(leq)) by {
                assert(vstd::relations::reflexive(leq)) by {
                    assert(forall|a: usize| #[trigger] leq(a, a));
                }
                assert(vstd::relations::transitive(leq)) by {
                    assert(forall|a: usize, b: usize, c: usize|
                        #[trigger] leq(a, b) && #[trigger] leq(b, c) ==> leq(a, c));
                }
                assert(vstd::relations::antisymmetric(leq)) by {
                    assert(forall|a: usize, b: usize|
                        #[trigger] leq(a, b) && #[trigger] leq(b, a) ==> a == b);
                }
                assert(vstd::relations::strongly_connected(leq)) by {
                    assert(forall|a: usize, b: usize| #[trigger] leq(a, b) || #[trigger] leq(b, a));
                }
            }
            assert(vstd::relations::sorted_by(out@, leq)) by {
                assert(forall|a: int, b: int|
                    0 <= a < b < out@.len() ==> leq(#[trigger] out@[a], #[trigger] out@[b]));
            }
            assert(vstd::relations::sorted_by(canon, leq)) by {
                assert(forall|a: int, b: int|
                    0 <= a < b < canon.len() ==> leq(#[trigger] canon[a], #[trigger] canon[b]));
            }
            assert(out@.to_multiset() == canon.to_multiset());
            lemma_sorted_unique(out@, canon, leq);
        }
        out
    }

    /// Return, in ascending order, the indices of every row inside the
    /// closed box — exactly what a brute-force scan of the store selects.
    pub fn range(&self, min_x: i64, min_y: i64, max_x: i64, max_y: i64) -> (res: Vec<usize>)
        requires
            self.wf(),
        ensures
            res@ == box_row_ids(
                self.rows@,
                min_x as int,
                min_y as int,
                max_x as int,
                max_y as int,
            ),
    {
        let res = self.query(Region::Rect { min_x, min_y, max_x, max_y });
        proof {
            let reg = (Region::Rect { min_x, min_y, max_x, max_y });
            let f = region_row_pred(reg);
            let g = |row: StoreRow|
                row_in_box(row, min_x as int, min_y as int, max_x as int, max_y as int);
            assert(f =~= g) by {
                assert(forall|row: StoreRow| #[trigger] f(row) == g(row));
            }
        }
        res
    }

    /// Return, in ascending order, the indices of every row within distance
    /// `radius` of the center — exactly what a brute-force scan selects.
    pub fn within(&self, cx: i64, cy: i64, radius: i64) -> (res: Vec<usize>)
        requires
            self.wf(),
            0 <= cx <= COORD_ONE,
            0 <= cy <= COORD_ONE,
            0 <= radius <= 0x4_0000_0000_0000,
        ensures
            res@ == disk_row_ids(self.rows@, cx as int, cy as int, radius as int),
    {
        let res = self.query(Region::Disk { cx, cy, r: radius });
        proof {
            let reg = (Region::Disk { cx, cy, r: radius });
            let f = region_row_pred(reg);
            let g = |row: StoreRow| row_in_disk(row, cx as int, cy as int, radius as int);
            assert(f =~= g) by {
                assert(forall|row: StoreRow| #[trigger] f(row) == g(row));
            }
        }
        res
    }
}

} // verus!
