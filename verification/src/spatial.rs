use vstd::prelude::*;

use crate::geometry::{
    dist2, dist2_exec, in_bounds, lemma_dist2_bounds, lemma_sq_bound, lemma_sq_mono, lemma_sq_neg,
    lemma_sq_nonneg, sq, Point, Site, COORD_LIMIT,
};

verus! {

/// Subtrees with at most this many points are stored flat.
pub const LEAF_CAP: usize = 8;

/// A point paired with its position in the original site sequence.
/// The position is the site's identity: queries answer with it.
#[derive(Clone, Copy)]
struct Entry {
    point: Point,
    idx: usize,
}

/// A node of the spatial partition tree. A split node divides its
/// points by one coordinate: entries at or below `mid` on the split
/// axis go left, entries above it go right.
enum KdNode {
    Leaf { items: Vec<Entry> },
    Split { ax: bool, mid: i64, left: Box<KdNode>, right: Box<KdNode> },
}

/// The coordinate of `p` on the given axis (`true` is the x axis).
spec fn axis_coord(p: Point, ax: bool) -> int {
    if ax {
        p.x as int
    } else {
        p.y as int
    }
}

/// Whether the (point, index) pair occurs in the entry sequence.
spec fn seq_mem(s: Seq<Entry>, p: Point, i: int) -> bool {
    exists|k: int| 0 <= k < s.len() && s[k].point == p && s[k].idx as int == i
}

/// Whether the (point, index) pair occurs somewhere in the subtree.
spec fn node_mem(n: KdNode, p: Point, i: int) -> bool
    decreases n,
{
    match n {
        KdNode::Leaf { items } => seq_mem(items@, p, i),
        KdNode::Split { left, right, .. } => node_mem(*left, p, i) || node_mem(*right, p, i),
    }
}

/// Well-formedness of a subtree: all points are in range, and every
/// split separates its subtrees by the stored coordinate.
spec fn node_wf(n: KdNode) -> bool
    decreases n,
{
    match n {
        KdNode::Leaf { items } => forall|k: int|
            0 <= k < items@.len() ==> in_bounds(#[trigger] items@[k].point),
        KdNode::Split { ax, mid, left, right } => {
            &&& -(COORD_LIMIT as int) <= mid as int <= COORD_LIMIT as int
            &&& node_wf(*left)
            &&& node_wf(*right)
            &&& forall|p: Point, i: int|
                #[trigger] node_mem(*left, p, i) ==> axis_coord(p, ax) <= mid as int
            &&& forall|p: Point, i: int|
                #[trigger] node_mem(*right, p, i) ==> axis_coord(p, ax) > mid as int
        },
    }
}

proof fn lemma_node_mem_bounds(n: KdNode, p: Point, i: int)
    requires
        node_wf(n),
        node_mem(n, p, i),
    ensures
        in_bounds(p),
    decreases n,
{
    match n {
        KdNode::Leaf { items } => {
            let k = choose|k: int|
                0 <= k < items@.len() && items@[k].point == p && items@[k].idx as int == i;
            assert(in_bounds(items@[k].point));
        },
        KdNode::Split { left, right, .. } => {
            if node_mem(*left, p, i) {
                lemma_node_mem_bounds(*left, p, i);
            } else {
                lemma_node_mem_bounds(*right, p, i);
            }
        },
    }
}

/// The candidate order used to resolve queries: smaller squared
/// distance first, and among equal distances the smaller site index.
/// The answer to a query is the least candidate in this order, which
/// is what makes ties deterministic.
pub open spec fn cand_le(d1: int, i1: int, d2: int, i2: int) -> bool {
    d1 < d2 || (d1 == d2 && i1 <= i2)
}

impl KdNode {
    /// Returns the least candidate, in `cand_le` order, among the
    /// incoming best and every (point, index) pair of this subtree.
    fn nn(&self, q: Point, best_d: u64, best_i: usize) -> (res: (u64, usize))
        requires
            node_wf(*self),
            in_bounds(q),
        ensures
            cand_le(res.0 as int, res.1 as int, best_d as int, best_i as int),
            forall|p: Point, i: int|
                #[trigger] node_mem(*self, p, i) ==> cand_le(res.0 as int, res.1 as int, dist2(p, q), i),
            (res.0 == best_d && res.1 == best_i) || exists|p: Point, i: int|
                #[trigger] node_mem(*self, p, i) && dist2(p, q) == res.0 as int && i == res.1 as int,
        decreases self,
    {
        match self {
            KdNode::Leaf { items } => {
                let mut bd: u64 = best_d;
                let mut bi: usize = best_i;
                let mut j: usize = 0;
                let ghost mut wit: int = 0;
                while j < items.len()
                    invariant
                        j <= items@.len(),
                        in_bounds(q),
                        forall|k: int| 0 <= k < items@.len() ==> in_bounds(#[trigger] items@[k].point),
                        cand_le(bd as int, bi as int, best_d as int, best_i as int),
                        forall|k: int|
                            0 <= k < j ==> cand_le(
                                bd as int,
                                bi as int,
                                dist2(#[trigger] items@[k].point, q),
                                items@[k].idx as int,
                            ),
                        (bd == best_d && bi == best_i) || (0 <= wit < items@.len() && dist2(
                            items@[wit].point,
                            q,
                        ) == bd as int && items@[wit].idx as int == bi as int),
                    decreases items@.len() - j,
                {
                    let e = items[j];
                    let d = dist2_exec(e.point, q);
                    if d < bd || (d == bd && e.idx < bi) {
                        bd = d;
                        bi = e.idx;
                        proof {
                            wit = j as int;
                        }
                    }
                    j = j + 1;
                }
                proof {
                    assert forall|p: Point, i: int| #[trigger] node_mem(*self, p, i) implies cand_le(
                        bd as int,
                        bi as int,
                        dist2(p, q),
                        i,
                    ) by {
                        let k = choose|k: int|
                            0 <= k < items@.len() && items@[k].point == p && items@[k].idx as int
                                == i;
                        assert(cand_le(bd as int, bi as int, dist2(items@[k].point, q), items@[k].idx as int));
                    }
                    if !(bd == best_d && bi == best_i) {
                        assert(seq_mem(items@, items@[wit].point, items@[wit].idx as int));
                        assert(node_mem(*self, items@[wit].point, items@[wit].idx as int));
                        assert(dist2(items@[wit].point, q) == bd as int);
                    }
                }
                (bd, bi)
            },
            KdNode::Split { ax, mid, left, right } => {
                let axv: bool = *ax;
                let midv: i64 = *mid;
                let qa: i64 = if axv {
                    q.x
                } else {
                    q.y
                };
                let near_left: bool = qa <= midv;
                let r1 = if near_left {
                    left.nn(q, best_d, best_i)
                } else {
                    right.nn(q, best_d, best_i)
                };
                let plane: i64 = if near_left {
                    midv - qa
                } else {
                    qa - midv
                };
                proof {
                    lemma_sq_nonneg(plane as int);
                    lemma_sq_bound(plane as int, 0x8000_0000);
                }
                let pd2_i: i64 = plane * plane;
                let pd2: u64 = pd2_i as u64;
                if pd2 <= r1.0 {
                    let r2 = if near_left {
                        right.nn(q, r1.0, r1.1)
                    } else {
                        left.nn(q, r1.0, r1.1)
                    };
                    proof {
                        assert forall|p: Point, i: int| #[trigger] node_mem(*self, p, i) implies cand_le(
                            r2.0 as int,
                            r2.1 as int,
                            dist2(p, q),
                            i,
                        ) by {
                            if near_left {
                                if node_mem(**left, p, i) {
                                    assert(cand_le(r1.0 as int, r1.1 as int, dist2(p, q), i));
                                } else {
                                    assert(node_mem(**right, p, i));
                                }
                            } else {
                                if node_mem(**right, p, i) {
                                    assert(cand_le(r1.0 as int, r1.1 as int, dist2(p, q), i));
                                } else {
                                    assert(node_mem(**left, p, i));
                                }
                            }
                        }
                        if r2.0 == r1.0 && r2.1 == r1.1 {
                            if !(r1.0 == best_d && r1.1 == best_i) {
                                if near_left {
                                    let (p, i) = choose|p: Point, i: int|
                                        node_mem(**left, p, i) && dist2(p, q) == r1.0 as int && i
                                            == r1.1 as int;
                                    assert(node_mem(*self, p, i));
                                } else {
                                    let (p, i) = choose|p: Point, i: int|
                                        node_mem(**right, p, i) && dist2(p, q) == r1.0 as int && i
                                            == r1.1 as int;
                                    assert(node_mem(*self, p, i));
                                }
                            }
                        } else {
                            if near_left {
                                let (p, i) = choose|p: Point, i: int|
                                    node_mem(**right, p, i) && dist2(p, q) == r2.0 as int && i
                                        == r2.1 as int;
                                assert(node_mem(*self, p, i));
                            } else {
                                let (p, i) = choose|p: Point, i: int|
                                    node_mem(**left, p, i) && dist2(p, q) == r2.0 as int && i
                                        == r2.1 as int;
                                assert(node_mem(*self, p, i));
                            }
                        }
                    }
                    r2
                } else {
                    proof {
                        assert forall|p: Point, i: int| #[trigger] node_mem(*self, p, i) implies cand_le(
                            r1.0 as int,
                            r1.1 as int,
                            dist2(p, q),
                            i,
                        ) by {
                            assert(node_mem(**left, p, i) || node_mem(**right, p, i));
                            let far_is_right = near_left;
                            if (far_is_right && node_mem(**right, p, i)) || (!far_is_right
                                && node_mem(**left, p, i)) {
                                if far_is_right {
                                    lemma_node_mem_bounds(**right, p, i);
                                    assert(axis_coord(p, axv) > midv as int);
                                } else {
                                    lemma_node_mem_bounds(**left, p, i);
                                    assert(axis_coord(p, axv) <= midv as int);
                                }
                                let pa = axis_coord(p, axv);
                                let diff = if near_left {
                                    pa - qa
                                } else {
                                    qa as int - pa
                                };
                                assert(0 <= plane as int <= diff);
                                lemma_sq_mono(plane as int, diff);
                                if axv {
                                    lemma_sq_neg(p.x - q.x);
                                    lemma_sq_nonneg(p.y - q.y);
                                } else {
                                    lemma_sq_neg(p.y - q.y);
                                    lemma_sq_nonneg(p.x - q.x);
                                }
                                assert(dist2(p, q) >= sq(diff));
                                assert(dist2(p, q) > r1.0 as int);
                            } else {
                                if far_is_right {
                                    assert(node_mem(**left, p, i));
                                } else {
                                    assert(node_mem(**right, p, i));
                                }
                                assert(cand_le(r1.0 as int, r1.1 as int, dist2(p, q), i));
                            }
                        }
                        if !(r1.0 == best_d && r1.1 == best_i) {
                            if near_left {
                                let (p, i) = choose|p: Point, i: int|
                                    node_mem(**left, p, i) && dist2(p, q) == r1.0 as int && i
                                        == r1.1 as int;
                                assert(node_mem(*self, p, i));
                            } else {
                                let (p, i) = choose|p: Point, i: int|
                                    node_mem(**right, p, i) && dist2(p, q) == r1.0 as int && i
                                        == r1.1 as int;
                                assert(node_mem(*self, p, i));
                            }
                        }
                    }
                    r1
                }
            },
        }
    }
}

proof fn lemma_seq_mem_push(s: Seq<Entry>, e: Entry, p: Point, i: int)
    ensures
        seq_mem(s.push(e), p, i) <==> (seq_mem(s, p, i) || (e.point == p && e.idx as int == i)),
{
    if seq_mem(s.push(e), p, i) {
        let k = choose|k: int|
            0 <= k < s.push(e).len() && s.push(e)[k].point == p && s.push(e)[k].idx as int == i;
        if k < s.len() {
            assert(s[k] == s.push(e)[k]);
        } else {
            assert(s.push(e)[k] == e);
        }
    }
    if seq_mem(s, p, i) {
        let k = choose|k: int| 0 <= k < s.len() && s[k].point == p && s[k].idx as int == i;
        assert(s.push(e)[k] == s[k]);
    }
    if e.point == p && e.idx as int == i {
        assert(s.push(e)[s.len() as int] == e);
    }
}

/// Builds a subtree over the given entries. The resulting subtree is
/// well formed and holds exactly the (point, index) pairs of `items`.
fn build_node(items: Vec<Entry>) -> (n: KdNode)
    requires
        forall|k: int| 0 <= k < items@.len() ==> in_bounds(#[trigger] items@[k].point),
    ensures
        node_wf(n),
        forall|p: Point, i: int| #[trigger] node_mem(n, p, i) <==> seq_mem(items@, p, i),
    decreases items@.len(),
{
    if items.len() <= LEAF_CAP {
        return KdNode::Leaf { items };
    }
    let mut min_x: i64 = items[0].point.x;
    let mut max_x: i64 = items[0].point.x;
    let mut min_y: i64 = items[0].point.y;
    let mut max_y: i64 = items[0].point.y;
    let mut arg_min_x: usize = 0;
    let mut arg_max_x: usize = 0;
    let mut arg_min_y: usize = 0;
    let mut arg_max_y: usize = 0;
    let mut j: usize = 1;
    while j < items.len()
        invariant
            1 <= j <= items@.len(),
            forall|k: int| 0 <= k < items@.len() ==> in_bounds(#[trigger] items@[k].point),
            forall|k: int|
                0 <= k < j ==> min_x <= #[trigger] items@[k].point.x <= max_x && min_y
                    <= items@[k].point.y <= max_y,
            arg_min_x < j && items@[arg_min_x as int].point.x == min_x,
            arg_max_x < j && items@[arg_max_x as int].point.x == max_x,
            arg_min_y < j && items@[arg_min_y as int].point.y == min_y,
            arg_max_y < j && items@[arg_max_y as int].point.y == max_y,
        decreases items@.len() - j,
    {
        let p = items[j].point;
        if p.x < min_x {
            min_x = p.x;
            arg_min_x = j;
        }
        if p.x > max_x {
            max_x = p.x;
            arg_max_x = j;
        }
        if p.y < min_y {
            min_y = p.y;
            arg_min_y = j;
        }
        if p.y > max_y {
            max_y = p.y;
            arg_max_y = j;
        }
        j = j + 1;
    }
    if min_x == max_x && min_y == max_y {
        return KdNode::Leaf { items };
    }
    let spread_x: i64 = max_x - min_x;
    let spread_y: i64 = max_y - min_y;
    let ax: bool = spread_x >= spread_y;
    let lo: i64 = if ax {
        min_x
    } else {
        min_y
    };
    let hi: i64 = if ax {
        max_x
    } else {
        max_y
    };
    let arg_lo: usize = if ax {
        arg_min_x
    } else {
        arg_min_y
    };
    let arg_hi: usize = if ax {
        arg_max_x
    } else {
        arg_max_y
    };
    let span: u64 = (hi - lo) as u64;
    let mid: i64 = lo + ((span / 2) as i64);
    proof {
        assert(lo <= mid < hi);
        assert(axis_coord(items@[arg_lo as int].point, ax) == lo as int);
        assert(axis_coord(items@[arg_hi as int].point, ax) == hi as int);
        assert(forall|k: int|
            0 <= k < items@.len() ==> lo as int <= axis_coord(#[trigger] items@[k].point, ax)
                <= hi as int);
    }
    let mut le_items: Vec<Entry> = Vec::new();
    let mut gt_items: Vec<Entry> = Vec::new();
    let mut j: usize = 0;
    while j < items.len()
        invariant
            j <= items@.len(),
            forall|k: int| 0 <= k < items@.len() ==> in_bounds(#[trigger] items@[k].point),
            -(COORD_LIMIT as int) <= mid as int <= COORD_LIMIT as int,
            arg_lo < items@.len() && axis_coord(items@[arg_lo as int].point, ax) <= mid as int,
            arg_hi < items@.len() && axis_coord(items@[arg_hi as int].point, ax) > mid as int,
            le_items@.len() + gt_items@.len() == j,
            forall|k: int|
                0 <= k < le_items@.len() ==> in_bounds(#[trigger] le_items@[k].point)
                    && axis_coord(le_items@[k].point, ax) <= mid as int,
            forall|k: int|
                0 <= k < gt_items@.len() ==> in_bounds(#[trigger] gt_items@[k].point)
                    && axis_coord(gt_items@[k].point, ax) > mid as int,
            forall|p: Point, i: int|
                #[trigger] seq_mem(items@.take(j as int), p, i) <==> (seq_mem(le_items@, p, i)
                    || seq_mem(gt_items@, p, i)),
        decreases items@.len() - j,
    {
        let e = items[j];
        let ea: i64 = if ax {
            e.point.x
        } else {
            e.point.y
        };
        let ghost old_pre = items@.take(j as int);
        let ghost old_le = le_items@;
        let ghost old_gt = gt_items@;
        if ea <= mid {
            le_items.push(e);
        } else {
            gt_items.push(e);
        }
        proof {
            assert(items@.take(j as int + 1) =~= old_pre.push(e));
            assert forall|p: Point, i: int|
                #[trigger] seq_mem(items@.take(j as int + 1), p, i) <==> (seq_mem(le_items@, p, i)
                    || seq_mem(gt_items@, p, i)) by {
                lemma_seq_mem_push(old_pre, e, p, i);
                if ea <= mid {
                    lemma_seq_mem_push(old_le, e, p, i);
                } else {
                    lemma_seq_mem_push(old_gt, e, p, i);
                }
            }
        }
        j = j + 1;
    }
    proof {
        assert(items@.take(items@.len() as int) =~= items@);
        let eh = items@[arg_hi as int];
        assert(seq_mem(items@, eh.point, eh.idx as int));
        assert(!seq_mem(le_items@, eh.point, eh.idx as int)) by {
            if seq_mem(le_items@, eh.point, eh.idx as int) {
                let k = choose|k: int|
                    0 <= k < le_items@.len() && le_items@[k].point == eh.point
                        && le_items@[k].idx as int == eh.idx as int;
                assert(axis_coord(le_items@[k].point, ax) <= mid as int);
            }
        }
        assert(seq_mem(gt_items@, eh.point, eh.idx as int));
        assert(gt_items@.len() >= 1);
        let el = items@[arg_lo as int];
        assert(seq_mem(items@, el.point, el.idx as int));
        assert(!seq_mem(gt_items@, el.point, el.idx as int)) by {
            if seq_mem(gt_items@, el.point, el.idx as int) {
                let k = choose|k: int|
                    0 <= k < gt_items@.len() && gt_items@[k].point == el.point
                        && gt_items@[k].idx as int == el.idx as int;
                assert(axis_coord(gt_items@[k].point, ax) > mid as int);
            }
        }
        assert(seq_mem(le_items@, el.point, el.idx as int));
        assert(le_items@.len() >= 1);
    }
    let ghost le_snap = le_items@;
    let ghost gt_snap = gt_items@;
    let ghost items_snap = items@;
    let left = build_node(le_items);
    let right = build_node(gt_items);
    let ghost left_g = left;
    let ghost right_g = right;
    let n = KdNode::Split { ax, mid, left: Box::new(left), right: Box::new(right) };
    proof {
        assert(items_snap.take(items_snap.len() as int) =~= items_snap);
        assert forall|p: Point, i: int| #[trigger] node_mem(n, p, i) <==> seq_mem(
            items_snap,
            p,
            i,
        ) by {
            assert(node_mem(n, p, i) <==> (node_mem(left_g, p, i) || node_mem(right_g, p, i)));
            assert(seq_mem(items_snap.take(items_snap.len() as int), p, i) <==> (seq_mem(
                le_snap,
                p,
                i,
            ) || seq_mem(gt_snap, p, i)));
        }
        assert forall|p: Point, i: int| #[trigger] node_mem(left_g, p, i) implies axis_coord(
            p,
            ax,
        ) <= mid as int by {
            let k = choose|k: int|
                0 <= k < le_snap.len() && le_snap[k].point == p && le_snap[k].idx as int == i;
            assert(axis_coord(le_snap[k].point, ax) <= mid as int);
        }
        assert forall|p: Point, i: int| #[trigger] node_mem(right_g, p, i) implies axis_coord(
            p,
            ax,
        ) > mid as int by {
            let k = choose|k: int|
                0 <= k < gt_snap.len() && gt_snap[k].point == p && gt_snap[k].idx as int == i;
            assert(axis_coord(gt_snap[k].point, ax) > mid as int);
        }
        assert(node_wf(n));
    }
    n
}

/// The points of a site sequence, in the same order.
pub open spec fn site_points(sites: Seq<Site>) -> Seq<Point> {
    Seq::new(sites.len(), |i: int| sites[i].point)
}

/// `i` is the answer the library owes for querying `q` against `ps`:
/// the index of a point at minimal squared distance from `q`, and the
/// lowest such index. This is the declared tie-break rule: among
/// equidistant points, the one earliest in the build sequence wins.
pub open spec fn is_nearest(ps: Seq<Point>, q: Point, i: int) -> bool {
    &&& 0 <= i < ps.len()
    &&& forall|j: int| 0 <= j < ps.len() ==> dist2(ps[i], q) <= dist2(#[trigger] ps[j], q)
    &&& forall|j: int| 0 <= j < i ==> dist2(ps[i], q) < dist2(#[trigger] ps[j], q)
}

/// The index every query resolves to. Meaningful whenever `ps` is
/// nonempty, by `lemma_nearest_exists`.
pub open spec fn nearest_idx(ps: Seq<Point>, q: Point) -> int {
    choose|i: int| #[trigger] is_nearest(ps, q, i)
}

spec fn is_nearest_prefix(ps: Seq<Point>, q: Point, n: int, i: int) -> bool {
    &&& 0 <= i < n
    &&& forall|j: int| 0 <= j < n ==> dist2(ps[i], q) <= dist2(#[trigger] ps[j], q)
    &&& forall|j: int| 0 <= j < i ==> dist2(ps[i], q) < dist2(#[trigger] ps[j], q)
}

proof fn lemma_nearest_exists_prefix(ps: Seq<Point>, q: Point, n: int)
    requires
        1 <= n <= ps.len(),
    ensures
        exists|i: int| #[trigger] is_nearest_prefix(ps, q, n, i),
    decreases n,
{
    if n == 1 {
        assert(is_nearest_prefix(ps, q, 1, 0));
    } else {
        lemma_nearest_exists_prefix(ps, q, n - 1);
        let i = choose|i: int| #[trigger] is_nearest_prefix(ps, q, n - 1, i);
        if dist2(ps[n - 1], q) < dist2(ps[i], q) {
            assert(is_nearest_prefix(ps, q, n, n - 1));
        } else {
            assert(is_nearest_prefix(ps, q, n, i));
        }
    }
}

/// For any query over a nonempty point sequence a nearest index
/// exists, and `nearest_idx` denotes it.
pub proof fn lemma_nearest_exists(ps: Seq<Point>, q: Point)
    requires
        ps.len() > 0,
    ensures
        is_nearest(ps, q, nearest_idx(ps, q)),
{
    lemma_nearest_exists_prefix(ps, q, ps.len() as int);
    let i = choose|i: int| #[trigger] is_nearest_prefix(ps, q, ps.len() as int, i);
    assert(is_nearest(ps, q, i));
    assert(is_nearest(ps, q, nearest_idx(ps, q)));
}

/// The nearest index is unique: the distance minimum together with
/// the lowest-index tie-break pins one answer, so any procedure
/// meeting `is_nearest` — the spatial index or an exhaustive linear
/// scan — returns the same index.
pub proof fn lemma_nearest_unique(ps: Seq<Point>, q: Point, i: int, j: int)
    requires
        is_nearest(ps, q, i),
        is_nearest(ps, q, j),
    ensures
        i == j,
{
    if i < j {
        assert(dist2(ps[j], q) < dist2(ps[i], q));
        assert(dist2(ps[i], q) <= dist2(ps[j], q));
    }
    if j < i {
        assert(dist2(ps[i], q) < dist2(ps[j], q));
        assert(dist2(ps[j], q) <= dist2(ps[i], q));
    }
}

/// With a single point every query resolves to index 0.
pub proof fn lemma_single_point(ps: Seq<Point>, q: Point)
    requires
        ps.len() == 1,
    ensures
        nearest_idx(ps, q) == 0,
{
    assert(is_nearest(ps, q, 0));
    lemma_nearest_exists(ps, q);
    lemma_nearest_unique(ps, q, 0, nearest_idx(ps, q));
}

/// An immutable nearest-neighbor index over a fixed point sequence.
/// Built once, then read-only: queries take `&self` and never change
/// the structure.
pub struct KdTree {
    root: KdNode,
    points_ghost: Ghost<Seq<Point>>,
}

impl KdTree {
    /// The point sequence the index was built from. A query's answer
    /// is a position in this sequence.
    pub closed spec fn points(&self) -> Seq<Point> {
        self.points_ghost@
    }

    /// The index is well formed: nonempty, every point in range, and
    /// the tree holds exactly the (point, position) pairs of the
    /// build sequence.
    pub closed spec fn wf(&self) -> bool {
        &&& self.points().len() > 0
        &&& forall|i: int| 0 <= i < self.points().len() ==> in_bounds(#[trigger] self.points()[i])
        &&& node_wf(self.root)
        &&& forall|p: Point, i: int|
            #[trigger] node_mem(self.root, p, i) ==> 0 <= i < self.points().len()
                && self.points()[i] == p
        &&& forall|i: int|
            0 <= i < self.points().len() ==> node_mem(self.root, #[trigger] self.points()[i], i)
    }

    /// Answers a nearest-neighbor query: the index, into the build
    /// sequence, of the point with minimal squared Euclidean distance
    /// to `q`; among equidistant points, the lowest index.
    pub fn nearest_neighbor(&self, q: Point) -> (r: usize)
        requires
            self.wf(),
            in_bounds(q),
        ensures
            is_nearest(self.points(), q, r as int),
            r as int == nearest_idx(self.points(), q),
    {
        let res = self.root.nn(q, u64::MAX, 0);
        proof {
            let ps = self.points();
            assert(node_mem(self.root, ps[0], 0));
            lemma_dist2_bounds(ps[0], q);
            assert(cand_le(res.0 as int, res.1 as int, dist2(ps[0], q), 0));
            assert(res.0 < u64::MAX);
            let (p, i) = choose|p: Point, i: int|
                #[trigger] node_mem(self.root, p, i) && dist2(p, q) == res.0 as int && i
                    == res.1 as int;
            assert(0 <= i < ps.len() && ps[i] == p);
            assert forall|j: int| 0 <= j < ps.len() implies dist2(ps[res.1 as int], q) <= dist2(
                #[trigger] ps[j],
                q,
            ) by {
                assert(node_mem(self.root, ps[j], j));
                assert(cand_le(res.0 as int, res.1 as int, dist2(ps[j], q), j));
            }
            assert forall|j: int| 0 <= j < (res.1 as int) implies dist2(ps[res.1 as int], q) < dist2(
                #[trigger] ps[j],
                q,
            ) by {
                assert(node_mem(self.root, ps[j], j));
                assert(cand_le(res.0 as int, res.1 as int, dist2(ps[j], q), j));
            }
            assert(is_nearest(ps, q, res.1 as int));
            lemma_nearest_exists(ps, q);
            lemma_nearest_unique(ps, q, res.1 as int, nearest_idx(ps, q));
        }
        res.1
    }
}

/// Builds the spatial index over the points of `sites`. Returns
/// `None` exactly when `sites` is empty — no valid index exists then
/// and rasterization must not run — and otherwise an index whose
/// queries answer positions into `sites`.
pub fn build_kdtree_from_sites(sites: &Vec<Site>) -> (r: Option<KdTree>)
    requires
        forall|k: int| 0 <= k < sites@.len() ==> in_bounds(#[trigger] sites@[k].point),
    ensures
        r is Some <==> sites@.len() > 0,
        r is Some ==> r->0.wf() && r->0.points() == site_points(sites@),
{
    if sites.len() == 0 {
        return None;
    }
    let mut entries: Vec<Entry> = Vec::new();
    let mut j: usize = 0;
    while j < sites.len()
        invariant
            j <= sites@.len(),
            forall|k: int| 0 <= k < sites@.len() ==> in_bounds(#[trigger] sites@[k].point),
            entries@.len() == j,
            forall|k: int|
                0 <= k < j ==> #[trigger] entries@[k].point == sites@[k].point
                    && entries@[k].idx as int == k,
        decreases sites@.len() - j,
    {
        let e = Entry { point: sites[j].point, idx: j };
        entries.push(e);
        j = j + 1;
    }
    let ghost es = entries@;
    let ghost sp = site_points(sites@);
    let root = build_node(entries);
    proof {
        assert forall|p: Point, i: int| #[trigger] node_mem(root, p, i) implies 0 <= i < sp.len()
            && sp[i] == p by {
            let k = choose|k: int| 0 <= k < es.len() && es[k].point == p && es[k].idx as int == i;
            assert(es[k].idx as int == k);
        }
        assert forall|i: int| 0 <= i < sp.len() implies node_mem(root, #[trigger] sp[i], i) by {
            assert(es[i].point == sp[i] && es[i].idx as int == i);
            assert(seq_mem(es, sp[i], i));
        }
    }
    let t = KdTree { root, points_ghost: Ghost(site_points(sites@)) };
    proof {
        assert(t.wf());
    }
    Some(t)
}

/// Exhaustive reference query: scans all points and returns the index
/// of the closest, keeping the lowest index among ties. Meets the
/// same contract as `KdTree::nearest_neighbor`, so the two always
/// agree (see `lemma_nearest_unique`).
pub fn nearest_neighbor_linear(points: &Vec<Point>, q: Point) -> (r: usize)
    requires
        points@.len() > 0,
        forall|k: int| 0 <= k < points@.len() ==> in_bounds(#[trigger] points@[k]),
        in_bounds(q),
    ensures
        is_nearest(points@, q, r as int),
        r as int == nearest_idx(points@, q),
{
    let mut best_i: usize = 0;
    let mut best_d: u64 = dist2_exec(points[0], q);
    let mut j: usize = 1;
    while j < points.len()
        invariant
            1 <= j <= points@.len(),
            in_bounds(q),
            forall|k: int| 0 <= k < points@.len() ==> in_bounds(#[trigger] points@[k]),
            best_i < j,
            best_d as int == dist2(points@[best_i as int], q),
            forall|k: int| 0 <= k < j ==> best_d as int <= dist2(#[trigger] points@[k], q),
            forall|k: int| 0 <= k < (best_i as int) ==> (best_d as int) < dist2(#[trigger] points@[k], q),
        decreases points@.len() - j,
    {
        let d = dist2_exec(points[j], q);
        if d < best_d {
            best_d = d;
            best_i = j;
        }
        j = j + 1;
    }
    proof {
        assert(is_nearest(points@, q, best_i as int));
        lemma_nearest_exists(points@, q);
        lemma_nearest_unique(points@, q, best_i as int, nearest_idx(points@, q));
    }
    best_i
}

} // verus!
