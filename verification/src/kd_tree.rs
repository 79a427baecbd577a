//! Spatial range index: a 2-d tree over a fixed point set, split at
//! rectangle midpoints, answering axis-aligned rectangle queries exactly.

use vstd::prelude::*;
use crate::geometry::{Point, in_range, coord_bound};

verus! {

/// A leaf keeps at most this many points (unless its rectangle cannot be
/// split further).
pub const LEAF_CAP: usize = 4;

/// An axis-aligned rectangle, closed on all sides.
#[derive(Debug, Clone, Copy, PartialEq, Eq, Structural)]
pub struct Rect {
    pub x1: i64,
    pub y1: i64,
    pub x2: i64,
    pub y2: i64,
}

/// The rectangle's corners are ordered and within the kernel's coordinate
/// bound.
pub open spec fn rect_wf(r: Rect) -> bool {
    &&& r.x1 <= r.x2
    &&& r.y1 <= r.y2
    &&& -coord_bound() <= r.x1 && r.x2 <= coord_bound()
    &&& -coord_bound() <= r.y1 && r.y2 <= coord_bound()
}

/// `p` lies inside `r` (closed bounds).
pub open spec fn in_rect(p: Point, r: Rect) -> bool {
    r.x1 <= p.x <= r.x2 && r.y1 <= p.y <= r.y2
}

/// One node of the tree: the complete list of point indices in its
/// rectangle, and up to two children partitioning that rectangle.
pub struct TreeNode {
    pub values: Vec<usize>,
    pub borders: Rect,
    pub left: Option<Box<TreeNode>>,
    pub right: Option<Box<TreeNode>>,
}

/// The indices a child subtree holds; none for an absent child.
pub open spec fn child_vals(c: Option<Box<TreeNode>>) -> Seq<usize> {
    match c {
        Option::None => Seq::empty(),
        Option::Some(b) => b.values@,
    }
}

/// An inner node splits along its rectangle's wider axis: along y when the
/// rectangle is taller than wide, else along x.
pub open spec fn split_dir_y(b: Rect) -> bool {
    b.y2 - b.y1 > b.x2 - b.x1
}

/// The midpoint of the rectangle along its split axis.
pub open spec fn split_mid(b: Rect) -> int {
    if split_dir_y(b) {
        b.y1 + (b.y2 - b.y1) / 2
    } else {
        b.x1 + (b.x2 - b.x1) / 2
    }
}

/// The left child's rectangle is the parent's, cut at the split midpoint
/// on the lower side.
pub open spec fn left_child_rect_ok(c: Rect, b: Rect) -> bool {
    if split_dir_y(b) {
        c.x1 == b.x1 && c.y1 == b.y1 && c.x2 == b.x2 && c.y2 as int == split_mid(b)
    } else {
        c.x1 == b.x1 && c.y1 == b.y1 && c.x2 as int == split_mid(b) && c.y2 == b.y2
    }
}

/// The right child's rectangle is the parent's, cut at the split midpoint
/// on the upper side.
pub open spec fn right_child_rect_ok(c: Rect, b: Rect) -> bool {
    if split_dir_y(b) {
        c.x1 == b.x1 && c.y1 as int == split_mid(b) && c.x2 == b.x2 && c.y2 == b.y2
    } else {
        c.x1 as int == split_mid(b) && c.y1 == b.y1 && c.x2 == b.x2 && c.y2 == b.y2
    }
}

impl TreeNode {
    /// Structural invariant relating the node to the point set: indices are
    /// valid and unique, all points lie in the node's rectangle, and an
    /// inner node's indices are exactly those of its children, disjointly.
    pub open spec fn wf(self, pts: Seq<Point>) -> bool
        decreases self,
    {
        &&& rect_wf(self.borders)
        &&& self.values@.no_duplicates()
        &&& forall|k: int| 0 <= k < self.values@.len() ==> (#[trigger] self.values@[k]) < pts.len()
        &&& forall|k: int| 0 <= k < self.values@.len()
            ==> in_rect(pts[self.values@[k] as int], self.borders)
        &&& (self.left is Some || self.right is Some) ==> {
            &&& forall|x: usize| #[trigger] self.values@.contains(x)
                <==> (child_vals(self.left).contains(x) || child_vals(self.right).contains(x))
            &&& forall|x: usize| !(child_vals(self.left).contains(x)
                && #[trigger] child_vals(self.right).contains(x))
            &&& match self.left {
                Option::Some(l) => left_child_rect_ok(l.borders, self.borders),
                Option::None => true,
            }
            &&& match self.right {
                Option::Some(r) => right_child_rect_ok(r.borders, self.borders),
                Option::None => true,
            }
            &&& forall|x: usize| #[trigger] self.values@.contains(x)
                ==> (child_vals(self.left).contains(x)
                    <==> below_split(pts, x, split_dir_y(self.borders), split_mid(self.borders)))
        }
        &&& match self.left {
            Option::Some(l) => l.wf(pts),
            Option::None => true,
        }
        &&& match self.right {
            Option::Some(r) => r.wf(pts),
            Option::None => true,
        }
    }

    /// All point indices of this subtree whose point lies in the closed
    /// query rectangle `[x1, x2] x [y1, y2]` — exactly the brute-force
    /// filter of the node's stored indices.
    pub fn query(&self, pts: &Vec<Point>, x1: i64, y1: i64, x2: i64, y2: i64) -> (r: Vec<usize>)
        requires
            self.wf(pts@),
        ensures
            r@.no_duplicates(),
            forall|x: usize| #[trigger] r@.contains(x)
                <==> (self.values@.contains(x)
                    && in_rect(pts@[x as int], Rect { x1, y1, x2, y2 })),
        decreases *self,
    {
        let b = self.borders;
        let ghost qr = Rect { x1, y1, x2, y2 };
        if x1 <= b.x1 && y1 <= b.y1 && b.x2 <= x2 && b.y2 <= y2 {
            // The node's rectangle is fully inside the query: everything
            // stored qualifies.
            let mut out: Vec<usize> = Vec::new();
            let mut q: usize = 0;
            while q < self.values.len()
                invariant
                    q <= self.values@.len(),
                    out@ == self.values@.subrange(0, q as int),
                decreases self.values@.len() - q,
            {
                out.push(self.values[q]);
                proof {
                    assert(out@ =~= self.values@.subrange(0, q + 1));
                }
                q += 1;
            }
            proof {
                assert(out@ =~= self.values@);
                assert forall|x: usize| #[trigger] out@.contains(x)
                    implies (self.values@.contains(x) && in_rect(pts@[x as int], qr)) by {
                    let k = choose|k: int| 0 <= k < self.values@.len() && self.values@[k] == x;
                    assert(in_rect(pts@[self.values@[k] as int], self.borders));
                }
            }
            return out;
        }
        if x1 > b.x2 || y1 > b.y2 || x2 < b.x1 || y2 < b.y1 {
            // The query misses the node's rectangle entirely.
            let out: Vec<usize> = Vec::new();
            proof {
                assert forall|x: usize|
                    !(self.values@.contains(x) && in_rect(pts@[x as int], qr)) by {
                    if self.values@.contains(x) {
                        let k = choose|k: int|
                            0 <= k < self.values@.len() && self.values@[k] == x;
                        assert(in_rect(pts@[self.values@[k] as int], self.borders));
                    }
                }
            }
            return out;
        }
        if self.left.is_none() && self.right.is_none() {
            // Leaf with partial overlap: filter the stored points directly.
            let mut out: Vec<usize> = Vec::new();
            let mut q: usize = 0;
            while q < self.values.len()
                invariant
                    q <= self.values@.len(),
                    self.wf(pts@),
                    qr == (Rect { x1, y1, x2, y2 }),
                    out@.no_duplicates(),
                    forall|x: usize| #[trigger] out@.contains(x)
                        <==> (self.values@.subrange(0, q as int).contains(x)
                            && in_rect(pts@[x as int], qr)),
                decreases self.values@.len() - q,
            {
                let idx = self.values[q];
                let p = pts[idx];
                let ghost out_old = out@;
                if x1 <= p.x && p.x <= x2 && y1 <= p.y && p.y <= y2 {
                    proof {
                        if out@.contains(idx) {
                            assert(self.values@.subrange(0, q as int).contains(idx));
                            let m = choose|m: int| 0 <= m < q && self.values@[m] == idx;
                            assert(self.values@[m] == self.values@[q as int]);
                        }
                    }
                    out.push(idx);
                }
                proof {
                    assert(self.values@.subrange(0, q + 1)
                        =~= self.values@.subrange(0, q as int).push(self.values@[q as int]));
                    assert forall|x: usize| #[trigger] out@.contains(x)
                        <==> (self.values@.subrange(0, q + 1).contains(x)
                            && in_rect(pts@[x as int], qr)) by {
                        crate::graph_gen::lemma_push_contains(
                            self.values@.subrange(0, q as int), self.values@[q as int], x);
                        if in_rect(pts@[idx as int], qr) {
                            crate::graph_gen::lemma_push_contains(out_old, idx, x);
                        }
                    }
                }
                q += 1;
            }
            proof {
                assert(self.values@.subrange(0, self.values@.len() as int) =~= self.values@);
            }
            return out;
        }
        // Partial overlap on an inner node: both children together hold
        // exactly this node's indices.
        let mut out: Vec<usize> = Vec::new();
        let ghost lv = child_vals(self.left);
        let ghost rv = child_vals(self.right);
        match &self.left {
            Option::None => {},
            Option::Some(l) => {
                out = l.query(pts, x1, y1, x2, y2);
            },
        }
        let ghost out_l = out@;
        let mut out_r_v: Vec<usize> = Vec::new();
        match &self.right {
            Option::None => {},
            Option::Some(r) => {
                out_r_v = r.query(pts, x1, y1, x2, y2);
            },
        }
        let ghost out_r = out_r_v@;
        proof {
            assert forall|x: usize| #[trigger] out_l.contains(x)
                <==> (lv.contains(x) && in_rect(pts@[x as int], qr)) by {}
            assert forall|x: usize| #[trigger] out_r.contains(x)
                <==> (rv.contains(x) && in_rect(pts@[x as int], qr)) by {}
        }
        let mut q: usize = 0;
        while q < out_r_v.len()
            invariant
                q <= out_r.len(),
                out_r == out_r_v@,
                out@ == out_l + out_r.subrange(0, q as int),
            decreases out_r.len() - q,
        {
            out.push(out_r_v[q]);
            proof {
                assert(out@ =~= out_l + out_r.subrange(0, q + 1));
            }
            q += 1;
        }
        proof {
            assert(out@ =~= out_l + out_r);
            assert forall|x: usize| #[trigger] out@.contains(x)
                <==> (out_l.contains(x) || out_r.contains(x)) by {
                if out@.contains(x) {
                    let k = choose|k: int| 0 <= k < out@.len() && out@[k] == x;
                    if k < out_l.len() {
                        assert(out_l[k] == x);
                    } else {
                        assert(out_r[k - out_l.len()] == x);
                    }
                }
                if out_l.contains(x) {
                    let k = choose|k: int| 0 <= k < out_l.len() && out_l[k] == x;
                    assert(out@[k] == x);
                }
                if out_r.contains(x) {
                    let k = choose|k: int| 0 <= k < out_r.len() && out_r[k] == x;
                    assert(out@[k + out_l.len()] == x);
                }
            }
            // Disjoint children keep the concatenation duplicate-free.
            assert forall|a: int, c: int|
                0 <= a < out@.len() && 0 <= c < out@.len() && a != c
                implies out@[a] != out@[c] by {
                if a < out_l.len() && c < out_l.len() {
                    assert(out_l[a] != out_l[c]);
                } else if a >= out_l.len() && c >= out_l.len() {
                    assert(out_r[a - out_l.len()] != out_r[c - out_l.len()]);
                } else if a < out_l.len() && c >= out_l.len() {
                    assert(out_l.contains(out@[a]));
                    assert(out_r.contains(out@[c]));
                    if out@[a] == out@[c] {
                        assert(lv.contains(out@[a]) && rv.contains(out@[a]));
                    }
                } else {
                    assert(out_r.contains(out@[a]));
                    assert(out_l.contains(out@[c]));
                    if out@[a] == out@[c] {
                        assert(lv.contains(out@[c]) && rv.contains(out@[c]));
                    }
                }
            }
        }
        out
    }

    /// Builds the subtree for `idxs` inside `borders`: split the wider axis
    /// at its midpoint, points strictly below the split line go left, the
    /// rest right, until a node holds at most `LEAF_CAP` points or its
    /// rectangle cannot shrink.
    #[verifier::rlimit(100)]
    pub fn build(pts: &Vec<Point>, idxs: Vec<usize>, borders: Rect) -> (node: TreeNode)
        requires
            rect_wf(borders),
            idxs@.no_duplicates(),
            forall|k: int| 0 <= k < idxs@.len() ==> (#[trigger] idxs@[k]) < pts@.len(),
            forall|k: int| 0 <= k < idxs@.len()
                ==> in_rect(pts@[idxs@[k] as int], borders),
        ensures
            node.wf(pts@),
            node.values@ == idxs@,
            node.borders == borders,
            idxs@.len() <= LEAF_CAP ==> node.left is None && node.right is None,
        decreases (borders.x2 - borders.x1) + (borders.y2 - borders.y1),
    {
        let w = borders.x2 - borders.x1;
        let h = borders.y2 - borders.y1;
        if idxs.len() <= LEAF_CAP || (w <= 1 && h <= 1) {
            return TreeNode { values: idxs, borders, left: None, right: None };
        }
        let dir_y = h > w;
        let mid = if dir_y {
            borders.y1 + h / 2
        } else {
            borders.x1 + w / 2
        };
        let left_rect = if dir_y {
            Rect { x1: borders.x1, y1: borders.y1, x2: borders.x2, y2: mid }
        } else {
            Rect { x1: borders.x1, y1: borders.y1, x2: mid, y2: borders.y2 }
        };
        let right_rect = if dir_y {
            Rect { x1: borders.x1, y1: mid, x2: borders.x2, y2: borders.y2 }
        } else {
            Rect { x1: mid, y1: borders.y1, x2: borders.x2, y2: borders.y2 }
        };
        let mut li: Vec<usize> = Vec::new();
        let mut ri: Vec<usize> = Vec::new();
        let mut q: usize = 0;
        while q < idxs.len()
            invariant
                q <= idxs@.len(),
                idxs@.no_duplicates(),
                forall|k: int| 0 <= k < idxs@.len() ==> (#[trigger] idxs@[k]) < pts@.len(),
                forall|k: int| 0 <= k < idxs@.len()
                    ==> in_rect(pts@[idxs@[k] as int], borders),
                li@.no_duplicates(),
                ri@.no_duplicates(),
                forall|x: usize| #[trigger] li@.contains(x)
                    <==> (idxs@.subrange(0, q as int).contains(x)
                        && below_split(pts@, x, dir_y, mid as int)),
                forall|x: usize| #[trigger] ri@.contains(x)
                    <==> (idxs@.subrange(0, q as int).contains(x)
                        && !below_split(pts@, x, dir_y, mid as int)),
            decreases idxs@.len() - q,
        {
            let idx = idxs[q];
            let p = pts[idx];
            let ghost li_old = li@;
            let ghost ri_old = ri@;
            let below = if dir_y { p.y < mid } else { p.x < mid };
            proof {
                if li@.contains(idx) || ri@.contains(idx) {
                    let m = choose|m: int| 0 <= m < q && idxs@[m] == idx;
                    assert(idxs@[m] == idxs@[q as int]);
                }
            }
            if below {
                li.push(idx);
            } else {
                ri.push(idx);
            }
            proof {
                assert(idxs@.subrange(0, q + 1)
                    =~= idxs@.subrange(0, q as int).push(idxs@[q as int]));
                assert forall|x: usize| #[trigger] li@.contains(x)
                    <==> (idxs@.subrange(0, q + 1).contains(x)
                        && below_split(pts@, x, dir_y, mid as int)) by {
                    crate::graph_gen::lemma_push_contains(
                        idxs@.subrange(0, q as int), idxs@[q as int], x);
                    if below {
                        crate::graph_gen::lemma_push_contains(li_old, idx, x);
                    }
                }
                assert forall|x: usize| #[trigger] ri@.contains(x)
                    <==> (idxs@.subrange(0, q + 1).contains(x)
                        && !below_split(pts@, x, dir_y, mid as int)) by {
                    crate::graph_gen::lemma_push_contains(
                        idxs@.subrange(0, q as int), idxs@[q as int], x);
                    if !below {
                        crate::graph_gen::lemma_push_contains(ri_old, idx, x);
                    }
                }
            }
            q += 1;
        }
        proof {
            assert(idxs@.subrange(0, idxs@.len() as int) =~= idxs@);
            assert forall|k: int| 0 <= k < li@.len()
                implies in_rect(pts@[(#[trigger] li@[k]) as int], left_rect) by {
                assert(li@.contains(li@[k]));
            }
            assert forall|k: int| 0 <= k < ri@.len()
                implies in_rect(pts@[(#[trigger] ri@[k]) as int], right_rect) by {
                assert(ri@.contains(ri@[k]));
            }
            assert forall|k: int| 0 <= k < li@.len()
                implies (#[trigger] li@[k]) < pts@.len() by {
                assert(li@.contains(li@[k]));
            }
            assert forall|k: int| 0 <= k < ri@.len()
                implies (#[trigger] ri@[k]) < pts@.len() by {
                assert(ri@.contains(ri@[k]));
            }
        }
        let ghost liv = li@;
        let ghost riv = ri@;
        let left = if li.len() > 0 {
            Some(Box::new(TreeNode::build(pts, li, left_rect)))
        } else {
            None
        };
        let right = if ri.len() > 0 {
            Some(Box::new(TreeNode::build(pts, ri, right_rect)))
        } else {
            None
        };
        let node = TreeNode { values: idxs, borders, left, right };
        proof {
            assert(child_vals(node.left) =~= liv);
            assert(child_vals(node.right) =~= riv);
            assert(split_dir_y(borders) == dir_y);
            assert(split_mid(borders) == mid as int);
            assert forall|x: usize| #[trigger] node.values@.contains(x)
                implies (child_vals(node.left).contains(x)
                    || child_vals(node.right).contains(x)) by {
                if below_split(pts@, x, dir_y, mid as int) {
                    assert(liv.contains(x));
                } else {
                    assert(riv.contains(x));
                }
            }
            assert forall|x: usize| #[trigger] node.values@.contains(x)
                implies (child_vals(node.left).contains(x)
                    <==> below_split(pts@, x, split_dir_y(borders), split_mid(borders))) by {
                if below_split(pts@, x, dir_y, mid as int) {
                    assert(liv.contains(x));
                }
            }
        }
        node
    }
}

/// The point with index `x` lies strictly below (or left of) the split line.
pub open spec fn below_split(pts: Seq<Point>, x: usize, dir_y: bool, mid: int) -> bool {
    if dir_y {
        pts[x as int].y < mid
    } else {
        pts[x as int].x < mid
    }
}

/// The spatial range index over one fixed point set.
pub struct Tree {
    pub main: TreeNode,
    pub points: Vec<Point>,
    pub size: usize,
}

impl Tree {
    /// The tree indexes exactly its point set: the root's rectangle is
    /// well-formed and its stored indices are `0 .. size`.
    pub open spec fn wf(self) -> bool {
        &&& self.main.wf(self.points@)
        &&& self.size == self.points@.len()
        &&& forall|x: usize| #[trigger] self.main.values@.contains(x) <==> x < self.size
    }

    /// Builds the index over `points` (owned thereafter), starting from the
    /// points' exact bounding rectangle.
    pub fn new(points: Vec<Point>) -> (t: Tree)
        requires
            points@.len() >= 1,
            forall|k: int| 0 <= k < points@.len()
                ==> in_range(#[trigger] points@[k], coord_bound()),
        ensures
            t.wf(),
            t.points@ == points@,
            t.size == points@.len(),
            // The root's rectangle is the exact bounding box of the input:
            // it contains every point, and every side is attained.
            forall|k: int| 0 <= k < points@.len()
                ==> in_rect(#[trigger] points@[k], t.main.borders),
            exists|k: int| 0 <= k < points@.len() && (#[trigger] points@[k]).x == t.main.borders.x1,
            exists|k: int| 0 <= k < points@.len() && (#[trigger] points@[k]).y == t.main.borders.y1,
            exists|k: int| 0 <= k < points@.len() && (#[trigger] points@[k]).x == t.main.borders.x2,
            exists|k: int| 0 <= k < points@.len() && (#[trigger] points@[k]).y == t.main.borders.y2,
    {
        let n = points.len();
        let mut ld_x = points[0].x;
        let mut ld_y = points[0].y;
        let mut ru_x = points[0].x;
        let mut ru_y = points[0].y;
        let mut q: usize = 1;
        while q < n
            invariant
                1 <= q <= n,
                n == points@.len(),
                forall|k: int| 0 <= k < points@.len()
                    ==> in_range(#[trigger] points@[k], coord_bound()),
                -coord_bound() <= ld_x <= ru_x <= coord_bound(),
                -coord_bound() <= ld_y <= ru_y <= coord_bound(),
                forall|k: int| 0 <= k < q
                    ==> ld_x <= (#[trigger] points@[k]).x <= ru_x
                        && ld_y <= points@[k].y <= ru_y,
                exists|k: int| 0 <= k < q && (#[trigger] points@[k]).x == ld_x,
                exists|k: int| 0 <= k < q && (#[trigger] points@[k]).y == ld_y,
                exists|k: int| 0 <= k < q && (#[trigger] points@[k]).x == ru_x,
                exists|k: int| 0 <= k < q && (#[trigger] points@[k]).y == ru_y,
            decreases n - q,
        {
            let p = points[q];
            let ghost lx0 = ld_x;
            let ghost ly0 = ld_y;
            let ghost rx0 = ru_x;
            let ghost ry0 = ru_y;
            if p.x < ld_x {
                ld_x = p.x;
            }
            if p.x > ru_x {
                ru_x = p.x;
            }
            if p.y < ld_y {
                ld_y = p.y;
            }
            if p.y > ru_y {
                ru_y = p.y;
            }
            proof {
                if ld_x == lx0 {
                    let k = choose|k: int| 0 <= k < q && (#[trigger] points@[k]).x == lx0;
                    assert(points@[k].x == ld_x);
                } else {
                    assert(points@[q as int].x == ld_x);
                }
                if ld_y == ly0 {
                    let k = choose|k: int| 0 <= k < q && (#[trigger] points@[k]).y == ly0;
                    assert(points@[k].y == ld_y);
                } else {
                    assert(points@[q as int].y == ld_y);
                }
                if ru_x == rx0 {
                    let k = choose|k: int| 0 <= k < q && (#[trigger] points@[k]).x == rx0;
                    assert(points@[k].x == ru_x);
                } else {
                    assert(points@[q as int].x == ru_x);
                }
                if ru_y == ry0 {
                    let k = choose|k: int| 0 <= k < q && (#[trigger] points@[k]).y == ry0;
                    assert(points@[k].y == ru_y);
                } else {
                    assert(points@[q as int].y == ru_y);
                }
            }
            q += 1;
        }
        let borders = Rect { x1: ld_x, y1: ld_y, x2: ru_x, y2: ru_y };
        let mut idxs: Vec<usize> = Vec::new();
        let mut q: usize = 0;
        while q < n
            invariant
                q <= n,
                idxs@.len() == q,
                forall|k: int| 0 <= k < q ==> (#[trigger] idxs@[k]) == k,
            decreases n - q,
        {
            idxs.push(q);
            q += 1;
        }
        proof {
            assert forall|x: usize| #[trigger] idxs@.contains(x) implies x < n by {
                let k = choose|k: int| 0 <= k < idxs@.len() && idxs@[k] == x;
            }
            assert forall|x: usize| x < n implies #[trigger] idxs@.contains(x) by {
                assert(idxs@[x as int] == x);
            }
        }
        let main = TreeNode::build(&points, idxs, borders);
        Tree { main, points, size: n }
    }

    /// All indices of points inside the closed query rectangle — exactly
    /// the brute-force filter of the whole point set.
    pub fn query(&self, x1: i64, y1: i64, x2: i64, y2: i64) -> (r: Vec<usize>)
        requires
            self.wf(),
        ensures
            r@.no_duplicates(),
            forall|x: usize| #[trigger] r@.contains(x)
                <==> (x < self.points@.len()
                    && in_rect(self.points@[x as int], Rect { x1, y1, x2, y2 })),
    {
        self.main.query(&self.points, x1, y1, x2, y2)
    }
}

} // verus!
