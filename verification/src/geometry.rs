//! Exact integer plane geometry: points, segments, orientation tests,
//! strict segment intersection and a monotone-chain convex hull.

use vstd::prelude::*;
use vstd::seq_lib::lemma_multiset_commutative;
use crate::lemma_mul_bound;

verus! {

/// Largest coordinate magnitude the geometric kernel accepts.
///
/// With coordinates within this bound every cross product, dot product and
/// squared distance computed below stays within `8 * coord_bound()^2`,
/// which fits in an `i64`, so all sign tests are exact.
pub open spec fn coord_bound() -> int {
    1_000_000_000
}

/// A point (or vector) in the plane with exact integer coordinates.
#[derive(Debug, Clone, Copy, PartialEq, Eq, Structural)]
pub struct Point {
    pub x: i64,
    pub y: i64,
}

/// A line segment between two points; the order of the endpoints matters
/// only for orientation computations, not for intersection.
#[derive(Debug, Clone, Copy, PartialEq, Eq, Structural)]
pub struct Line {
    pub p1: Point,
    pub p2: Point,
}

/// `p` has both coordinates within magnitude `m`.
pub open spec fn in_range(p: Point, m: int) -> bool {
    -m <= p.x <= m && -m <= p.y <= m
}

/// Mathematical cross product of the vectors `a` and `b`.
pub open spec fn cross_val(a: Point, b: Point) -> int {
    a.x * b.y - a.y * b.x
}

/// Mathematical dot product of the vectors `a` and `b`.
pub open spec fn dot_val(a: Point, b: Point) -> int {
    a.x * b.x + a.y * b.y
}

/// Squared Euclidean distance between `a` and `b`.
pub open spec fn dist_sqr_val(a: Point, b: Point) -> int {
    (a.x - b.x) * (a.x - b.x) + (a.y - b.y) * (a.y - b.y)
}

/// Sign of an integer: -1, 0 or 1.
pub open spec fn sign(v: int) -> int {
    if v < 0 {
        -1
    } else if v > 0 {
        1
    } else {
        0
    }
}

/// Turn direction of the path `a -> b -> c`: positive for a left
/// (counter-clockwise) turn, negative for a right turn, zero if collinear.
pub open spec fn turn_val(a: Point, b: Point, c: Point) -> int {
    (b.x - a.x) * (c.y - a.y) - (b.y - a.y) * (c.x - a.x)
}

/// The endpoints of `m` lie strictly on opposite sides of the line through `l`.
pub open spec fn strictly_opposite(l: Line, m: Line) -> bool {
    (turn_val(l.p1, m.p1, l.p2) < 0 && turn_val(l.p1, m.p2, l.p2) > 0)
    || (turn_val(l.p1, m.p1, l.p2) > 0 && turn_val(l.p1, m.p2, l.p2) < 0)
}

/// The segments `l` and `m` properly cross: each one's endpoints lie strictly
/// on opposite sides of the other's line. Segments that merely touch at an
/// endpoint, or are collinear, do not cross under this (deliberately strict)
/// definition.
pub open spec fn segs_cross(l: Line, m: Line) -> bool {
    strictly_opposite(l, m) && strictly_opposite(m, l)
}

/// Proper segment crossing is symmetric in its two arguments.
pub proof fn lemma_intersects_symmetric(a: Line, b: Line)
    ensures
        segs_cross(a, b) == segs_cross(b, a),
{
}

impl Point {
    /// Cross product of `self` and `o` as vectors.
    pub fn cross(&self, o: &Point) -> (r: i64)
        requires
            in_range(*self, 2 * coord_bound()),
            in_range(*o, 2 * coord_bound()),
        ensures
            r == cross_val(*self, *o),
    {
        let ax = self.x;
        let ay = self.y;
        let bx = o.x;
        let by = o.y;
        proof {
            lemma_mul_bound(ax as int, by as int, 2_000_000_000);
            lemma_mul_bound(ay as int, bx as int, 2_000_000_000);
        }
        ax * by - ay * bx
    }

    /// Dot product of `self` and `o` as vectors.
    pub fn dot(&self, o: &Point) -> (r: i64)
        requires
            in_range(*self, 2 * coord_bound()),
            in_range(*o, 2 * coord_bound()),
        ensures
            r == dot_val(*self, *o),
    {
        let ax = self.x;
        let ay = self.y;
        let bx = o.x;
        let by = o.y;
        proof {
            lemma_mul_bound(ax as int, bx as int, 2_000_000_000);
            lemma_mul_bound(ay as int, by as int, 2_000_000_000);
        }
        ax * bx + ay * by
    }

    /// Squared distance from `self` to `o`.
    pub fn dist_sqr(&self, o: &Point) -> (r: i64)
        requires
            in_range(*self, coord_bound()),
            in_range(*o, coord_bound()),
        ensures
            r == dist_sqr_val(*self, *o),
    {
        let dx = self.x - o.x;
        let dy = self.y - o.y;
        proof {
            lemma_mul_bound(dx as int, dx as int, 2 * coord_bound());
            lemma_mul_bound(dy as int, dy as int, 2 * coord_bound());
        }
        dx * dx + dy * dy
    }

    /// Sign of the cross product of `self` and `o`: -1, 0 or 1.
    pub fn orientation(&self, o: &Point) -> (r: i8)
        requires
            in_range(*self, 2 * coord_bound()),
            in_range(*o, 2 * coord_bound()),
        ensures
            r as int == sign(cross_val(*self, *o)),
    {
        let tmp = self.cross(o);
        if tmp < 0 {
            -1
        } else if tmp > 0 {
            1
        } else {
            0
        }
    }

    /// Componentwise vector sum.
    pub fn add(&self, o: &Point) -> (r: Point)
        requires
            in_range(*self, coord_bound()),
            in_range(*o, coord_bound()),
        ensures
            r.x == self.x + o.x,
            r.y == self.y + o.y,
            in_range(r, 2 * coord_bound()),
    {
        Point { x: self.x + o.x, y: self.y + o.y }
    }

    /// Componentwise vector difference.
    pub fn sub(&self, o: &Point) -> (r: Point)
        requires
            in_range(*self, coord_bound()),
            in_range(*o, coord_bound()),
        ensures
            r.x == self.x - o.x,
            r.y == self.y - o.y,
            in_range(r, 2 * coord_bound()),
    {
        Point { x: self.x - o.x, y: self.y - o.y }
    }
}

impl Line {
    /// Strict crossing test: true exactly when the two segments properly
    /// cross; touching at an endpoint or collinear overlap returns false.
    pub fn intersects(&self, o: &Line) -> (r: bool)
        requires
            in_range(self.p1, coord_bound()),
            in_range(self.p2, coord_bound()),
            in_range(o.p1, coord_bound()),
            in_range(o.p2, coord_bound()),
        ensures
            r == segs_cross(*self, *o),
    {
        let d_self = self.p2.sub(&self.p1);
        let a1 = o.p1.sub(&self.p1).orientation(&d_self);
        let a2 = o.p2.sub(&self.p1).orientation(&d_self);
        let d_o = o.p2.sub(&o.p1);
        let b1 = self.p1.sub(&o.p1).orientation(&d_o);
        let b2 = self.p2.sub(&o.p1).orientation(&d_o);
        ((a1 == -1 && a2 == 1) || (a1 == 1 && a2 == -1))
            && ((b1 == -1 && b2 == 1) || (b1 == 1 && b2 == -1))
    }
}

/// Convex hull of the empty point set does not exist.
#[derive(Debug, Clone, Copy, PartialEq, Eq, Structural)]
pub enum HullError {
    EmptyInput,
}

/// Order on index/point pairs: by x, then y, then point index.
pub open spec fn lex_leq(a: (usize, Point), b: (usize, Point)) -> bool {
    a.1.x < b.1.x
    || (a.1.x == b.1.x && a.1.y < b.1.y)
    || (a.1.x == b.1.x && a.1.y == b.1.y && a.0 <= b.0)
}

/// Strict version of `lex_leq`.
pub open spec fn lex_lt(a: (usize, Point), b: (usize, Point)) -> bool {
    a.1.x < b.1.x
    || (a.1.x == b.1.x && a.1.y < b.1.y)
    || (a.1.x == b.1.x && a.1.y == b.1.y && a.0 < b.0)
}

/// `a` is lexicographically no greater than `b` as a coordinate pair.
pub open spec fn pt_leq(a: Point, b: Point) -> bool {
    a.x < b.x || (a.x == b.x && a.y <= b.y)
}

fn lex_less(a: &(usize, Point), b: &(usize, Point)) -> (r: bool)
    ensures
        r == lex_lt(*a, *b),
{
    a.1.x < b.1.x
    || (a.1.x == b.1.x && a.1.y < b.1.y)
    || (a.1.x == b.1.x && a.1.y == b.1.y && a.0 < b.0)
}

/// The sequence is sorted under `lex_leq`.
pub open spec fn sorted_lex(s: Seq<(usize, Point)>) -> bool {
    forall|i: int, j: int| 0 <= i < j < s.len() ==> lex_leq(s[i], s[j])
}

/// Every element of `h` pairs a valid index of `points` with its point.
pub open spec fn hull_pairs_valid(h: Seq<(usize, Point)>, points: Seq<Point>) -> bool {
    forall|k: int| 0 <= k < h.len()
        ==> (#[trigger] h[k]).0 < points.len() && points[h[k].0 as int] == h[k].1
}

/// Every point paired in `h` has coordinates within the kernel bound.
pub open spec fn pairs_in_range(h: Seq<(usize, Point)>) -> bool {
    forall|k: int| 0 <= k < h.len() ==> in_range((#[trigger] h[k]).1, coord_bound())
}

/// The vertex at position `k` continues a strict left turn from the two
/// vertices before it.
pub open spec fn left_turn_at(h: Seq<(usize, Point)>, k: int) -> bool {
    turn_val(h[k - 2].1, h[k - 1].1, h[k].1) > 0
}

/// Every three consecutive hull vertices make a strict left turn.
pub open spec fn strict_left_turns(h: Seq<(usize, Point)>) -> bool {
    forall|k: int| 2 <= k < h.len() ==> #[trigger] left_turn_at(h, k)
}

/// `e` is lexicographically no smaller than every index/point pair of the
/// input.
pub open spec fn is_lex_max_pair(e: (usize, Point), points: Seq<Point>) -> bool {
    forall|i: int| 0 <= i < points.len() ==> lex_leq((i as usize, #[trigger] points[i]), e)
}

/// What `convex_hull` guarantees of a hull over `points`: every vertex a
/// valid index/point pair, no vertex repeated, strict left turns
/// throughout, the walk starts at the lexicographically least index/point
/// pair of the whole input, the lexicographically greatest pair is also a
/// vertex, and two or more input points give two or more vertices.
pub open spec fn hull_post(h: Seq<(usize, Point)>, points: Seq<Point>) -> bool {
    &&& h.len() >= 1
    &&& (points.len() >= 2 ==> h.len() >= 2)
    &&& hull_pairs_valid(h, points)
    &&& h.no_duplicates()
    &&& strict_left_turns(h)
    &&& forall|i: int| 0 <= i < points.len() ==> pt_leq(h[0].1, #[trigger] points[i])
    &&& forall|i: int| 0 <= i < points.len() ==> lex_leq(h[0], (i as usize, #[trigger] points[i]))
    &&& exists|k: int| 0 <= k < h.len() && is_lex_max_pair(#[trigger] h[k], points)
}

/// Removing an element keeps the remaining ones pairwise distinct.
proof fn lemma_remove_no_dup<A>(s: Seq<A>, i: int)
    requires
        0 <= i < s.len(),
        s.no_duplicates(),
    ensures
        s.remove(i).no_duplicates(),
{
    assert forall|x: int, y: int|
        0 <= x < s.remove(i).len() && 0 <= y < s.remove(i).len() && x != y
        implies s.remove(i)[x] != s.remove(i)[y] by {
        let x0 = if x < i { x } else { x + 1 };
        let y0 = if y < i { y } else { y + 1 };
        assert(s[x0] != s[y0]);
    }
}

/// Removing some other element keeps `e` in the sequence.
proof fn lemma_remove_keeps<A>(s: Seq<A>, i: int, e: A)
    requires
        0 <= i < s.len(),
        s.contains(e),
        s[i] != e,
    ensures
        s.remove(i).contains(e),
{
    let w = choose|w: int| 0 <= w < s.len() && s[w] == e;
    if w < i {
        assert(s.remove(i)[w] == e);
    } else {
        assert(s.remove(i)[w - 1] == e);
    }
}

/// Merges two sorted runs; the result holds exactly the elements of both.
fn merge_pairs(a: &Vec<(usize, Point)>, b: &Vec<(usize, Point)>) -> (r: Vec<(usize, Point)>)
    requires
        sorted_lex(a@),
        sorted_lex(b@),
    ensures
        r@.to_multiset() == a@.to_multiset().add(b@.to_multiset()),
        sorted_lex(r@),
        r@.len() == a@.len() + b@.len(),
{
    let mut r: Vec<(usize, Point)> = Vec::new();
    let mut i: usize = 0;
    let mut j: usize = 0;
    proof {
        assert(a@.subrange(0, 0) =~= Seq::<(usize, Point)>::empty());
        assert(b@.subrange(0, 0) =~= Seq::<(usize, Point)>::empty());
        r@.to_multiset_ensures();
        a@.subrange(0, 0).to_multiset_ensures();
        b@.subrange(0, 0).to_multiset_ensures();
        assert(r@.to_multiset() =~= a@.subrange(0, 0).to_multiset().add(
            b@.subrange(0, 0).to_multiset()));
    }
    while i < a.len() || j < b.len()
        invariant
            i <= a@.len(),
            j <= b@.len(),
            sorted_lex(a@),
            sorted_lex(b@),
            r@.len() == i + j,
            sorted_lex(r@),
            r@.to_multiset() == a@.subrange(0, i as int).to_multiset().add(
                b@.subrange(0, j as int).to_multiset()),
            r@.len() > 0 && i < a@.len() ==> lex_leq(r@[r@.len() - 1], a@[i as int]),
            r@.len() > 0 && j < b@.len() ==> lex_leq(r@[r@.len() - 1], b@[j as int]),
        decreases a@.len() + b@.len() - i - j,
    {
        let take_a = if i < a.len() {
            j >= b.len() || !lex_less(&b[j], &a[i])
        } else {
            false
        };
        let ghost r_old = r@;
        if take_a {
            let e = a[i];
            r.push(e);
            proof {
                assert(a@.subrange(0, i + 1) =~= a@.subrange(0, i as int).push(e));
                a@.subrange(0, i as int).to_multiset_ensures();
                r_old.to_multiset_ensures();
                assert(r@.to_multiset() =~= a@.subrange(0, i + 1).to_multiset().add(
                    b@.subrange(0, j as int).to_multiset()));
                assert forall|x: int, y: int| 0 <= x < y < r@.len()
                    implies lex_leq(r@[x], r@[y]) by {
                    if y < r_old.len() {
                        assert(lex_leq(r_old[x], r_old[y]));
                    } else if x < r_old.len() - 1 {
                        assert(lex_leq(r_old[x], r_old[r_old.len() - 1]));
                    }
                }
            }
            i += 1;
        } else {
            let e = b[j];
            r.push(e);
            proof {
                assert(b@.subrange(0, j + 1) =~= b@.subrange(0, j as int).push(e));
                b@.subrange(0, j as int).to_multiset_ensures();
                r_old.to_multiset_ensures();
                assert(r@.to_multiset() =~= a@.subrange(0, i as int).to_multiset().add(
                    b@.subrange(0, j + 1).to_multiset()));
                assert forall|x: int, y: int| 0 <= x < y < r@.len()
                    implies lex_leq(r@[x], r@[y]) by {
                    if y < r_old.len() {
                        assert(lex_leq(r_old[x], r_old[y]));
                    } else if x < r_old.len() - 1 {
                        assert(lex_leq(r_old[x], r_old[r_old.len() - 1]));
                    }
                }
            }
            j += 1;
        }
    }
    proof {
        assert(a@.subrange(0, a@.len() as int) =~= a@);
        assert(b@.subrange(0, b@.len() as int) =~= b@);
    }
    r
}

/// Merge sort on index/point pairs, so the comparison count meets the
/// design's O(n log n) bound for the hull's sorting step.
fn msort_pairs(v: Vec<(usize, Point)>) -> (r: Vec<(usize, Point)>)
    ensures
        r@.to_multiset() == v@.to_multiset(),
        sorted_lex(r@),
        r@.len() == v@.len(),
    decreases v@.len(),
{
    if v.len() <= 1 {
        return v;
    }
    let mid = v.len() / 2;
    let mut left: Vec<(usize, Point)> = Vec::new();
    let mut q: usize = 0;
    while q < mid
        invariant
            q <= mid,
            mid <= v@.len(),
            left@ == v@.subrange(0, q as int),
        decreases mid - q,
    {
        left.push(v[q]);
        proof {
            assert(left@ =~= v@.subrange(0, q + 1));
        }
        q += 1;
    }
    let mut right: Vec<(usize, Point)> = Vec::new();
    let mut q: usize = mid;
    while q < v.len()
        invariant
            mid <= q <= v@.len(),
            right@ == v@.subrange(mid as int, q as int),
        decreases v@.len() - q,
    {
        right.push(v[q]);
        proof {
            assert(right@ =~= v@.subrange(mid as int, q + 1));
        }
        q += 1;
    }
    let ls = msort_pairs(left);
    let rs = msort_pairs(right);
    let merged = merge_pairs(&ls, &rs);
    proof {
        assert(v@ =~= v@.subrange(0, mid as int) + v@.subrange(mid as int, v@.len() as int));
        lemma_multiset_commutative(
            v@.subrange(0, mid as int),
            v@.subrange(mid as int, v@.len() as int),
        );
    }
    merged
}

/// Sorts index/point pairs by x, then y, then index. Returns a permutation
/// of the input.
fn sort_pairs(v: &Vec<(usize, Point)>) -> (r: Vec<(usize, Point)>)
    ensures
        r@.to_multiset() == v@.to_multiset(),
        sorted_lex(r@),
        r@.len() == v@.len(),
{
    let mut c: Vec<(usize, Point)> = Vec::new();
    let mut q: usize = 0;
    while q < v.len()
        invariant
            q <= v@.len(),
            c@ == v@.subrange(0, q as int),
        decreases v@.len() - q,
    {
        c.push(v[q]);
        proof {
            assert(c@ =~= v@.subrange(0, q + 1));
        }
        q += 1;
    }
    proof {
        assert(c@ =~= v@);
    }
    msort_pairs(c)
}

fn turn_exec(a: &Point, b: &Point, c: &Point) -> (r: i64)
    requires
        in_range(*a, coord_bound()),
        in_range(*b, coord_bound()),
        in_range(*c, coord_bound()),
    ensures
        r == turn_val(*a, *b, *c),
{
    let bx = b.x - a.x;
    let by = b.y - a.y;
    let cx = c.x - a.x;
    let cy = c.y - a.y;
    proof {
        lemma_mul_bound(bx as int, cy as int, 2 * coord_bound());
        lemma_mul_bound(by as int, cx as int, 2 * coord_bound());
    }
    bx * cy - by * cx
}

/// Convex hull by monotone chain: sort the points lexicographically, sweep
/// once for the lower chain and once back for the upper chain, keeping only
/// strict left turns, then drop the repeated start point.
///
/// On a non-empty input the result walks the hull counter-clockwise starting
/// from the lexicographically smallest point; each returned pair holds the
/// point's index in `points` and the point itself. Collinear boundary points
/// are dropped, so every interior triple turns strictly left; an all-collinear
/// input yields its two extreme points. The empty input is rejected.
#[verifier::rlimit(100)]
pub fn convex_hull(points: &Vec<Point>) -> (res: Result<Vec<(usize, Point)>, HullError>)
    requires
        points@.len() < usize::MAX,
        forall|i: int| 0 <= i < points@.len() ==> in_range(#[trigger] points@[i], coord_bound()),
    ensures
        points@.len() == 0 <==> res is Err,
        res matches Ok(h) ==> {
            &&& hull_post(h@, points@)
            &&& (points@.len() == 1 ==> h@ == seq![(0usize, points@[0])])
            &&& (points@.len() == 2 ==> h@.len() == 2 && h@[0].0 != h@[1].0)
        },
{
    let n = points.len();
    if n == 0 {
        return Err(HullError::EmptyInput);
    }
    let mut pairs: Vec<(usize, Point)> = Vec::new();
    let mut i: usize = 0;
    while i < n
        invariant
            n == points@.len(),
            i <= n,
            pairs@.len() == i,
            forall|k: int| 0 <= k < i ==> #[trigger] pairs@[k] == (k as usize, points@[k]),
        decreases n - i,
    {
        pairs.push((i, points[i]));
        i += 1;
    }
    let s = sort_pairs(&pairs);
    proof {
        // Every enumerated pair occurs in the sorted sequence, and every
        // sorted element is an enumerated pair.
        s@.to_multiset_ensures();
        pairs@.to_multiset_ensures();
        assert forall|k: int| 0 <= k < n implies s@.contains((k as usize, points@[k])) by {
            let e = (k as usize, points@[k]);
            assert(pairs@[k] == e);
            assert(pairs@.contains(e));
            assert(s@.to_multiset().count(e) > 0);
        }
        assert forall|k: int| 0 <= k < s@.len()
            implies (#[trigger] s@[k]).0 < points@.len() && points@[s@[k].0 as int] == s@[k].1 by {
            let e = s@[k];
            assert(s@.contains(e));
            assert(pairs@.to_multiset().count(e) > 0);
            assert(pairs@.contains(e));
            let j = choose|j: int| 0 <= j < pairs@.len() && pairs@[j] == e;
            assert(pairs@[j] == (j as usize, points@[j]));
        }
        assert(hull_pairs_valid(s@, points@));
        assert(pairs_in_range(s@));
    }
    if n == 1 {
        let mut h: Vec<(usize, Point)> = Vec::new();
        h.push(s[0]);
        proof {
            assert(s@.contains((0usize, points@[0])));
            let m = choose|m: int| 0 <= m < s@.len() && s@[m] == (0usize, points@[0]);
            assert(m == 0);
            assert(h@ =~= seq![(0usize, points@[0])]);
            assert(is_lex_max_pair(h@[0], points@));
        }
        return Ok(h);
    }
    if n == 2 {
        let mut h: Vec<(usize, Point)> = Vec::new();
        h.push(s[0]);
        h.push(s[1]);
        proof {
            // The two sorted entries are the two enumerated pairs, whose
            // indices differ.
            assert(s@.contains((0usize, points@[0])));
            assert(s@.contains((1usize, points@[1])));
            let k0 = choose|k: int| 0 <= k < s@.len() && s@[k] == (0usize, points@[0]);
            let k1 = choose|k: int| 0 <= k < s@.len() && s@[k] == (1usize, points@[1]);
            assert(k0 != k1);
            assert(s@[0].0 != s@[1].0);
            assert forall|j: int| 0 <= j < points@.len()
                implies lex_leq(h@[0], (j as usize, #[trigger] points@[j])) by {
                let e = (j as usize, points@[j]);
                assert(s@.contains(e));
                let m = choose|m: int| 0 <= m < s@.len() && s@[m] == e;
                if m > 0 {
                    assert(lex_leq(s@[0], s@[m]));
                }
            }
            assert forall|j: int| 0 <= j < points@.len()
                implies pt_leq(h@[0].1, #[trigger] points@[j]) by {
                assert(lex_leq(h@[0], (j as usize, points@[j])));
            }
            assert forall|j: int| 0 <= j < points@.len()
                implies lex_leq((j as usize, #[trigger] points@[j]), s@[1]) by {
                let e = (j as usize, points@[j]);
                assert(s@.contains(e));
                let m = choose|m: int| 0 <= m < s@.len() && s@[m] == e;
                if m == 0 {
                    assert(lex_leq(s@[0], s@[1]));
                }
            }
            assert(is_lex_max_pair(h@[1], points@));
            assert(h@.no_duplicates());
        }
        return Ok(h);
    }
    let ghost maxpair = s@[n - 1];
    proof {
        // The sorted pairs are distinct, and the last one is the
        // lexicographic maximum of all enumerated pairs.
        assert forall|a: int, b: int|
            0 <= a < pairs@.len() && 0 <= b < pairs@.len() && a != b
            implies pairs@[a] != pairs@[b] by {
            assert(pairs@[a].0 == a as usize && pairs@[b].0 == b as usize);
        }
        pairs@.lemma_multiset_has_no_duplicates();
        s@.lemma_multiset_has_no_duplicates_conv();
        assert forall|j: int| 0 <= j < n
            implies lex_leq((j as usize, #[trigger] points@[j]), maxpair) by {
            let e = (j as usize, points@[j]);
            assert(s@.contains(e));
            let m = choose|m: int| 0 <= m < s@.len() && s@[m] == e;
            if m < n - 1 {
                assert(lex_leq(s@[m], s@[n - 1]));
            }
        }
        assert(s@[0] != maxpair);
    }
    let mut h: Vec<(usize, Point)> = Vec::new();
    // Lower chain.
    let mut i: usize = 0;
    while i < n
        invariant
            n == s@.len(),
            n == points@.len(),
            i <= n,
            h@.len() <= i,
            i >= 1 ==> h@.len() >= 1,
            i >= 2 ==> h@.len() >= 2,
            i >= 1 ==> h@[0] == s@[0],
            i >= 1 ==> h@[h@.len() - 1] == s@[i - 1],
            hull_pairs_valid(s@, points@),
            pairs_in_range(s@),
            hull_pairs_valid(h@, points@),
            pairs_in_range(h@),
            strict_left_turns(h@),
        decreases n - i,
    {
        while h.len() >= 2
            && turn_exec(&h[h.len() - 2].1, &h[h.len() - 1].1, &s[i].1) <= 0
            invariant
                n == s@.len(),
                i < n,
                h@.len() <= i,
                i >= 1 ==> h@.len() >= 1,
                i >= 1 ==> h@[0] == s@[0],
                hull_pairs_valid(s@, points@),
                pairs_in_range(s@),
                hull_pairs_valid(h@, points@),
                pairs_in_range(h@),
                strict_left_turns(h@),
            decreases h@.len(),
        {
            let ghost hp = h@;
            let _ = h.pop();
            proof {
                assert forall|j: int| 2 <= j < h@.len() implies left_turn_at(h@, j) by {
                    assert(left_turn_at(hp, j));
                }
            }
        }
        let ghost hb = h@;
        h.push(s[i]);
        proof {
            assert forall|j: int| 2 <= j < h@.len() implies left_turn_at(h@, j) by {
                if j < h@.len() - 1 {
                    assert(left_turn_at(hb, j));
                }
            }
        }
        i += 1;
    }
    let t = h.len() + 1;
    let ghost t_int = t as int;
    proof {
        assert(t >= 3);
        assert(h@[t_int - 2] == maxpair);
    }
    // Upper chain: sweep back from the second-to-last sorted point. The
    // sweep may not pop below the lower chain's last point.
    let mut i: usize = n - 1;
    while i > 0
        invariant
            n == s@.len(),
            n == points@.len(),
            i <= n - 1,
            t >= 3,
            t_int == t as int,
            h@.len() >= t - 1,
            i < n - 1 ==> h@.len() >= t,
            h@.len() >= 1,
            h@[0] == s@[0],
            h@[t_int - 2] == maxpair,
            hull_pairs_valid(s@, points@),
            pairs_in_range(s@),
            hull_pairs_valid(h@, points@),
            pairs_in_range(h@),
            forall|k: int| 2 <= k < h@.len() && k != t_int - 1 ==> #[trigger] left_turn_at(h@, k),
        decreases i,
    {
        i -= 1;
        while h.len() >= t
            && turn_exec(&h[h.len() - 2].1, &h[h.len() - 1].1, &s[i].1) <= 0
            invariant
                n == s@.len(),
                i < n,
                t >= 2,
                t_int == t as int,
                h@.len() >= t - 1,
                h@.len() >= 1,
                h@[0] == s@[0],
                h@[t_int - 2] == maxpair,
                hull_pairs_valid(s@, points@),
                pairs_in_range(s@),
                hull_pairs_valid(h@, points@),
                pairs_in_range(h@),
                forall|k: int| 2 <= k < h@.len() && k != t_int - 1
                    ==> #[trigger] left_turn_at(h@, k),
            decreases h@.len(),
        {
            let ghost hp = h@;
            let _ = h.pop();
            proof {
                assert forall|j: int| 2 <= j < h@.len() && j != t_int - 1
                    implies left_turn_at(h@, j) by {
                    assert(left_turn_at(hp, j));
                }
            }
        }
        let ghost hb = h@;
        h.push(s[i]);
        proof {
            assert forall|j: int| 2 <= j < h@.len() && j != t_int - 1
                implies left_turn_at(h@, j) by {
                if j < h@.len() - 1 {
                    assert(left_turn_at(hb, j));
                }
            }
        }
    }
    // The sweep back ends by re-pushing the start point; drop the duplicate.
    let _ = h.pop();
    proof {
        assert(h@.len() >= t - 1);
        assert(h@[t_int - 2] == maxpair);
        assert(h@.contains(maxpair));
    }
    // Drop any repeated vertex, keeping its first occurrence.
    let mut k: usize = 1;
    while k < h.len()
        invariant
            1 <= k,
            k <= h@.len(),
            h@.len() >= 1,
            h@[0] == s@[0],
            n == points@.len(),
            hull_pairs_valid(h@, points@),
            pairs_in_range(h@),
            h@.contains(maxpair),
            forall|a: int, b: int| 0 <= a < b < k ==> h@[a] != h@[b],
        decreases 2 * h@.len() - k,
    {
        let mut j: usize = 0;
        let mut dup = false;
        while j < k
            invariant
                j <= k,
                k < h@.len(),
                dup <==> exists|a: int| 0 <= a < j && h@[a] == h@[k as int],
            decreases k - j,
        {
            let eq = h[j].0 == h[k].0 && h[j].1 == h[k].1;
            if eq {
                dup = true;
                proof {
                    assert(h@[j as int] == h@[k as int]);
                }
            }
            j += 1;
        }
        if dup {
            let ghost h_old = h@;
            let ghost a0 = choose|a: int| 0 <= a < k && h_old[a] == h_old[k as int];
            let _ = h.remove(k);
            proof {
                let w = choose|w: int| 0 <= w < h_old.len() && h_old[w] == maxpair;
                if w < k {
                    assert(h@[w] == maxpair);
                } else if w == k {
                    assert(h@[a0] == maxpair);
                } else {
                    assert(h@[w - 1] == maxpair);
                }
            }
        } else {
            proof {
                assert forall|a: int, b: int| 0 <= a < b < k + 1
                    implies h@[a] != h@[b] by {
                    if b < k {
                        assert(h@[a] != h@[b]);
                    }
                }
            }
            k += 1;
        }
    }
    proof {
        assert forall|x: int, y: int|
            0 <= x < h@.len() && 0 <= y < h@.len() && x != y
            implies h@[x] != h@[y] by {
            if x < y {
                assert(h@[x] != h@[y]);
            } else {
                assert(h@[y] != h@[x]);
            }
        }
        assert(h@.no_duplicates());
    }
    // Collinear-dropping policy at the junction of the two chains: the
    // sweeps test triples within each chain, so a vertex where the chains
    // meet can still sit on a straight line; drop a vertex of any such
    // triple, as the sweeps drop collinear vertices everywhere else —
    // never the lexicographic extreme, which is a hull vertex.
    let mut k: usize = 2;
    while k < h.len()
        invariant
            k >= 2,
            k <= h@.len() + 1,
            h@.len() >= 1,
            h@[0] == s@[0],
            hull_pairs_valid(h@, points@),
            pairs_in_range(h@),
            n == points@.len(),
            h@.no_duplicates(),
            h@.contains(maxpair),
            forall|j: int| 0 <= j < n
                ==> lex_leq((j as usize, #[trigger] points@[j]), maxpair),
            forall|j: int| 2 <= j < k ==> #[trigger] left_turn_at(h@, j),
        decreases 2 * h@.len() - k,
    {
        if turn_exec(&h[k - 2].1, &h[k - 1].1, &h[k].1) <= 0 {
            if lex_less(&h[k - 2], &h[k - 1]) && lex_less(&h[k], &h[k - 1]) {
                // The middle vertex is the lexicographic extreme of the
                // triple: drop the trailing vertex instead.
                let ghost h_old = h@;
                let _ = h.remove(k);
                proof {
                    assert forall|j: int| 2 <= j < k implies left_turn_at(h@, j) by {
                        assert(left_turn_at(h_old, j));
                        assert(h@[j] == h_old[j] && h@[j - 1] == h_old[j - 1]
                            && h@[j - 2] == h_old[j - 2]);
                    }
                    lemma_remove_no_dup(h_old, k as int);
                    // The dropped vertex is lexicographically below the
                    // middle one, hence below the maximum.
                    assert(lex_leq((h_old[k as int].0 as usize,
                        points@[h_old[k as int].0 as int]), maxpair));
                    assert(h_old[k as int] != maxpair);
                    lemma_remove_keeps(h_old, k as int, maxpair);
                }
            } else {
                let ghost h_old = h@;
                let _ = h.remove(k - 1);
                proof {
                    assert forall|j: int| 2 <= j < k - 1 implies left_turn_at(h@, j) by {
                        assert(left_turn_at(h_old, j));
                        assert(h@[j] == h_old[j] && h@[j - 1] == h_old[j - 1]
                            && h@[j - 2] == h_old[j - 2]);
                    }
                    lemma_remove_no_dup(h_old, k - 1);
                    // The middle vertex is not the lexicographic maximum:
                    // some neighbour is lexicographically no smaller, and a
                    // neighbour equal to the maximum would be a duplicate.
                    if h_old[k - 1] == maxpair {
                        assert(lex_leq((h_old[k - 2].0 as usize,
                            points@[h_old[k - 2].0 as int]), maxpair));
                        assert(lex_leq((h_old[k as int].0 as usize,
                            points@[h_old[k as int].0 as int]), maxpair));
                        if !lex_lt(h_old[k - 2], h_old[k - 1]) {
                            assert(h_old[k - 2] == maxpair);
                        } else {
                            assert(h_old[k as int] == maxpair);
                        }
                        assert(false);
                    }
                    lemma_remove_keeps(h_old, k - 1, maxpair);
                }
                if k > 2 {
                    k -= 1;
                }
            }
        } else {
            proof {
                assert(left_turn_at(h@, k as int));
            }
            k += 1;
        }
    }
    proof {
        assert(strict_left_turns(h@));
        // The lexicographically greatest pair is a vertex, so two or more
        // points give two or more vertices.
        let w = choose|w: int| 0 <= w < h@.len() && h@[w] == maxpair;
        assert(is_lex_max_pair(h@[w], points@));
        assert(h@[0] != maxpair);
        assert(h@.len() >= 2);
    }
    proof {
        // The first hull vertex is the lexicographically least index/point
        // pair of the whole input.
        assert forall|j: int| 0 <= j < points@.len()
            implies lex_leq(h@[0], (j as usize, #[trigger] points@[j])) by {
            let e = (j as usize, points@[j]);
            assert(s@.contains(e));
            let m = choose|m: int| 0 <= m < s@.len() && s@[m] == e;
            if m > 0 {
                assert(lex_leq(s@[0], s@[m]));
            }
        }
        assert forall|j: int| 0 <= j < points@.len()
            implies pt_leq(h@[0].1, #[trigger] points@[j]) by {
            assert(lex_leq(h@[0], (j as usize, points@[j])));
        }
    }
    Ok(h)
}

} // verus!
