//! Randomized dungeon generation: a planar proximity graph per room, built
//! greedily from shuffled candidate pairs, plus the macro graph that links
//! rooms together.

use vstd::prelude::*;
use crate::geometry::{
    Point, Line, in_range, coord_bound, dist_sqr_val, segs_cross, lemma_intersects_symmetric,
    convex_hull, hull_pairs_valid, hull_post,
};
use crate::rng::{rng_from_seed, rand_below, shuffle_pairs};
use crate::kd_tree::{Tree, Rect, in_rect};
use crate::lemma_mul_bound;

verus! {

/// Adjacency rows as mathematical sequences.
pub open spec fn adj_view(g: Seq<Vec<usize>>) -> Seq<Seq<usize>> {
    Seq::new(g.len(), |i: int| g[i]@)
}

/// `j` occurs in the adjacency row of `i`.
pub open spec fn has_edge(adj: Seq<Seq<usize>>, i: usize, j: usize) -> bool {
    i < adj.len() && adj[i as int].contains(j)
}

/// Every recorded edge is mirrored, stays inside the graph, and is no
/// self-loop.
pub open spec fn graph_sym(adj: Seq<Seq<usize>>) -> bool {
    forall|i: usize, j: usize| #[trigger] has_edge(adj, i, j)
        ==> j < adj.len() && i != j && has_edge(adj, j, i)
}

/// No adjacency row lists the same neighbour twice.
pub open spec fn rows_no_dups(adj: Seq<Seq<usize>>) -> bool {
    forall|i: int| 0 <= i < adj.len() ==> (#[trigger] adj[i]).no_duplicates()
}

/// No two recorded segments properly cross.
pub open spec fn planar(ls: Seq<Line>) -> bool {
    forall|a: int, b: int| 0 <= a < b < ls.len()
        ==> !segs_cross(#[trigger] ls[a], #[trigger] ls[b])
}

/// All segment endpoints are within the geometric kernel's bound.
pub open spec fn lines_in_range(ls: Seq<Line>) -> bool {
    forall|m: int| 0 <= m < ls.len()
        ==> in_range((#[trigger] ls[m]).p1, coord_bound()) && in_range(ls[m].p2, coord_bound())
}

/// Every recorded segment is shorter than the radius threshold.
pub open spec fn lines_local(ls: Seq<Line>, rsq: int) -> bool {
    forall|m: int| 0 <= m < ls.len() ==> dist_sqr_val((#[trigger] ls[m]).p1, ls[m].p2) < rsq
}

/// Every accepted edge's segment is among the recorded segments.
pub open spec fn edges_have_lines(adj: Seq<Seq<usize>>, ls: Seq<Line>, points: Seq<Point>) -> bool {
    forall|i: usize, j: usize| #[trigger] has_edge(adj, i, j) && i < j
        ==> ls.contains(Line { p1: points[i as int], p2: points[j as int] })
}

/// All candidate pairs are ordered and index into the point set.
pub open spec fn valid_pairs(pairs: Seq<(usize, usize)>, n: int) -> bool {
    forall|k: int| 0 <= k < pairs.len()
        ==> (#[trigger] pairs[k]).0 < pairs[k].1 && pairs[k].1 < n
}

/// The adjacency of a graph with no edges.
pub open spec fn empty_adjacency(n: nat) -> Seq<Seq<usize>> {
    Seq::new(n, |i: int| Seq::empty())
}

/// One step of the greedy acceptance: the pair becomes an edge exactly when
/// the two points are close enough, the density draw succeeded or one
/// endpoint is still isolated, and the new segment crosses no accepted one.
pub open spec fn greedy_step(
    points: Seq<Point>,
    rsq: int,
    adj: Seq<Seq<usize>>,
    ls: Seq<Line>,
    pr: (usize, usize),
    draw: bool,
) -> (Seq<Seq<usize>>, Seq<Line>) {
    let i = pr.0;
    let j = pr.1;
    let seg = Line { p1: points[i as int], p2: points[j as int] };
    if dist_sqr_val(points[i as int], points[j as int]) < rsq
        && (draw || adj[i as int].len() == 0 || adj[j as int].len() == 0)
        && (forall|m: int| 0 <= m < ls.len() ==> !segs_cross(seg, #[trigger] ls[m]))
    {
        (
            adj.update(i as int, adj[i as int].push(j)).update(j as int, adj[j as int].push(i)),
            ls.push(seg),
        )
    } else {
        (adj, ls)
    }
}

/// The adjacency and segment list after greedily processing the first `k`
/// candidate pairs.
pub open spec fn greedy_state(
    points: Seq<Point>,
    rsq: int,
    pairs: Seq<(usize, usize)>,
    draws: Seq<bool>,
    k: int,
) -> (Seq<Seq<usize>>, Seq<Line>)
    decreases k,
{
    if k <= 0 {
        (empty_adjacency(points.len()), Seq::empty())
    } else {
        let prev = greedy_state(points, rsq, pairs, draws, k - 1);
        greedy_step(points, rsq, prev.0, prev.1, pairs[k - 1], draws[k - 1])
    }
}

/// Appending to a sequence leaves exactly the old elements plus the new one.
pub proof fn lemma_push_contains<A>(s: Seq<A>, e: A, x: A)
    ensures
        s.push(e).contains(x) <==> (s.contains(x) || x == e),
{
    if s.push(e).contains(x) {
        let q = choose|q: int| 0 <= q < s.push(e).len() && s.push(e)[q] == x;
        if q < s.len() {
            assert(s[q] == x);
        }
    }
    if s.contains(x) {
        let q = choose|q: int| 0 <= q < s.len() && s[q] == x;
        assert(s.push(e)[q] == x);
    }
    if x == e {
        assert(s.push(e)[s.len() as int] == x);
    }
}

/// A square strictly below another square bounds the base strictly.
proof fn lemma_sq_lt(a: int, r: int)
    requires
        r >= 0,
        a * a < r * r,
    ensures
        -r < a < r,
{
    assert(-r < a < r) by (nonlinear_arith)
        requires
            r >= 0,
            a * a < r * r,
    ;
}

/// Inserts the edge `i - j` in both directions.
fn add_edge(adj: &mut Vec<Vec<usize>>, i: usize, j: usize)
    requires
        i < old(adj)@.len(),
        j < old(adj)@.len(),
        i != j,
        !old(adj)@[i as int]@.contains(j),
        !old(adj)@[j as int]@.contains(i),
        graph_sym(adj_view(old(adj)@)),
        rows_no_dups(adj_view(old(adj)@)),
    ensures
        final(adj)@.len() == old(adj)@.len(),
        adj_view(final(adj)@) == adj_view(old(adj)@).update(
            i as int,
            adj_view(old(adj)@)[i as int].push(j),
        ).update(j as int, adj_view(old(adj)@)[j as int].push(i)),
        graph_sym(adj_view(final(adj)@)),
        rows_no_dups(adj_view(final(adj)@)),
        forall|a: usize, b: usize| #[trigger] has_edge(adj_view(final(adj)@), a, b)
            <==> (has_edge(adj_view(old(adj)@), a, b) || (a == i && b == j) || (a == j && b == i)),
{
    let ghost av0 = adj_view(adj@);
    let mut row_i = adj.remove(i);
    row_i.push(j);
    adj.insert(i, row_i);
    let mut row_j = adj.remove(j);
    row_j.push(i);
    adj.insert(j, row_j);
    proof {
        let avn = adj_view(adj@);
        let target = av0.update(i as int, av0[i as int].push(j)).update(
            j as int,
            av0[j as int].push(i),
        );
        assert forall|q: int| 0 <= q < avn.len() implies avn[q] == target[q] by {
            if q == i as int {
                assert(avn[q] =~= av0[i as int].push(j));
            } else if q == j as int {
                assert(avn[q] =~= av0[j as int].push(i));
            } else {
                assert(avn[q] =~= av0[q]);
            }
        }
        assert(avn =~= target);
        // Edge characterization.
        assert forall|a: usize, b: usize|
            #[trigger] has_edge(avn, a, b)
                <==> (has_edge(av0, a, b) || (a == i && b == j) || (a == j && b == i)) by {
            if a < avn.len() {
                if a == i {
                    lemma_push_contains(av0[i as int], j, b);
                } else if a == j {
                    lemma_push_contains(av0[j as int], i, b);
                } else {
                    assert(avn[a as int] == av0[a as int]);
                }
            }
        }
        // Symmetry and absence of self-loops.
        assert forall|a: usize, b: usize| #[trigger] has_edge(avn, a, b)
            implies b < avn.len() && a != b && has_edge(avn, b, a) by {
            if has_edge(av0, a, b) {
                assert(has_edge(av0, b, a));
            }
        }
        // Rows stay duplicate-free.
        assert forall|q: int| 0 <= q < avn.len() implies (#[trigger] avn[q]).no_duplicates() by {
            if q == i as int {
                let s = av0[q];
                assert forall|x: int, y: int|
                    0 <= x < s.push(j).len() && 0 <= y < s.push(j).len() && x != y
                    implies s.push(j)[x] != s.push(j)[y] by {
                    if x < s.len() && y < s.len() {
                        assert(s[x] != s[y]);
                    } else if y == s.len() && x < s.len() {
                        if s[x] == j {
                            assert(s.contains(j));
                        }
                    } else if x == s.len() && y < s.len() {
                        if s[y] == j {
                            assert(s.contains(j));
                        }
                    }
                }
            } else if q == j as int {
                let s = av0[q];
                assert forall|x: int, y: int|
                    0 <= x < s.push(i).len() && 0 <= y < s.push(i).len() && x != y
                    implies s.push(i)[x] != s.push(i)[y] by {
                    if x < s.len() && y < s.len() {
                        assert(s[x] != s[y]);
                    } else if y == s.len() && x < s.len() {
                        if s[x] == i {
                            assert(s.contains(i));
                        }
                    } else if x == s.len() && y < s.len() {
                        if s[y] == i {
                            assert(s.contains(i));
                        }
                    }
                }
            } else {
                assert(avn[q] == av0[q]);
                assert(av0[q].no_duplicates());
            }
        }
    }
}

/// True when the candidate segment crosses none of the accepted segments.
fn no_crossing(seg: &Line, lines: &Vec<Line>) -> (r: bool)
    requires
        in_range(seg.p1, coord_bound()),
        in_range(seg.p2, coord_bound()),
        lines_in_range(lines@),
    ensures
        r == (forall|m: int| 0 <= m < lines@.len() ==> !segs_cross(*seg, #[trigger] lines@[m])),
{
    let mut m: usize = 0;
    while m < lines.len()
        invariant
            m <= lines@.len(),
            in_range(seg.p1, coord_bound()),
            in_range(seg.p2, coord_bound()),
            lines_in_range(lines@),
            forall|q: int| 0 <= q < m ==> !segs_cross(*seg, #[trigger] lines@[q]),
        decreases lines@.len() - m,
    {
        if seg.intersects(&lines[m]) {
            return false;
        }
        m += 1;
    }
    true
}

/// Greedily builds the planar proximity graph over `points`: the candidate
/// pairs are processed in the given order, and a pair becomes an edge exactly
/// when the points are closer than the radius, the matching draw succeeded or
/// one endpoint is still isolated, and the segment crosses no accepted one.
///
/// The result is exactly the fold of `greedy_step` over the pairs; the
/// adjacency is symmetric, loop-free and duplicate-free, and the accepted
/// segments are pairwise non-crossing.
#[verifier::rlimit(100)]
pub fn proximity_graph(
    points: &Vec<Point>,
    radius_sqr: i64,
    pairs: &Vec<(usize, usize)>,
    draws: &Vec<bool>,
) -> (res: (Vec<Vec<usize>>, Vec<Line>))
    requires
        forall|k: int| 0 <= k < points@.len() ==> in_range(#[trigger] points@[k], coord_bound()),
        valid_pairs(pairs@, points@.len() as int),
        pairs@.no_duplicates(),
        draws@.len() == pairs@.len(),
    ensures
        res.0@.len() == points@.len(),
        adj_view(res.0@) == greedy_state(
            points@, radius_sqr as int, pairs@, draws@, pairs@.len() as int).0,
        res.1@ == greedy_state(points@, radius_sqr as int, pairs@, draws@, pairs@.len() as int).1,
        graph_sym(adj_view(res.0@)),
        rows_no_dups(adj_view(res.0@)),
        planar(res.1@),
        lines_local(res.1@, radius_sqr as int),
        lines_in_range(res.1@),
        edges_have_lines(adj_view(res.0@), res.1@, points@),
{
    let n = points.len();
    let ghost rsq = radius_sqr as int;
    let mut adj: Vec<Vec<usize>> = Vec::new();
    let mut i0: usize = 0;
    while i0 < n
        invariant
            i0 <= n,
            adj@.len() == i0,
            forall|q: int| 0 <= q < i0 ==> (#[trigger] adj@[q])@.len() == 0,
        decreases n - i0,
    {
        adj.push(Vec::new());
        i0 += 1;
    }
    proof {
        assert(adj_view(adj@) =~~= empty_adjacency(points@.len()));
    }
    let mut lines: Vec<Line> = Vec::new();
    let mut k: usize = 0;
    while k < pairs.len()
        invariant
            n == points@.len(),
            k <= pairs@.len(),
            draws@.len() == pairs@.len(),
            rsq == radius_sqr as int,
            forall|q: int| 0 <= q < points@.len()
                ==> in_range(#[trigger] points@[q], coord_bound()),
            valid_pairs(pairs@, n as int),
            pairs@.no_duplicates(),
            adj@.len() == n,
            adj_view(adj@) == greedy_state(points@, rsq, pairs@, draws@, k as int).0,
            lines@ == greedy_state(points@, rsq, pairs@, draws@, k as int).1,
            graph_sym(adj_view(adj@)),
            rows_no_dups(adj_view(adj@)),
            planar(lines@),
            lines_local(lines@, rsq),
            lines_in_range(lines@),
            edges_have_lines(adj_view(adj@), lines@, points@),
            forall|a: usize, b: usize| #[trigger] has_edge(adj_view(adj@), a, b) && a < b
                ==> exists|m: int| 0 <= m < k && pairs@[m] == (a, b),
        decreases pairs@.len() - k,
    {
        let ghost av_old = adj_view(adj@);
        let ghost lines_old = lines@;
        let pr = pairs[k];
        let i = pr.0;
        let j = pr.1;
        let seg = Line { p1: points[i], p2: points[j] };
        let dist_ok = points[i].dist_sqr(&points[j]) < radius_sqr;
        let cover = adj[i].len() == 0 || adj[j].len() == 0;
        let cross_free = no_crossing(&seg, &lines);
        let accept = dist_ok && (draws[k] || cover) && cross_free;
        proof {
            assert(av_old[i as int] == adj@[i as int]@);
            assert(av_old[j as int] == adj@[j as int]@);
        }
        if accept {
            proof {
                // The pair is not yet an edge: it would need an earlier,
                // identical candidate pair.
                if av_old[i as int].contains(j) {
                    assert(has_edge(av_old, i, j));
                    let m = choose|m: int| 0 <= m < k && pairs@[m] == (i, j);
                    assert(pairs@[m] == pairs@[k as int]);
                    assert(false);
                }
                if av_old[j as int].contains(i) {
                    assert(has_edge(av_old, j, i));
                    assert(has_edge(av_old, i, j));
                    let m = choose|m: int| 0 <= m < k && pairs@[m] == (i, j);
                    assert(pairs@[m] == pairs@[k as int]);
                    assert(false);
                }
            }
            add_edge(&mut adj, i, j);
            lines.push(seg);
            proof {
                let avn = adj_view(adj@);
                assert((avn, lines@) == greedy_step(
                    points@, rsq, av_old, lines_old, pairs@[k as int], draws@[k as int]));
                // Planarity: the new segment crosses no earlier one.
                assert forall|a: int, b: int| 0 <= a < b < lines@.len()
                    implies !segs_cross(lines@[a], lines@[b]) by {
                    if b < lines_old.len() {
                        assert(!segs_cross(lines_old[a], lines_old[b]));
                    } else {
                        assert(lines@[b] == seg);
                        assert(!segs_cross(seg, lines_old[a]));
                        lemma_intersects_symmetric(lines_old[a], seg);
                    }
                }
                // Each edge still has its segment recorded.
                assert forall|a: usize, b: usize| #[trigger] has_edge(avn, a, b) && a < b
                    implies lines@.contains(
                        Line { p1: points@[a as int], p2: points@[b as int] }) by {
                    let sab = Line { p1: points@[a as int], p2: points@[b as int] };
                    lemma_push_contains(lines_old, seg, sab);
                    if has_edge(av_old, a, b) {
                        assert(lines_old.contains(sab));
                    }
                }
                // Edge witnesses for the pairs processed so far.
                assert forall|a: usize, b: usize| #[trigger] has_edge(avn, a, b) && a < b
                    implies exists|m: int| 0 <= m < k + 1 && pairs@[m] == (a, b) by {
                    if has_edge(av_old, a, b) {
                        let m = choose|m: int| 0 <= m < k && pairs@[m] == (a, b);
                        assert(0 <= m < k + 1 && pairs@[m] == (a, b));
                    } else {
                        assert(pairs@[k as int] == (a, b));
                        assert(0 <= k < k + 1);
                    }
                }
            }
        } else {
            proof {
                assert((adj_view(adj@), lines@) == greedy_step(
                    points@, rsq, av_old, lines_old, pairs@[k as int], draws@[k as int]));
                assert forall|a: usize, b: usize| #[trigger] has_edge(adj_view(adj@), a, b)
                    && a < b implies exists|m: int| 0 <= m < k + 1 && pairs@[m] == (a, b) by {
                    let m = choose|m: int| 0 <= m < k && pairs@[m] == (a, b);
                    assert(0 <= m < k + 1 && pairs@[m] == (a, b));
                }
            }
        }
        k += 1;
    }
    (adj, lines)
}

/// Density parameters clamped to a well-formed probability `num / den <= 1`.
/// A zero denominator is treated as density zero; a numerator above the
/// denominator as density one.
fn clamp_density(p_num: u64, p_den: u64) -> (r: (u64, u64))
    ensures
        r.1 >= 1,
        r.0 <= r.1,
        p_num == 0 || p_den == 0 ==> r.0 == 0,
        p_den >= 1 && p_num >= p_den ==> r.0 == r.1,
{
    if p_den == 0 {
        (0, 1)
    } else if p_num > p_den {
        (p_den, p_den)
    } else {
        (p_num, p_den)
    }
}

/// Squared radius threshold for a room of `n` points, on the fixed
/// `0..=1000` sampling domain: the radius shrinks inversely with `n`.
pub open spec fn room_radius_sqr(n: int) -> int {
    (50_000int / n) * (50_000int / n)
}

/// An undirected graph as an adjacency list.
pub struct Graph {
    pub size: usize,
    pub g: Vec<Vec<usize>>,
}

impl Graph {
    /// Macro random graph: each unordered pair of nodes becomes an edge
    /// with probability `p_num / p_den` (clamped to at most one),
    /// independently. The result is symmetric, loop-free and duplicate-free;
    /// density one yields the complete graph and density zero the empty one.
    pub fn new(n: usize, p_num: u64, p_den: u64, rng: &mut rand::rngs::StdRng) -> (g: Graph)
        ensures
            g.size == n,
            g.g@.len() == n,
            graph_sym(adj_view(g.g@)),
            rows_no_dups(adj_view(g.g@)),
            p_den >= 1 && p_num >= p_den ==> forall|i: usize, j: usize|
                (i as int) < n && (j as int) < n && i != j
                    ==> has_edge(adj_view(g.g@), i, j),
            p_num == 0 || p_den == 0 ==> forall|i: usize, j: usize|
                !has_edge(adj_view(g.g@), i, j),
    {
        let nd = clamp_density(p_num, p_den);
        let num = nd.0;
        let den = nd.1;
        let mut adj: Vec<Vec<usize>> = Vec::new();
        let mut i0: usize = 0;
        while i0 < n
            invariant
                i0 <= n,
                adj@.len() == i0,
                forall|q: int| 0 <= q < i0 ==> (#[trigger] adj@[q])@.len() == 0,
            decreases n - i0,
        {
            adj.push(Vec::new());
            i0 += 1;
        }
        let mut i: usize = 0;
        while i < n
            invariant
                i <= n,
                num <= den,
                den >= 1,
                adj@.len() == n,
                graph_sym(adj_view(adj@)),
                rows_no_dups(adj_view(adj@)),
                forall|a: usize, b: usize| #[trigger] has_edge(adj_view(adj@), a, b) && a < b
                    ==> (a as int) < i as int,
                num == den ==> forall|a: usize, b: usize|
                    a < b && (b as int) < n && (a as int) < i as int
                        ==> #[trigger] has_edge(adj_view(adj@), a, b),
                num == 0 ==> forall|a: usize, b: usize| !has_edge(adj_view(adj@), a, b),
            decreases n - i,
        {
            let mut j = i + 1;
            while j < n
                invariant
                    i < n,
                    i + 1 <= j <= n,
                    num <= den,
                    den >= 1,
                    adj@.len() == n,
                    graph_sym(adj_view(adj@)),
                    rows_no_dups(adj_view(adj@)),
                    forall|a: usize, b: usize| #[trigger] has_edge(adj_view(adj@), a, b) && a < b
                        ==> (a as int) < i as int || (a == i && (b as int) < j as int),
                    num == den ==> forall|a: usize, b: usize|
                        a < b && (b as int) < n
                            && ((a as int) < i as int || (a == i && (b as int) < j as int))
                            ==> #[trigger] has_edge(adj_view(adj@), a, b),
                    num == 0 ==> forall|a: usize, b: usize| !has_edge(adj_view(adj@), a, b),
                decreases n - j,
            {
                let ghost av_before = adj_view(adj@);
                let r = rand_below(rng, den);
                if r < num {
                    proof {
                        let av = adj_view(adj@);
                        if av[i as int].contains(j) {
                            assert(has_edge(av, i, j));
                        }
                        if av[j as int].contains(i) {
                            assert(has_edge(av, j, i));
                            assert(has_edge(av, i, j));
                        }
                    }
                    add_edge(&mut adj, i, j);
                }
                proof {
                    if num == den {
                        // The draw cannot fail, so the pair just visited is
                        // now an edge.
                        assert(r < num);
                        assert forall|a: usize, b: usize|
                            a < b && (b as int) < n
                                && ((a as int) < i as int || (a == i && (b as int) < j + 1))
                            implies #[trigger] has_edge(adj_view(adj@), a, b) by {
                            if a == i && b == j {
                                assert(has_edge(adj_view(adj@), i, j));
                            } else {
                                assert(has_edge(av_before, a, b));
                            }
                        }
                    }
                }
                j += 1;
            }
            i += 1;
        }
        proof {
            // Both directions of each edge, from the ordered form and
            // symmetry.
            if num == den {
                assert forall|i2: usize, j2: usize|
                    (i2 as int) < n && (j2 as int) < n && i2 != j2
                    implies has_edge(adj_view(adj@), i2, j2) by {
                    if i2 < j2 {
                        assert(has_edge(adj_view(adj@), i2, j2));
                    } else {
                        assert(has_edge(adj_view(adj@), j2, i2));
                    }
                }
            }
        }
        Graph { size: n, g: adj }
    }

    /// Number of nodes in the graph.
    pub fn size(&self) -> (r: usize)
        ensures
            r == self.size,
    {
        self.size
    }
}

/// One generated room: its sampled points, planar proximity graph, accepted
/// segments, hull anchor indices, and the cross-room connections filled in
/// by the dungeon assembler.
pub struct Node {
    pub g: Graph,
    pub edges: Vec<(usize, usize, usize)>,
    pub inner_edges: Vec<usize>,
    pub points: Vec<Point>,
    pub lines: Vec<Line>,
}

/// The invariants every completed room satisfies: the adjacency matches the
/// point count and is symmetric, loop-free and duplicate-free; every edge's
/// segment is recorded and no two recorded segments properly cross; hull
/// anchors index into the point set.
pub open spec fn room_wf(node: Node) -> bool {
    &&& node.g.size == node.points@.len()
    &&& node.g.g@.len() == node.points@.len()
    &&& graph_sym(adj_view(node.g.g@))
    &&& rows_no_dups(adj_view(node.g.g@))
    &&& planar(node.lines@)
    &&& edges_have_lines(adj_view(node.g.g@), node.lines@, node.points@)
    &&& forall|q: int| 0 <= q < node.inner_edges@.len()
        ==> (#[trigger] node.inner_edges@[q]) < node.points@.len()
}

/// The candidate list holds every ordered pair of points closer than the
/// radius threshold: no in-radius pair escapes the greedy acceptance.
pub open spec fn candidates_complete(points: Seq<Point>, rsq: int, pairs: Seq<(usize, usize)>) -> bool {
    forall|i: usize, j: usize|
        i < j && (j as int) < points.len()
            && dist_sqr_val(points[i as int], points[j as int]) < rsq
            ==> #[trigger] pairs.contains((i, j))
}

/// The room's graph and segments are exactly the greedy fold over some
/// valid, duplicate-free candidate order and draw sequence, where the
/// candidates include every in-radius pair. In particular, whenever any
/// in-radius pair exists, the coverage override in `greedy_step` forces at
/// least one edge.
pub open spec fn built_by_fold(node: Node, pairs: Seq<(usize, usize)>, draws: Seq<bool>) -> bool {
    let rsq = room_radius_sqr(node.points@.len() as int);
    &&& valid_pairs(pairs, node.points@.len() as int)
    &&& pairs.no_duplicates()
    &&& draws.len() == pairs.len()
    &&& candidates_complete(node.points@, rsq, pairs)
    &&& adj_view(node.g.g@) == greedy_state(node.points@, rsq, pairs, draws, pairs.len() as int).0
    &&& node.lines@ == greedy_state(node.points@, rsq, pairs, draws, pairs.len() as int).1
}

/// Everything `Node::new` guarantees of a generated room, whatever the
/// draws were: `n` points on the sampling domain; the room invariants of
/// `room_wf`; all segments inside the radius; the anchors are the convex
/// hull of the points, in hull order; and the graph is the greedy fold of
/// some shuffled order over all in-radius candidate pairs.
pub open spec fn room_generated(node: Node, n: int) -> bool {
    &&& node.points@.len() == n
    &&& forall|q: int| 0 <= q < node.points@.len()
        ==> 0 <= (#[trigger] node.points@[q]).x <= 1000 && 0 <= node.points@[q].y <= 1000
    &&& room_wf(node)
    &&& lines_local(node.lines@, room_radius_sqr(n))
    &&& node.inner_edges@.len() >= 1
    &&& node.edges@.len() == 0
    &&& exists|h: Seq<(usize, Point)>| #[trigger] hull_post(h, node.points@)
        && node.inner_edges@ == h.map_values(|e: (usize, Point)| e.0)
    &&& exists|pairs: Seq<(usize, usize)>, draws: Seq<bool>|
        #[trigger] built_by_fold(node, pairs, draws)
}

impl Node {
    /// Generates one room: samples `n` points uniformly on the fixed square
    /// domain, records the convex hull indices as anchors, and greedily
    /// accepts shuffled candidate pairs into a planar proximity graph with
    /// density `p_num / p_den` and a coverage override for isolated points.
    #[verifier::rlimit(100)]
    pub fn new(n: usize, p_num: u64, p_den: u64, rng: &mut rand::rngs::StdRng) -> (node: Node)
        requires
            1 <= n < usize::MAX,
        ensures
            room_generated(node, n as int),
    {
        let nd = clamp_density(p_num, p_den);
        let num = nd.0;
        let den = nd.1;
        // Sample the points on the fixed domain.
        let mut points: Vec<Point> = Vec::new();
        let mut q: usize = 0;
        while q < n
            invariant
                q <= n,
                points@.len() == q,
                forall|m: int| 0 <= m < q
                    ==> 0 <= (#[trigger] points@[m]).x <= 1000 && 0 <= points@[m].y <= 1000,
            decreases n - q,
        {
            let x = rand_below(rng, 1001) as i64;
            let y = rand_below(rng, 1001) as i64;
            points.push(Point { x, y });
            q += 1;
        }
        proof {
            assert forall|m: int| 0 <= m < points@.len()
                implies in_range(#[trigger] points@[m], coord_bound()) by {}
        }
        // The radius threshold shrinks with the point count.
        let radius: u64 = 50_000 / (n as u64);
        proof {
            lemma_mul_bound(radius as int, radius as int, 50_000);
        }
        let radius_sqr = (radius * radius) as i64;
        let ghost rsq_int = radius_sqr as int;
        proof {
            assert(rsq_int == (radius as int) * (radius as int));
            assert(rsq_int == room_radius_sqr(n as int));
        }
        // Hull anchors.
        let hull = match convex_hull(&points) {
            Ok(h) => h,
            Err(_) => {
                proof {
                    assert(false);
                }
                Vec::new()
            },
        };
        let mut inner: Vec<usize> = Vec::new();
        let mut q: usize = 0;
        while q < hull.len()
            invariant
                q <= hull@.len(),
                inner@.len() == q,
                hull_pairs_valid(hull@, points@),
                points@.len() == n,
                forall|m: int| 0 <= m < q ==> (#[trigger] inner@[m]) == hull@[m].0,
                forall|m: int| 0 <= m < q ==> (#[trigger] inner@[m]) < n,
            decreases hull@.len() - q,
        {
            inner.push(hull[q].0);
            q += 1;
        }
        proof {
            assert(inner@ =~= hull@.map_values(|e: (usize, Point)| e.0));
        }
        // Candidate pairs: for each point, only the points inside its
        // radius rectangle, found through the spatial range index. Pairs
        // beyond the radius could never be accepted anyway.
        let mut pcopy: Vec<Point> = Vec::new();
        let mut q: usize = 0;
        while q < n
            invariant
                q <= n,
                points@.len() == n,
                pcopy@ == points@.subrange(0, q as int),
            decreases n - q,
        {
            pcopy.push(points[q]);
            proof {
                assert(pcopy@ =~= points@.subrange(0, q + 1));
            }
            q += 1;
        }
        proof {
            assert(pcopy@ =~= points@);
        }
        let tree = Tree::new(pcopy);
        let ri = radius as i64;
        let mut pairs: Vec<(usize, usize)> = Vec::new();
        let mut a: usize = 0;
        while a < n
            invariant
                a <= n,
                n == points@.len(),
                0 <= ri <= 50_000,
                rsq_int == (ri as int) * (ri as int),
                tree.wf(),
                tree.points@ == points@,
                valid_pairs(pairs@, n as int),
                pairs@.no_duplicates(),
                forall|m: int| 0 <= m < pairs@.len() ==> (#[trigger] pairs@[m]).0 < a,
                forall|i2: usize, j2: usize| i2 < j2 && (j2 as int) < n && (i2 as int) < a as int
                    && dist_sqr_val(points@[i2 as int], points@[j2 as int]) < rsq_int
                    ==> #[trigger] pairs@.contains((i2, j2)),
                forall|m: int| 0 <= m < points@.len()
                    ==> 0 <= (#[trigger] points@[m]).x <= 1000 && 0 <= points@[m].y <= 1000,
            decreases n - a,
        {
            let p = points[a];
            let qx1 = p.x - ri;
            let qy1 = p.y - ri;
            let qx2 = p.x + ri;
            let qy2 = p.y + ri;
            let near = tree.query(qx1, qy1, qx2, qy2);
            let ghost nrect = Rect { x1: qx1, y1: qy1, x2: qx2, y2: qy2 };
            let mut m: usize = 0;
            while m < near.len()
                invariant
                    a < n,
                    n == points@.len(),
                    m <= near@.len(),
                    near@.no_duplicates(),
                    forall|x: usize| #[trigger] near@.contains(x) ==> x < n,
                    valid_pairs(pairs@, n as int),
                    pairs@.no_duplicates(),
                    forall|w: int| 0 <= w < pairs@.len()
                        ==> (#[trigger] pairs@[w]).0 < a || pairs@[w].0 == a,
                    forall|w: int| 0 <= w < pairs@.len() && (#[trigger] pairs@[w]).0 == a
                        ==> exists|m2: int| 0 <= m2 < m && near@[m2] == pairs@[w].1,
                    forall|m2: int| 0 <= m2 < m && (near@[m2] as int) > a as int
                        ==> #[trigger] pairs@.contains((a, near@[m2])),
                    forall|i2: usize, j2: usize| i2 < j2 && (j2 as int) < n
                        && (i2 as int) < a as int
                        && dist_sqr_val(points@[i2 as int], points@[j2 as int]) < rsq_int
                        ==> #[trigger] pairs@.contains((i2, j2)),
                decreases near@.len() - m,
            {
                let j = near[m];
                proof {
                    assert(near@.contains(near@[m as int]));
                }
                if j > a {
                    let ghost p_old = pairs@;
                    pairs.push((a, j));
                    proof {
                        assert forall|x: int, y: int|
                            0 <= x < pairs@.len() && 0 <= y < pairs@.len() && x != y
                            implies pairs@[x] != pairs@[y] by {
                            if x < p_old.len() && y < p_old.len() {
                                assert(p_old[x] != p_old[y]);
                            } else {
                                let w = if x < y { x } else { y };
                                if w < p_old.len() && p_old[w] == (a, j) {
                                    let m2 = choose|m2: int|
                                        0 <= m2 < m && near@[m2] == p_old[w].1;
                                    assert(near@[m2] == near@[m as int]);
                                }
                            }
                        }
                        assert forall|w: int|
                            0 <= w < pairs@.len() && (#[trigger] pairs@[w]).0 == a
                            implies exists|m2: int|
                                0 <= m2 < m + 1 && near@[m2] == pairs@[w].1 by {
                            if w < p_old.len() {
                                let m2 = choose|m2: int|
                                    0 <= m2 < m && near@[m2] == p_old[w].1;
                                assert(0 <= m2 < m + 1 && near@[m2] == pairs@[w].1);
                            } else {
                                assert(near@[m as int] == pairs@[w].1);
                            }
                        }
                        assert forall|m2: int| 0 <= m2 < m + 1 && (near@[m2] as int) > a as int
                            implies #[trigger] pairs@.contains((a, near@[m2])) by {
                            if m2 < m {
                                lemma_push_contains(p_old, (a, j), (a, near@[m2]));
                            } else {
                                assert(pairs@[p_old.len() as int] == (a, near@[m2]));
                            }
                        }
                        assert forall|i2: usize, j2: usize| i2 < j2 && (j2 as int) < n
                            && (i2 as int) < a as int
                            && dist_sqr_val(points@[i2 as int], points@[j2 as int]) < rsq_int
                            implies #[trigger] pairs@.contains((i2, j2)) by {
                            lemma_push_contains(p_old, (a, j), (i2, j2));
                        }
                    }
                }
                m += 1;
            }
            proof {
                // Every in-radius partner of point `a` sits in the query
                // rectangle, so it was among the returned indices.
                assert forall|i2: usize, j2: usize| i2 < j2 && (j2 as int) < n
                    && (i2 as int) < a as int + 1
                    && dist_sqr_val(points@[i2 as int], points@[j2 as int]) < rsq_int
                    implies #[trigger] pairs@.contains((i2, j2)) by {
                    if (i2 as int) == a as int {
                        let pa = points@[a as int];
                        let pj = points@[j2 as int];
                        let ddx = pa.x - pj.x;
                        let ddy = pa.y - pj.y;
                        assert(ddx * ddx >= 0 && ddy * ddy >= 0) by (nonlinear_arith);
                        lemma_sq_lt(ddx, ri as int);
                        lemma_sq_lt(ddy, ri as int);
                        assert(in_rect(pj, nrect));
                        assert(near@.contains(j2));
                        let m2 = choose|m2: int| 0 <= m2 < near@.len() && near@[m2] == j2;
                        assert(pairs@.contains((a, j2)));
                    }
                }
            }
            a += 1;
        }
        // Randomize the processing order.
        let ghost pairs0 = pairs@;
        shuffle_pairs(&mut pairs, rng);
        proof {
            pairs@.to_multiset_ensures();
            pairs0.to_multiset_ensures();
            assert forall|m: int| 0 <= m < pairs@.len()
                implies ((#[trigger] pairs@[m]).0 < pairs@[m].1 && pairs@[m].1 < n) by {
                let e = pairs@[m];
                assert(pairs@.contains(e));
                assert(pairs0.to_multiset().count(e) > 0);
                assert(pairs0.contains(e));
                let w = choose|w: int| 0 <= w < pairs0.len() && pairs0[w] == e;
                assert((pairs0[w]).0 < pairs0[w].1 && pairs0[w].1 < n);
            }
            pairs0.lemma_multiset_has_no_duplicates();
            pairs@.lemma_multiset_has_no_duplicates_conv();
            // The shuffle keeps every in-radius candidate pair.
            assert forall|i2: usize, j2: usize| i2 < j2 && (j2 as int) < n
                && dist_sqr_val(points@[i2 as int], points@[j2 as int]) < rsq_int
                implies #[trigger] pairs@.contains((i2, j2)) by {
                assert(pairs0.contains((i2, j2)));
                assert(pairs@.to_multiset().count((i2, j2)) > 0);
            }
            assert(candidates_complete(points@, rsq_int, pairs@));
        }
        // One density draw per candidate pair.
        let mut draws: Vec<bool> = Vec::new();
        let mut q: usize = 0;
        while q < pairs.len()
            invariant
                q <= pairs@.len(),
                draws@.len() == q,
                num <= den,
                den >= 1,
            decreases pairs@.len() - q,
        {
            let r = rand_below(rng, den);
            draws.push(r < num);
            q += 1;
        }
        let built = proximity_graph(&points, radius_sqr, &pairs, &draws);
        let adj = built.0;
        let lines = built.1;
        let node = Node {
            g: Graph { size: n, g: adj },
            edges: Vec::new(),
            inner_edges: inner,
            points,
            lines,
        };
        proof {
            assert(hull_post(hull@, node.points@));
            assert(node.inner_edges@ == hull@.map_values(|e: (usize, Point)| e.0));
            assert(built_by_fold(node, pairs@, draws@));
            assert(room_generated(node, n as int));
        }
        node
    }

    /// The room's hull anchors, tagged with this room's index `i`.
    pub fn edges(&self, i: usize) -> (r: Vec<(usize, usize)>)
        ensures
            r@.len() == self.inner_edges@.len(),
            forall|q: int| 0 <= q < r@.len() ==> #[trigger] r@[q] == (self.inner_edges@[q], i),
    {
        let mut r: Vec<(usize, usize)> = Vec::new();
        let mut q: usize = 0;
        while q < self.inner_edges.len()
            invariant
                q <= self.inner_edges@.len(),
                r@.len() == q,
                forall|m: int| 0 <= m < q ==> #[trigger] r@[m] == (self.inner_edges@[m], i),
            decreases self.inner_edges@.len() - q,
        {
            r.push((self.inner_edges[q], i));
            q += 1;
        }
        r
    }
}

/// A dungeon: a macro graph over the rooms, and the rooms themselves.
pub struct Dungeon {
    pub g: Graph,
    pub nodes: Vec<Node>,
}

impl Dungeon {
    /// Builds every room from its `(point count, density numerator,
    /// density denominator)` entry in `v`, then the macro graph over `n`
    /// rooms with density `p_num / p_den`. All randomness comes from the
    /// single generator seeded with `seed`.
    pub fn new(
        n: usize,
        p_num: u64,
        p_den: u64,
        v: &Vec<(usize, u64, u64)>,
        seed: u64,
    ) -> (d: Dungeon)
        requires
            forall|q: int| 0 <= q < v@.len() ==> 1 <= (#[trigger] v@[q]).0 < usize::MAX,
        ensures
            d.nodes@.len() == v@.len(),
            d.g.size == n,
            d.g.g@.len() == n,
            graph_sym(adj_view(d.g.g@)),
            rows_no_dups(adj_view(d.g.g@)),
            p_den >= 1 && p_num >= p_den ==> forall|i: usize, j: usize|
                (i as int) < n && (j as int) < n && i != j
                    ==> has_edge(adj_view(d.g.g@), i, j),
            p_num == 0 || p_den == 0 ==> forall|i: usize, j: usize|
                !has_edge(adj_view(d.g.g@), i, j),
            forall|q: int| 0 <= q < v@.len()
                ==> room_generated(#[trigger] d.nodes@[q], v@[q].0 as int),
    {
        let mut rng = rng_from_seed(seed);
        let mut nodes: Vec<Node> = Vec::new();
        let mut q: usize = 0;
        while q < v.len()
            invariant
                q <= v@.len(),
                nodes@.len() == q,
                forall|m: int| 0 <= m < v@.len() ==> 1 <= (#[trigger] v@[m]).0 < usize::MAX,
                forall|m: int| 0 <= m < q
                    ==> room_generated(#[trigger] nodes@[m], v@[m].0 as int),
            decreases v@.len() - q,
        {
            let entry = v[q];
            nodes.push(Node::new(entry.0, entry.1, entry.2, &mut rng));
            q += 1;
        }
        let g = Graph::new(n, p_num, p_den, &mut rng);
        Dungeon { g, nodes }
    }
}

} // verus!
