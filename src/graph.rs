//! Directed graphs over nodes `0..n`, with a square boolean matrix as the
//! adjacency relation, and depth-first traversal and greedy coloring on it.
//!
//! The edge `u -> v` is cell `(u + 1, v + 1)` of the adjacency matrix.
#![allow(non_snake_case)]

use vstd::prelude::*;
use crate::booleanmatrix::{Matrix, MatrixError, NewMatrix};
use crate::imaging::{coords, image_dims, image_pixels, new_raster, put_raster_pixel, Raster};

verus! {

/// Pixel value of a present edge in a rendered graph.
pub const INK: (u8, u8, u8) = (0, 0, 0);

/// Pixel value of an absent edge in a rendered graph.
pub const BACKGROUND: (u8, u8, u8) = (255, 255, 255);

/// A directed graph with a label, a visited flag and a color per node.
pub struct Graph {
    data: Matrix,
    labels: Vec<String>,
    colors: Vec<usize>,
    visited: Vec<bool>,
}

/// Number of `false` entries in `s`.
pub open spec fn unvisited_count(s: Seq<bool>) -> nat
    decreases s.len(),
{
    if s.len() == 0 {
        0
    } else {
        unvisited_count(s.drop_last()) + if s.last() {
            0nat
        } else {
            1nat
        }
    }
}

proof fn lemma_mark_decreases(s: Seq<bool>, i: int)
    requires
        0 <= i < s.len(),
        !s[i],
    ensures
        unvisited_count(s.update(i, true)) + 1 == unvisited_count(s),
    decreases s.len(),
{
    let t = s.update(i, true);
    if i == s.len() - 1 {
        assert(t.drop_last() =~= s.drop_last());
    } else {
        assert(t.drop_last() =~= s.drop_last().update(i, true));
        lemma_mark_decreases(s.drop_last(), i);
    }
}

impl Graph {
    /// Number of nodes.
    pub closed spec fn size(&self) -> int {
        self.data.nrows()
    }

    /// Whether the edge `u -> v` is present.
    pub closed spec fn edge(&self, u: int, v: int) -> bool {
        self.data.cell(u + 1, v + 1)
    }

    /// The visited flag of each node.
    pub closed spec fn visited_flags(&self) -> Seq<bool> {
        self.visited@
    }

    /// The color of each node; `0` means uncolored.
    pub closed spec fn node_colors(&self) -> Seq<usize> {
        self.colors@
    }

    /// The label of each node.
    pub closed spec fn node_labels(&self) -> Seq<Seq<char>> {
        self.labels@.map_values(|s: String| s@)
    }

    /// The adjacency matrix is square and the per-node arrays have one slot
    /// per node.
    pub closed spec fn wf(&self) -> bool {
        &&& self.data.wf()
        &&& self.data.nrows() == self.data.ncols()
        &&& self.labels@.len() == self.data.nrows()
        &&& self.colors@.len() == self.data.nrows()
        &&& self.visited@.len() == self.data.nrows()
    }

    /// The per-node arrays have one entry per node, and the node count
    /// leaves room for one more color than there are nodes.
    pub proof fn lemma_lengths(&self)
        requires
            self.wf(),
        ensures
            0 <= self.size() < usize::MAX,
            self.visited_flags().len() == self.size(),
            self.node_colors().len() == self.size(),
            self.node_labels().len() == self.size(),
    {
        self.data.lemma_dims();
        let n = self.size();
        assert(n < usize::MAX) by (nonlinear_arith)
            requires
                n * n <= usize::MAX,
                usize::MAX >= 3,
                n >= 0,
        ;
    }

    /// Same nodes, edges and labels as `other`.
    pub open spec fn same_shape(&self, other: &Graph) -> bool {
        &&& self.size() == other.size()
        &&& forall|u: int, v: int| #[trigger] self.edge(u, v) == other.edge(u, v)
        &&& self.node_labels() == other.node_labels()
    }

    /// Everything of `other` but the visited flags and colors.
    pub open spec fn same_except_marks(&self, other: &Graph) -> bool {
        &&& self.wf()
        &&& self.same_shape(other)
    }
}

/// `p` is a walk along edges of `g` whose nodes after the first are all
/// unvisited in `vis`.
pub open spec fn is_open_path(g: &Graph, vis: Seq<bool>, p: Seq<int>) -> bool {
    &&& p.len() >= 1
    &&& forall|k: int| 0 <= k < p.len() ==> 0 <= #[trigger] p[k] < g.size()
    &&& forall|k: int| 0 <= k < p.len() - 1 ==> g.edge(#[trigger] p[k], p[k + 1])
    &&& forall|k: int| 1 <= k < p.len() ==> !vis[#[trigger] p[k]]
}

/// Node `v` is reachable from `s` through nodes unvisited in `vis`.
pub open spec fn reaches(g: &Graph, vis: Seq<bool>, s: int, v: int) -> bool {
    exists|p: Seq<int>| #[trigger] is_open_path(g, vis, p) && p[0] == s && p.last() == v
}

/// The visited flags after a depth-first search from `s` that starts with
/// flags `vis`.
pub open spec fn dfs_marks(g: &Graph, vis: Seq<bool>, s: int) -> Seq<bool> {
    Seq::new(vis.len(), |v: int| vis[v] || reaches(g, vis, s, v))
}

/// Colors after painting with `c` every node that is set in `after` but not
/// in `before`.
pub open spec fn paint(cols: Seq<usize>, before: Seq<bool>, after: Seq<bool>, c: int) -> Seq<
    usize,
> {
    Seq::new(cols.len(), |v: int| if after[v] && !before[v] { c as usize } else { cols[v] })
}

/// Flags and colors after greedy coloring of nodes `i..n`, where the next
/// fresh color is `c`: each node still unvisited in index order becomes a
/// root, and every node its search reaches takes the root's color.
pub open spec fn coloring_from(g: &Graph, vis: Seq<bool>, cols: Seq<usize>, i: int, c: int) -> (
    Seq<bool>,
    Seq<usize>,
)
    decreases g.size() - i,
{
    if i >= g.size() || i < 0 {
        (vis, cols)
    } else if vis[i] {
        coloring_from(g, vis, cols, i + 1, c)
    } else {
        let after = dfs_marks(g, vis, i);
        coloring_from(g, after, paint(cols, vis, after, c), i + 1, c + 1)
    }
}

/// A graph of `n` nodes with no edges, empty labels, no visited node and
/// no colors.
pub fn NewGraph(n: usize) -> (r: Graph)
    requires
        n * n <= usize::MAX,
    ensures
        r.wf(),
        r.size() == n,
        forall|u: int, v: int|
            0 <= u < n && 0 <= v < n ==> !#[trigger] r.edge(u, v),
        forall|v: int| 0 <= v < n ==> !#[trigger] r.visited_flags()[v],
        forall|v: int| 0 <= v < n ==> #[trigger] r.node_colors()[v] == 0,
        forall|v: int| 0 <= v < n ==> #[trigger] r.node_labels()[v] == Seq::<char>::empty(),
{
    let data = NewMatrix(n, n);
    let mut labels: Vec<String> = Vec::new();
    let mut colors: Vec<usize> = Vec::new();
    let mut visited: Vec<bool> = Vec::new();
    let mut i: usize = 0;
    while i < n
        invariant
            i <= n,
            labels@.len() == i,
            colors@.len() == i,
            visited@.len() == i,
            forall|v: int| 0 <= v < i ==> !#[trigger] visited@[v],
            forall|v: int| 0 <= v < i ==> #[trigger] colors@[v] == 0,
            forall|v: int| 0 <= v < i ==> #[trigger] labels@[v]@ == Seq::<char>::empty(),
        decreases n - i,
    {
        labels.push(String::new());
        colors.push(0);
        visited.push(false);
        i = i + 1;
    }
    let graph = Graph { data, labels, colors, visited };
    proof {
        assert forall|u: int, v: int| 0 <= u < n && 0 <= v < n implies !#[trigger] graph.edge(u, v) by {
            assert(graph.data.valid(u + 1, v + 1));
        }
        assert forall|v: int| 0 <= v < n implies #[trigger] graph.node_labels()[v] == Seq::<
            char,
        >::empty() by {
            assert(graph.node_labels()[v] == graph.labels@[v]@);
        }
    }
    graph
}

/// Greedy coloring from position `i` gives the same flags and colors for
/// two graphs with the same edges and two color arrays that agree on the
/// visited nodes, once every node before `i` is visited.
proof fn lemma_coloring_agrees(
    g1: &Graph,
    g2: &Graph,
    vis: Seq<bool>,
    c1: Seq<usize>,
    c2: Seq<usize>,
    i: int,
    c: int,
)
    requires
        g1.size() == g2.size(),
        forall|u: int, v: int| #[trigger] g1.edge(u, v) == g2.edge(u, v),
        0 <= i <= g1.size(),
        vis.len() == g1.size(),
        c1.len() == g1.size(),
        c2.len() == g1.size(),
        forall|v: int| 0 <= v < i ==> #[trigger] vis[v],
        forall|v: int| 0 <= v < g1.size() && #[trigger] vis[v] ==> c1[v] == c2[v],
    ensures
        coloring_from(g1, vis, c1, i, c) == coloring_from(g2, vis, c2, i, c),
    decreases g1.size() - i,
{
    if i == g1.size() {
        assert forall|v: int| 0 <= v < c1.len() implies c1[v] == c2[v] by {
            assert(vis[v]);
        }
        assert(c1 =~= c2);
    } else if vis[i] {
        lemma_coloring_agrees(g1, g2, vis, c1, c2, i + 1, c);
    } else {
        let after = dfs_marks(g1, vis, i);
        lemma_same_edges_marks(g1, g2, vis, i);
        lemma_reaches_self(g1, vis, i);
        lemma_coloring_agrees(
            g1,
            g2,
            after,
            paint(c1, vis, after, c),
            paint(c2, vis, after, c),
            i + 1,
            c + 1,
        );
    }
}

/// After `reset`, the searches of `DFSAll` and `color` depend on the edges
/// alone: two graphs with the same edges and no visited node give the same
/// search forest (`coloring_from`), with the same roots in the same order
/// and the same tree for every node, whatever colors they held before. So
/// a rerun after `reset` reproduces the first run's visited partition.
pub proof fn lemma_reset_reproduces(g1: &Graph, g2: &Graph)
    requires
        g1.wf(),
        g2.wf(),
        g1.same_shape(g2),
        forall|v: int| 0 <= v < g1.size() ==> !#[trigger] g1.visited_flags()[v],
        forall|v: int| 0 <= v < g2.size() ==> !#[trigger] g2.visited_flags()[v],
    ensures
        coloring_from(g1, g1.visited_flags(), g1.node_colors(), 0, 1) == coloring_from(
            g2,
            g2.visited_flags(),
            g2.node_colors(),
            0,
            1,
        ),
{
    assert(g1.visited_flags() =~= g2.visited_flags());
    lemma_coloring_agrees(g1, g2, g1.visited_flags(), g1.node_colors(), g2.node_colors(), 0, 1);
}

/// Number of roots that greedy coloring (and `DFSAll`) starts a search
/// from, scanning nodes `i..n` with flags `vis`.
pub open spec fn search_roots(g: &Graph, vis: Seq<bool>, i: int) -> nat
    decreases g.size() - i,
{
    if i >= g.size() || i < 0 {
        0
    } else if vis[i] {
        search_roots(g, vis, i + 1)
    } else {
        1 + search_roots(g, dfs_marks(g, vis, i), i + 1)
    }
}

/// The set of colors held by nodes `0..n`.
pub open spec fn colors_used(cols: Seq<usize>, n: int) -> Set<int> {
    Set::new(|d: int| exists|v: int| 0 <= v < n && #[trigger] cols[v] as int == d)
}

/// Some node visited in `vis` holds color `d`.
spec fn color_held(vis: Seq<bool>, cols: Seq<usize>, n: int, d: int) -> bool {
    exists|v: int| 0 <= v < n && vis[v] && #[trigger] cols[v] as int == d
}

proof fn lemma_coloring_counts(g: &Graph, vis: Seq<bool>, cols: Seq<usize>, i: int, c: int)
    requires
        0 <= i <= g.size(),
        vis.len() == g.size(),
        cols.len() == g.size(),
        1 <= c,
        c + (g.size() - i) <= usize::MAX,
        forall|v: int| 0 <= v < i ==> #[trigger] vis[v],
        forall|v: int| 0 <= v < g.size() && #[trigger] vis[v] ==> 1 <= cols[v] < c,
        forall|d: int| 1 <= d < c ==> #[trigger] color_held(vis, cols, g.size(), d),
    ensures
        search_roots(g, vis, i) <= g.size() - i,
        forall|v: int| 0 <= v < g.size() ==> #[trigger] coloring_from(g, vis, cols, i, c).0[v],
        colors_used(coloring_from(g, vis, cols, i, c).1, g.size()) =~= Set::new(
            |d: int| 1 <= d < c + search_roots(g, vis, i),
        ),
    decreases g.size() - i,
{
    let n = g.size();
    if i == n {
        assert forall|d: int| #[trigger] colors_used(cols, n).contains(d) <==> 1 <= d < c by {
            if colors_used(cols, n).contains(d) {
                let v = choose|v: int| 0 <= v < n && #[trigger] cols[v] as int == d;
                assert(vis[v]);
            }
            if 1 <= d < c {
                assert(color_held(vis, cols, n, d));
                let v = choose|v: int| 0 <= v < n && vis[v] && #[trigger] cols[v] as int == d;
                assert(colors_used(cols, n).contains(d));
            }
        }
    } else if vis[i] {
        lemma_coloring_counts(g, vis, cols, i + 1, c);
    } else {
        let after = dfs_marks(g, vis, i);
        let painted = paint(cols, vis, after, c);
        lemma_reaches_self(g, vis, i);
        assert forall|d: int| 1 <= d < c + 1 implies #[trigger] color_held(after, painted, n, d) by {
            if d == c {
                assert(painted[i] as int == d);
            } else {
                assert(color_held(vis, cols, n, d));
                let v = choose|v: int| 0 <= v < n && vis[v] && #[trigger] cols[v] as int == d;
                assert(painted[v] as int == d);
            }
        }
        lemma_coloring_counts(g, after, painted, i + 1, c + 1);
    }
}

/// From a graph with no visited node, the scan of `DFSAll` and `color`
/// visits every node: the searches it starts cover the whole node set. The
/// search forest splits the nodes into `k` disjoint trees, `k` being the
/// number of roots the scan starts a search from: each node lies in exactly
/// one tree, named by its color in `1..=k`, and each of those colors names
/// a non-empty tree.
pub proof fn lemma_coloring_uses_one_color_per_root(g: &Graph)
    requires
        g.wf(),
        forall|v: int| 0 <= v < g.size() ==> !#[trigger] g.visited_flags()[v],
    ensures
        forall|v: int|
            0 <= v < g.size() ==> #[trigger] coloring_from(
                g,
                g.visited_flags(),
                g.node_colors(),
                0,
                1,
            ).0[v],
        colors_used(coloring_from(g, g.visited_flags(), g.node_colors(), 0, 1).1, g.size())
            =~= Set::new(|d: int| 1 <= d <= search_roots(g, g.visited_flags(), 0)),
        forall|v: int|
            0 <= v < g.size() ==> 1 <= #[trigger] coloring_from(
                g,
                g.visited_flags(),
                g.node_colors(),
                0,
                1,
            ).1[v] <= search_roots(g, g.visited_flags(), 0),
{
    g.lemma_lengths();
    lemma_coloring_counts(g, g.visited_flags(), g.node_colors(), 0, 1);
    let trees = coloring_from(g, g.visited_flags(), g.node_colors(), 0, 1).1;
    assert forall|v: int| 0 <= v < g.size() implies 1 <= #[trigger] trees[v] <= search_roots(
        g,
        g.visited_flags(),
        0,
    ) by {
        assert(colors_used(trees, g.size()).contains(trees[v] as int));
    }
}

proof fn lemma_reaches_self(g: &Graph, vis: Seq<bool>, s: int)
    requires
        0 <= s < g.size(),
    ensures
        reaches(g, vis, s, s),
{
    let p = seq![s];
    assert(is_open_path(g, vis, p));
}

proof fn lemma_reaches_step(g: &Graph, vis: Seq<bool>, s: int, u: int, w: int)
    requires
        reaches(g, vis, s, u),
        g.edge(u, w),
        0 <= w < g.size(),
        !vis[w],
    ensures
        reaches(g, vis, s, w),
{
    let p = choose|p: Seq<int>| #[trigger] is_open_path(g, vis, p) && p[0] == s && p.last() == u;
    let q = p.push(w);
    assert forall|k: int| 0 <= k < q.len() - 1 implies g.edge(#[trigger] q[k], q[k + 1]) by {
        if k < p.len() - 1 {
            assert(q[k] == p[k] && q[k + 1] == p[k + 1]);
        }
    }
    assert(is_open_path(g, vis, q));
}

/// Under the closure condition of `lemma_closed_covers`, every node of an
/// open path from `s` is set in `now`.
proof fn lemma_path_marked(g: &Graph, vis: Seq<bool>, now: Seq<bool>, s: int, p: Seq<int>, k: int)
    requires
        now.len() == g.size(),
        0 <= s < g.size(),
        now[s],
        forall|u: int|
            0 <= u < g.size() && now[u] && (u == s || !vis[u]) ==> forall|w: int|
                0 <= w < g.size() && #[trigger] g.edge(u, w) ==> now[w],
        is_open_path(g, vis, p),
        p[0] == s,
        0 <= k < p.len(),
    ensures
        now[p[k]],
        p[k] == s || !vis[p[k]],
    decreases k,
{
    if k > 0 {
        lemma_path_marked(g, vis, now, s, p, k - 1);
        assert(g.edge(p[k - 1], p[k]));
    }
}

/// When every node that is `s` or newly set in `now` has all its successors
/// set in `now`, every node reachable from `s` is set.
proof fn lemma_closed_covers(g: &Graph, vis: Seq<bool>, now: Seq<bool>, s: int, v: int)
    requires
        now.len() == g.size(),
        0 <= s < g.size(),
        now[s],
        forall|u: int|
            0 <= u < g.size() && now[u] && (u == s || !vis[u]) ==> forall|w: int|
                0 <= w < g.size() && #[trigger] g.edge(u, w) ==> now[w],
        reaches(g, vis, s, v),
    ensures
        now[v],
{
    let p = choose|p: Seq<int>| #[trigger] is_open_path(g, vis, p) && p[0] == s && p.last() == v;
    lemma_path_marked(g, vis, now, s, p, p.len() - 1);
}

proof fn lemma_push_contains(s: Seq<usize>, x: usize, v: usize)
    ensures
        s.push(x).contains(v) <==> (s.contains(v) || v == x),
{
    if s.contains(v) {
        let k = choose|k: int| 0 <= k < s.len() && s[k] == v;
        assert(s.push(x)[k] == v);
    }
    if v == x {
        assert(s.push(x)[s.len() as int] == v);
    }
    if s.push(x).contains(v) {
        let k = choose|k: int| 0 <= k < s.len() + 1 && s.push(x)[k] == v;
        if k < s.len() {
            assert(s[k] == v);
        }
    }
}

proof fn lemma_same_edges_marks(g1: &Graph, g2: &Graph, vis: Seq<bool>, s: int)
    requires
        g1.size() == g2.size(),
        forall|u: int, v: int| #[trigger] g1.edge(u, v) == g2.edge(u, v),
    ensures
        dfs_marks(g1, vis, s) == dfs_marks(g2, vis, s),
{
    assert forall|p: Seq<int>| #[trigger] is_open_path(g1, vis, p) == is_open_path(g2, vis, p) by {
        if is_open_path(g1, vis, p) {
            assert forall|k: int| 0 <= k < p.len() - 1 implies g2.edge(#[trigger] p[k], p[k + 1]) by {
                assert(g1.edge(p[k], p[k + 1]));
            }
        }
        if is_open_path(g2, vis, p) {
            assert forall|k: int| 0 <= k < p.len() - 1 implies g1.edge(#[trigger] p[k], p[k + 1]) by {
                assert(g2.edge(p[k], p[k + 1]));
            }
        }
    }
    assert forall|v: int| reaches(g1, vis, s, v) == reaches(g2, vis, s, v) by {
        if reaches(g1, vis, s, v) {
            let p = choose|p: Seq<int>|
                #[trigger] is_open_path(g1, vis, p) && p[0] == s && p.last() == v;
            assert(is_open_path(g2, vis, p));
        }
        if reaches(g2, vis, s, v) {
            let p = choose|p: Seq<int>|
                #[trigger] is_open_path(g2, vis, p) && p[0] == s && p.last() == v;
            assert(is_open_path(g1, vis, p));
        }
    }
    assert(dfs_marks(g1, vis, s) =~= dfs_marks(g2, vis, s));
}

impl Graph {
    /// Depth-first search from `start` with an explicit stack. Every node
    /// reachable from `start` through unvisited nodes is marked; when `fill`
    /// holds, each node marked here takes the color `color`.
    fn explore(&mut self, start: usize, fill: bool, color: usize)
        requires
            old(self).wf(),
            0 <= start < old(self).size(),
        ensures
            final(self).same_except_marks(old(self)),
            final(self).data == old(self).data,
            final(self).labels@ == old(self).labels@,
            final(self).visited_flags() == dfs_marks(
                old(self),
                old(self).visited_flags(),
                start as int,
            ),
            final(self).node_colors() == if fill {
                paint(
                    old(self).node_colors(),
                    old(self).visited_flags(),
                    final(self).visited_flags(),
                    color as int,
                )
            } else {
                old(self).node_colors()
            },
    {
        let ghost g0 = *old(self);
        let ghost vis0 = old(self).visited@;
        let ghost cols0 = old(self).colors@;
        let ghost s = start as int;
        let n = self.visited.len();
        proof {
            lemma_reaches_self(&g0, vis0, s);
        }
        if fill && !self.visited[start] {
            self.colors.set(start, color);
        }
        self.visited.set(start, true);
        let mut stack: Vec<usize> = Vec::new();
        stack.push(start);
        proof {
            lemma_push_contains(Seq::empty(), start, start);
            assert(Seq::<usize>::empty().push(start) =~= stack@);
        }
        while stack.len() > 0
            invariant
                self.wf(),
                self.data == g0.data,
                self.labels@ == g0.labels@,
                self.same_shape(&g0),
                n == g0.size(),
                self.visited@.len() == vis0.len(),
                0 <= s < n,
                self.visited@[s],
                forall|k: int|
                    0 <= k < stack@.len() ==> {
                        &&& 0 <= #[trigger] stack@[k] < n
                        &&& self.visited@[stack@[k] as int]
                        &&& (stack@[k] == s || !vis0[stack@[k] as int])
                    },
                forall|v: int| 0 <= v < n && vis0[v] ==> #[trigger] self.visited@[v],
                forall|v: int|
                    0 <= v < n && #[trigger] self.visited@[v] ==> vis0[v] || reaches(
                        &g0,
                        vis0,
                        s,
                        v,
                    ),
                forall|u: int|
                    0 <= u < n && #[trigger] self.visited@[u] && (u == s || !vis0[u]) ==> (
                    stack@.contains(u as usize) || forall|w: int|
                        0 <= w < n && #[trigger] g0.edge(u, w) ==> self.visited@[w]),
                self.colors@ == if fill {
                    paint(cols0, vis0, self.visited@, color as int)
                } else {
                    cols0
                },
            decreases unvisited_count(self.visited@), stack.len(),
        {
            let ghost count0 = unvisited_count(self.visited@);
            let ghost len0 = stack.len();
            let ghost stack0 = stack@;
            let u = match stack.pop() {
                Some(x) => x,
                None => start,
            };
            proof {
                assert(stack0 =~= stack@.push(u));
                assert(stack0[stack0.len() - 1] == u);
                assert forall|v: usize| #[trigger] stack0.contains(v) implies v == u
                    || stack@.contains(v) by {
                    lemma_push_contains(stack@, u, v);
                }
            }
            let mut w: usize = 0;
            while w < n
                invariant
                    self.wf(),
                    self.data == g0.data,
                    self.labels@ == g0.labels@,
                    self.same_shape(&g0),
                    n == g0.size(),
                    0 <= u < n,
                    w <= n,
                    self.visited@.len() == vis0.len(),
                    0 <= s < n,
                    self.visited@[s],
                    self.visited@[u as int],
                    unvisited_count(self.visited@) <= count0,
                    u == s || !vis0[u as int],
                    unvisited_count(self.visited@) + stack.len() + 1 <= count0 + len0,
                    stack.len() + 1 <= len0 || unvisited_count(self.visited@) < count0,
                    forall|k: int|
                        0 <= k < stack@.len() ==> {
                            &&& 0 <= #[trigger] stack@[k] < n
                            &&& self.visited@[stack@[k] as int]
                            &&& (stack@[k] == s || !vis0[stack@[k] as int])
                        },
                    forall|v: int| 0 <= v < n && vis0[v] ==> #[trigger] self.visited@[v],
                    forall|v: int|
                        0 <= v < n && #[trigger] self.visited@[v] ==> vis0[v] || reaches(
                            &g0,
                            vis0,
                            s,
                            v,
                        ),
                    forall|x: int|
                        0 <= x < w && #[trigger] g0.edge(u as int, x) ==> self.visited@[x],
                    forall|v: int|
                        0 <= v < n && #[trigger] self.visited@[v] && (v == s || !vis0[v]) ==> (
                        v == u || stack@.contains(v as usize) || forall|x: int|
                            0 <= x < n && #[trigger] g0.edge(v, x) ==> self.visited@[x]),
                    self.colors@ == if fill {
                        paint(cols0, vis0, self.visited@, color as int)
                    } else {
                        cols0
                    },
                decreases n - w,
            {
                let linked = self.has_edge(u, w);
                if linked && !self.visited[w] {
                    proof {
                        lemma_reaches_self(&g0, vis0, s);
                        lemma_reaches_step(&g0, vis0, s, u as int, w as int);
                        lemma_mark_decreases(self.visited@, w as int);
                    }
                    let ghost before = self.visited@;
                    let ghost stack1 = stack@;
                    self.visited.set(w, true);
                    if fill {
                        self.colors.set(w, color);
                    }
                    stack.push(w);
                    proof {
                        assert forall|v: int|
                            0 <= v < n && #[trigger] self.visited@[v] && (v == s || !vis0[v])
                                implies (v == u || stack@.contains(v as usize) || forall|x: int|
                            0 <= x < n && #[trigger] g0.edge(v, x) ==> self.visited@[x]) by {
                            lemma_push_contains(stack1, w, v as usize);
                        }
                        if fill {
                            assert(self.colors@ =~= paint(
                                cols0,
                                vis0,
                                self.visited@,
                                color as int,
                            ));
                        }
                    }
                }
                w = w + 1;
            }
        }
        proof {
            assert forall|v: int| 0 <= v < n implies #[trigger] self.visited@[v] == dfs_marks(
                &g0,
                vis0,
                s,
            )[v] by {
                if reaches(&g0, vis0, s, v) {
                    lemma_closed_covers(&g0, vis0, self.visited@, s, v);
                }
            }
            assert(self.visited@ =~= dfs_marks(&g0, vis0, s));
        }
    }

    /// Depth-first search from node `from`: marks `from` and every node
    /// reachable from it through nodes that are not yet visited. Flags set
    /// before the call stay set.
    pub fn DFS(&mut self, from: usize)
        requires
            old(self).wf(),
            from < old(self).size(),
        ensures
            final(self).same_except_marks(old(self)),
            final(self).visited_flags() == dfs_marks(old(self), old(self).visited_flags(), from as int),
            final(self).node_colors() == old(self).node_colors(),
    {
        self.explore(from, false, 0);
    }

    /// Runs `DFS` from each node, in ascending order, that is still
    /// unvisited when its turn comes; afterwards every node is visited.
    /// These are the searches of greedy coloring (`coloring_from`), whose
    /// colors name the tree each node fell into.
    pub fn DFSAll(&mut self)
        requires
            old(self).wf(),
        ensures
            final(self).same_except_marks(old(self)),
            final(self).node_colors() == old(self).node_colors(),
            forall|v: int| 0 <= v < final(self).size() ==> #[trigger] final(self).visited_flags()[v],
            final(self).visited_flags() == coloring_from(
                old(self),
                old(self).visited_flags(),
                old(self).node_colors(),
                0,
                1,
            ).0,
    {
        let ghost g0 = *old(self);
        let n = self.visited.len();
        let ghost mut trees: Seq<usize> = g0.colors@;
        let ghost mut next: int = 1;
        let mut i: usize = 0;
        while i < n
            invariant
                self.wf(),
                self.data == g0.data,
                self.labels@ == g0.labels@,
                self.colors@ == g0.colors@,
                n == self.size(),
                n == g0.size(),
                i <= n,
                forall|v: int| 0 <= v < i ==> #[trigger] self.visited@[v],
                coloring_from(&g0, self.visited@, trees, i as int, next) == coloring_from(
                    &g0,
                    g0.visited@,
                    g0.colors@,
                    0,
                    1,
                ),
            decreases n - i,
        {
            if !self.visited[i] {
                let ghost before = self.visited@;
                let ghost bg = *self;
                self.explore(i, false, 0);
                proof {
                    lemma_same_edges_marks(&bg, &g0, before, i as int);
                    trees = paint(trees, before, self.visited@, next);
                    next = next + 1;
                    assert forall|v: int| 0 <= v <= i implies #[trigger] self.visited@[v] by {
                        if v == i {
                            lemma_reaches_self(&bg, before, v);
                        }
                    }
                }
            }
            i = i + 1;
        }
    }

    /// Greedy coloring: each node that is still unvisited when its turn
    /// comes, in ascending order, takes the next color (`1`, `2`, ...), and
    /// a search from it gives that color to every node it marks.
    pub fn color(&mut self)
        requires
            old(self).wf(),
        ensures
            final(self).same_except_marks(old(self)),
            (final(self).visited_flags(), final(self).node_colors()) == coloring_from(
                old(self),
                old(self).visited_flags(),
                old(self).node_colors(),
                0,
                1,
            ),
    {
        let ghost g0 = *old(self);
        let n = self.visited.len();
        proof {
            self.lemma_lengths();
        }
        let mut color: usize = 1;
        let mut i: usize = 0;
        while i < n
            invariant
                self.wf(),
                self.data == g0.data,
                self.labels@ == g0.labels@,
                n == self.size(),
                n == g0.size(),
                n < usize::MAX,
                i <= n,
                1 <= color <= i + 1,
                coloring_from(&g0, self.visited@, self.colors@, i as int, color as int)
                    == coloring_from(&g0, g0.visited@, g0.colors@, 0, 1),
            decreases n - i,
        {
            if !self.visited[i] {
                let ghost before = *self;
                self.explore(i, true, color);
                proof {
                    lemma_same_edges_marks(&before, &g0, before.visited@, i as int);
                }
                color = color + 1;
            }
            i = i + 1;
        }
    }

    /// Clears every visited flag; edges, labels and colors stay.
    pub fn reset(&mut self)
        requires
            old(self).wf(),
        ensures
            final(self).same_except_marks(old(self)),
            final(self).node_colors() == old(self).node_colors(),
            forall|v: int|
                0 <= v < final(self).size() ==> !#[trigger] final(self).visited_flags()[v],
    {
        let ghost g0 = *old(self);
        let mut i: usize = 0;
        while i < self.visited.len()
            invariant
                self.wf(),
                self.data == g0.data,
                self.labels@ == g0.labels@,
                self.colors@ == g0.colors@,
                i <= self.visited@.len(),
                forall|v: int| 0 <= v < i ==> !#[trigger] self.visited@[v],
            decreases self.visited@.len() - i,
        {
            self.visited.set(i, false);
            i = i + 1;
        }
    }

    /// Adds the edge `from -> to`; fails with `IndexOutOfRange`, changing
    /// nothing, unless both are nodes of the graph.
    pub fn AddEdge(&mut self, from: usize, to: usize) -> (r: Result<(), MatrixError>)
        requires
            old(self).wf(),
        ensures
            final(self).wf(),
            final(self).size() == old(self).size(),
            final(self).node_labels() == old(self).node_labels(),
            final(self).visited_flags() == old(self).visited_flags(),
            final(self).node_colors() == old(self).node_colors(),
            (from < old(self).size() && to < old(self).size()) ==> {
                &&& r == Ok::<(), MatrixError>(())
                &&& forall|u: int, v: int|
                    #![trigger final(self).edge(u, v)]
                    0 <= u < final(self).size() && 0 <= v < final(self).size() ==> final(self).edge(u, v) == if u == from && v == to {
                        true
                    } else {
                        old(self).edge(u, v)
                    }
            },
            !(from < old(self).size() && to < old(self).size()) ==> {
                &&& r == Err::<(), MatrixError>(MatrixError::IndexOutOfRange)
                &&& *final(self) == *old(self)
            },
    {
        self.put_edge(from, to, true)
    }

    /// Removes the edge `from -> to`; fails with `IndexOutOfRange`, changing
    /// nothing, unless both are nodes of the graph.
    pub fn RemoveEdge(&mut self, from: usize, to: usize) -> (r: Result<(), MatrixError>)
        requires
            old(self).wf(),
        ensures
            final(self).wf(),
            final(self).size() == old(self).size(),
            final(self).node_labels() == old(self).node_labels(),
            final(self).visited_flags() == old(self).visited_flags(),
            final(self).node_colors() == old(self).node_colors(),
            (from < old(self).size() && to < old(self).size()) ==> {
                &&& r == Ok::<(), MatrixError>(())
                &&& forall|u: int, v: int|
                    #![trigger final(self).edge(u, v)]
                    0 <= u < final(self).size() && 0 <= v < final(self).size() ==> final(self).edge(u, v) == if u == from && v == to {
                        false
                    } else {
                        old(self).edge(u, v)
                    }
            },
            !(from < old(self).size() && to < old(self).size()) ==> {
                &&& r == Err::<(), MatrixError>(MatrixError::IndexOutOfRange)
                &&& *final(self) == *old(self)
            },
    {
        self.put_edge(from, to, false)
    }

    /// Sets or clears the adjacency bit of `from -> to`.
    fn put_edge(&mut self, from: usize, to: usize, val: bool) -> (r: Result<(), MatrixError>)
        requires
            old(self).wf(),
        ensures
            final(self).wf(),
            final(self).size() == old(self).size(),
            final(self).labels == old(self).labels,
            final(self).visited == old(self).visited,
            final(self).colors == old(self).colors,
            (from < old(self).size() && to < old(self).size()) ==> {
                &&& r == Ok::<(), MatrixError>(())
                &&& forall|u: int, v: int|
                    #![trigger final(self).edge(u, v)]
                    0 <= u < final(self).size() && 0 <= v < final(self).size() ==> final(self).edge(u, v) == if u == from && v == to {
                        val
                    } else {
                        old(self).edge(u, v)
                    }
            },
            !(from < old(self).size() && to < old(self).size()) ==> {
                &&& r == Err::<(), MatrixError>(MatrixError::IndexOutOfRange)
                &&& *final(self) == *old(self)
            },
    {
        let n = self.visited.len();
        if from >= n || to >= n {
            return Err(MatrixError::IndexOutOfRange);
        }
        proof {
            self.data.lemma_dims();
        }
        let r = self.data.set(from + 1, to + 1, val);
        proof {
            assert forall|u: int, v: int|
                #![trigger self.edge(u, v)]
                0 <= u < self.size() && 0 <= v < self.size() implies self.edge(u, v) == if u
                    == from && v == to {
                    val
                } else {
                    old(self).edge(u, v)
                } by {
                assert(self.data.valid(u + 1, v + 1));
            }
        }
        r
    }

    /// Replaces the label of node `from`.
    pub fn AddLabel(&mut self, from: usize, label: String)
        requires
            old(self).wf(),
            from < old(self).size(),
        ensures
            final(self).wf(),
            final(self).size() == old(self).size(),
            forall|u: int, v: int| #[trigger] final(self).edge(u, v) == old(self).edge(u, v),
            final(self).node_labels() == old(self).node_labels().update(from as int, label@),
            final(self).visited_flags() == old(self).visited_flags(),
            final(self).node_colors() == old(self).node_colors(),
    {
        self.labels.set(from, label);
        proof {
            assert(self.node_labels() =~= old(self).node_labels().update(from as int, label@));
        }
    }

    /// The adjacency matrix as text, one row per node: character `v` of row
    /// `u` is `'1'` when the edge `u -> v` is present and `'0'` otherwise.
    pub fn Print(&self) -> (r: Vec<Vec<char>>)
        requires
            self.wf(),
        ensures
            r@.len() == self.size(),
            forall|u: int|
                0 <= u < self.size() ==> {
                    &&& (#[trigger] r@[u])@.len() == self.size()
                    &&& forall|v: int|
                        0 <= v < self.size() ==> r@[u]@[v] == if self.edge(u, v) {
                            '1'
                        } else {
                            '0'
                        }
                },
    {
        self.data.dump()
    }

    /// An `n x n` pixel grid of the adjacency pattern: cell `[x][y]` is ink
    /// (`true`) exactly when the edge `x -> y` is present.
    pub fn to_pixel_grid(&self) -> (r: Vec<Vec<bool>>)
        requires
            self.wf(),
        ensures
            r@.len() == self.size(),
            forall|x: int|
                0 <= x < self.size() ==> {
                    &&& (#[trigger] r@[x])@.len() == self.size()
                    &&& forall|y: int| 0 <= y < self.size() ==> r@[x]@[y] == self.edge(x, y)
                },
    {
        let n = self.visited.len();
        let mut grid: Vec<Vec<bool>> = Vec::new();
        let mut x: usize = 0;
        while x < n
            invariant
                self.wf(),
                n == self.size(),
                x <= n,
                grid@.len() == x,
                forall|a: int|
                    0 <= a < x ==> {
                        &&& (#[trigger] grid@[a])@.len() == n
                        &&& forall|b: int| 0 <= b < n ==> grid@[a]@[b] == self.edge(a, b)
                    },
            decreases n - x,
        {
            let mut row: Vec<bool> = Vec::new();
            let mut y: usize = 0;
            while y < n
                invariant
                    self.wf(),
                    n == self.size(),
                    x < n,
                    y <= n,
                    row@.len() == y,
                    forall|b: int| 0 <= b < y ==> row@[b] == self.edge(x as int, b),
                decreases n - y,
            {
                row.push(self.has_edge(x, y));
                y = y + 1;
            }
            grid.push(row);
            x = x + 1;
        }
        grid
    }

    /// The adjacency pattern as an `n x n` image: pixel `(x, y)` is ink
    /// (black) when the edge `x -> y` is present and background (white)
    /// otherwise.
    pub fn toImage(&self) -> (r: Raster)
        requires
            self.wf(),
            self.size() <= u32::MAX,
            3 * self.size() * self.size() <= usize::MAX,
        ensures
            image_dims(r) == (self.size() as u32, self.size() as u32),
            image_pixels(r).dom() == coords(self.size() as u32, self.size() as u32),
            forall|x: u32, y: u32|
                x < self.size() && y < self.size() ==> #[trigger] image_pixels(r)[(x, y)] == if self.edge(
                    x as int,
                    y as int,
                ) {
                    INK
                } else {
                    BACKGROUND
                },
    {
        let n = self.visited.len();
        let side = n as u32;
        proof {
            let k = self.size();
            assert(3 * k <= usize::MAX) by (nonlinear_arith)
                requires
                    3 * k * k <= usize::MAX,
                    k >= 0,
            ;
        }
        let mut img = new_raster(side, side);
        let mut x: usize = 0;
        while x < n
            invariant
                self.wf(),
                n == self.size(),
                n <= u32::MAX,
                side == n,
                x <= n,
                image_dims(img) == (side, side),
                image_pixels(img).dom() == coords(side, side),
                forall|a: u32, b: u32|
                    a < x && b < n ==> #[trigger] image_pixels(img)[(a, b)] == if self.edge(
                        a as int,
                        b as int,
                    ) {
                        INK
                    } else {
                        BACKGROUND
                    },
            decreases n - x,
        {
            let mut y: usize = 0;
            while y < n
                invariant
                    self.wf(),
                    n == self.size(),
                    n <= u32::MAX,
                    side == n,
                    x < n,
                    y <= n,
                    image_dims(img) == (side, side),
                    image_pixels(img).dom() == coords(side, side),
                    forall|a: u32, b: u32|
                        (a < x || (a == x && b < y)) && b < n ==> #[trigger] image_pixels(img)[(
                            a,
                            b,
                        )] == if self.edge(a as int, b as int) {
                            INK
                        } else {
                            BACKGROUND
                        },
                decreases n - y,
            {
                let rgb = if self.has_edge(x, y) {
                    INK
                } else {
                    BACKGROUND
                };
                put_raster_pixel(&mut img, x as u32, y as u32, rgb);
                proof {
                    assert(image_pixels(img).dom() =~= coords(side, side));
                }
                y = y + 1;
            }
            x = x + 1;
        }
        img
    }

    /// Number of nodes.
    pub fn node_count(&self) -> (r: usize)
        requires
            self.wf(),
        ensures
            r == self.size(),
    {
        self.visited.len()
    }

    /// Whether node `v` is visited.
    pub fn is_visited(&self, v: usize) -> (r: bool)
        requires
            self.wf(),
            v < self.size(),
        ensures
            r == self.visited_flags()[v as int],
    {
        self.visited[v]
    }

    /// The color of node `v`; `0` when it has none.
    pub fn color_of(&self, v: usize) -> (r: usize)
        requires
            self.wf(),
            v < self.size(),
        ensures
            r == self.node_colors()[v as int],
    {
        self.colors[v]
    }

    /// The label of node `v`.
    pub fn label(&self, v: usize) -> (r: &String)
        requires
            self.wf(),
            v < self.size(),
        ensures
            r@ == self.node_labels()[v as int],
    {
        &self.labels[v]
    }

    /// Whether the edge `u -> v` is present, for nodes of the graph.
    fn has_edge(&self, u: usize, v: usize) -> (r: bool)
        requires
            self.wf(),
            u < self.size(),
            v < self.size(),
        ensures
            r == self.edge(u as int, v as int),
    {
        proof {
            self.data.lemma_dims();
        }
        match self.data.get(u + 1, v + 1) {
            Ok(b) => b,
            Err(_) => false,
        }
    }
}

} // verus!
