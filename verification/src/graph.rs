//! Undirected simple graphs as symmetric, sorted adjacency lists, with the
//! coloring validator.

use vstd::prelude::*;

verus! {

/// Every element of `s` is strictly smaller than its successors, so the
/// sequence is sorted and free of duplicates.
pub open spec fn sorted_strict(s: Seq<usize>) -> bool {
    forall|p: int, q: int| 0 <= p < q < s.len() ==> s[p] < s[q]
}

/// `cs` assigns adjacent nodes of `g` distinct colors.
pub open spec fn valid_coloring(g: Graph, cs: Seq<usize>) -> bool {
    forall|a: int, b: int| g.edge(a, b) ==> cs[a] != cs[b]
}

/// An undirected simple graph on nodes `0 .. n`, stored as one sorted,
/// duplicate-free neighbor list per node, kept symmetric at all times.
pub struct Graph {
    nodes: Vec<Vec<usize>>,
}

impl Graph {
    /// The adjacency lists as a sequence of sequences of node indices.
    pub closed spec fn adj(self) -> Seq<Seq<usize>> {
        self.nodes@.map_values(|row: Vec<usize>| row@)
    }

    /// The number of nodes the graph was created with.
    pub open spec fn node_count(self) -> nat {
        self.adj().len()
    }

    /// `b` appears in the neighbor list of `a`.
    pub open spec fn edge(self, a: int, b: int) -> bool {
        &&& 0 <= a < self.node_count()
        &&& 0 <= b < self.node_count()
        &&& self.adj()[a].contains(b as usize)
    }

    /// The graph has no edge at all.
    pub open spec fn edgeless(self) -> bool {
        forall|i: int| 0 <= i < self.node_count() ==> (#[trigger] self.adj()[i]).len() == 0
    }

    /// Structural invariant: every neighbor list is sorted and duplicate-free,
    /// every entry is the index of another node, and adjacency is symmetric.
    pub open spec fn wf(self) -> bool {
        &&& self.node_count() <= usize::MAX
        &&& forall|i: int| 0 <= i < self.node_count() ==> sorted_strict(#[trigger] self.adj()[i])
        &&& forall|i: int, t: int|
            0 <= i < self.node_count() && 0 <= t < self.adj()[i].len()
                ==> #[trigger] self.adj()[i][t] < self.node_count() && self.adj()[i][t] != i
        &&& forall|a: int, b: int| #[trigger] self.edge(a, b) ==> self.edge(b, a)
    }

    /// Creates an empty graph with `n` nodes and `0` edges.
    pub fn new(n: usize) -> (g: Graph)
        ensures
            g.wf(),
            g.node_count() == n,
            forall|a: int, b: int| !g.edge(a, b),
            g.edgeless(),
    {
        let mut nodes: Vec<Vec<usize>> = Vec::new();
        while nodes.len() < n
            invariant
                nodes@.len() <= n,
                forall|i: int| 0 <= i < nodes@.len() ==> (#[trigger] nodes@[i])@.len() == 0,
            decreases n - nodes@.len(),
        {
            nodes.push(Vec::new());
        }
        let g = Graph { nodes };
        assert forall|a: int, b: int| !g.edge(a, b) by {
            if 0 <= a < g.node_count() {
                assert(g.adj()[a].len() == 0);
            }
        }
        g
    }

    /// The number of nodes.
    pub fn num_nodes(&self) -> (n: usize)
        ensures
            n == self.node_count(),
    {
        self.nodes.len()
    }

    /// The neighbor list of node `i`, as an ordered, duplicate-free sequence.
    pub fn neighbors(&self, i: usize) -> (row: &Vec<usize>)
        requires
            i < self.node_count(),
        ensures
            row@ == self.adj()[i as int],
    {
        &self.nodes[i]
    }

    /// Adds an undirected edge between the distinct nodes `a` and `b`.
    ///
    /// Out-of-range endpoints, a repeated edge, and a self-loop are contract
    /// violations, ruled out by the precondition rather than detected at run
    /// time.
    pub fn add_edge(&mut self, a: usize, b: usize)
        requires
            old(self).wf(),
            a < old(self).node_count(),
            b < old(self).node_count(),
            a != b,
            !old(self).edge(a as int, b as int),
        ensures
            final(self).wf(),
            final(self).node_count() == old(self).node_count(),
            final(self).edge(a as int, b as int),
            forall|x: int, y: int|
                final(self).edge(x, y) <==> old(self).edge(x, y) || (x == a && y == b) || (x == b
                    && y == a),
    {
        let ghost g0 = *old(self);
        proof {
            // Symmetry of the old graph: the reverse edge is absent too.
            if g0.edge(b as int, a as int) {
                assert(g0.edge(a as int, b as int));
            }
        }
        insert_sorted(&mut self.nodes[a], b);
        proof {
            let gm = *self;
            assert(gm.adj().len() == g0.adj().len());
            assert(gm.adj()[a as int] == gm.nodes@[a as int]@);
            assert(gm.adj()[a as int].contains(b));
            assert(forall|y: usize|
                gm.adj()[a as int].contains(y) <==> g0.adj()[a as int].contains(y) || y == b);
            assert(forall|i: int| 0 <= i < gm.adj().len() && i != a ==> gm.adj()[i] == g0.adj()[i]);
        }
        let ghost gm = *self;
        insert_sorted(&mut self.nodes[b], a);
        proof {
            let g1 = *self;
            assert(g1.adj().len() == g0.adj().len());
            assert(g1.adj()[b as int].contains(a));
            assert(forall|y: usize|
                g1.adj()[b as int].contains(y) <==> g0.adj()[b as int].contains(y) || y == a);
            assert(forall|i: int| 0 <= i < g1.adj().len() && i != b ==> g1.adj()[i] == gm.adj()[i]);
            assert forall|i: int| 0 <= i < g1.node_count() implies sorted_strict(
                #[trigger] g1.adj()[i],
            ) by {
                if i != a && i != b {
                    assert(g1.adj()[i] == g0.adj()[i]);
                }
            }
            assert forall|i: int, t: int|
                0 <= i < g1.node_count() && 0 <= t < g1.adj()[i].len() implies #[trigger] g1.adj()[i][t]
                < g1.node_count() && g1.adj()[i][t] != i by {
                if i != a && i != b {
                    assert(g1.adj()[i] == g0.adj()[i]);
                } else {
                    let e = g1.adj()[i][t];
                    assert(g1.adj()[i].contains(e));
                    if i == a {
                        assert(g0.adj()[i].contains(e) || e == b);
                        if g0.adj()[i].contains(e) {
                            let u = choose|u: int|
                                0 <= u < g0.adj()[i].len() && g0.adj()[i][u] == e;
                            assert(g0.adj()[i][u] < g0.node_count());
                        }
                    } else {
                        assert(g0.adj()[i].contains(e) || e == a);
                        if g0.adj()[i].contains(e) {
                            let u = choose|u: int|
                                0 <= u < g0.adj()[i].len() && g0.adj()[i][u] == e;
                            assert(g0.adj()[i][u] < g0.node_count());
                        }
                    }
                }
            }
            assert(g1.node_count() == g0.node_count());
            assert forall|x: int, y: int| #[trigger] g1.edge(x, y) implies g0.edge(x, y) || (x == a
                && y == b) || (x == b && y == a) by {
                let yu = y as usize;
                assert(0 <= x < g1.node_count() && 0 <= y < g1.node_count());
                assert(yu as int == y);
                if x == a {
                    assert(g0.adj()[x].contains(yu) || yu == b);
                } else if x == b {
                    assert(g0.adj()[x].contains(yu) || yu == a);
                } else {
                    assert(g1.adj()[x] == g0.adj()[x]);
                }
            }
            assert forall|x: int, y: int|
                g0.edge(x, y) || (x == a && y == b) || (x == b && y == a) implies g1.edge(
                x,
                y,
            ) by {
                assert(0 <= x < g1.node_count() && 0 <= y < g1.node_count());
                let yu = y as usize;
                assert(yu as int == y);
                if x == a {
                    assert(g1.adj()[x].contains(yu) <==> g0.adj()[x].contains(yu) || yu == b);
                } else if x == b {
                    assert(g1.adj()[x].contains(yu) <==> g0.adj()[x].contains(yu) || yu == a);
                } else {
                    assert(g1.adj()[x] == g0.adj()[x]);
                }
            }
            assert forall|x: int, y: int| #[trigger] g1.edge(x, y) implies g1.edge(y, x) by {
                if g0.edge(x, y) {
                    assert(g0.edge(y, x));
                }
            }
        }
    }

    /// Checks whether the coloring `colors` assigns distinct colors to the two
    /// endpoints of every edge.
    pub fn check(&self, colors: &Vec<usize>) -> (ok: bool)
        requires
            self.wf(),
            colors@.len() == self.node_count(),
        ensures
            ok == valid_coloring(*self, colors@),
    {
        let n = self.nodes.len();
        for i in 0..n
            invariant
                self.wf(),
                n == self.node_count(),
                colors@.len() == n,
                forall|x: int, u: int|
                    0 <= x < i && 0 <= u < self.adj()[x].len() ==> colors@[x] != colors@[(
                    #[trigger] self.adj()[x][u]) as int],
        {
            let deg = self.nodes[i].len();
            for t in 0..deg
                invariant
                    self.wf(),
                    n == self.node_count(),
                    colors@.len() == n,
                    i < n,
                    deg == self.adj()[i as int].len(),
                    forall|x: int, u: int|
                        0 <= x < i && 0 <= u < self.adj()[x].len() ==> colors@[x] != colors@[(
                        #[trigger] self.adj()[x][u]) as int],
                    forall|u: int|
                        0 <= u < t ==> colors@[i as int] != colors@[(
                        #[trigger] self.adj()[i as int][u]) as int],
            {
                let j = self.nodes[i][t];
                if colors[i] == colors[j] {
                    proof {
                        assert(self.adj()[i as int].contains(j));
                        assert(self.edge(i as int, j as int));
                        assert(!valid_coloring(*self, colors@));
                    }
                    return false;
                }
            }
        }
        proof {
            assert forall|x: int, y: int| #[trigger] self.edge(x, y) implies colors@[x]
                != colors@[y] by {
                let u = choose|u: int|
                    0 <= u < self.adj()[x].len() && self.adj()[x][u] == y as usize;
                assert(colors@[x] != colors@[self.adj()[x][u] as int]);
            }
        }
        true
    }
}

/// Symmetry law: in a well-formed graph, `b` is a neighbor of `a` if and only
/// if `a` is a neighbor of `b`.
pub proof fn lemma_edge_symmetric(g: Graph, a: int, b: int)
    requires
        g.wf(),
    ensures
        g.edge(a, b) <==> g.edge(b, a),
{
}

/// Inserts `x` into the sorted, duplicate-free vector `v`, keeping it sorted.
fn insert_sorted(v: &mut Vec<usize>, x: usize)
    requires
        sorted_strict(old(v)@),
        !old(v)@.contains(x),
    ensures
        sorted_strict(final(v)@),
        final(v)@.len() == old(v)@.len() + 1,
        forall|y: usize| final(v)@.contains(y) <==> old(v)@.contains(y) || y == x,
        final(v)@.contains(x),
{
    let ghost s0 = old(v)@;
    let mut idx: usize = 0;
    while idx < v.len() && v[idx] < x
        invariant
            v@ == s0,
            idx <= s0.len(),
            forall|p: int| 0 <= p < idx ==> s0[p] < x,
        decreases s0.len() - idx,
    {
        idx = idx + 1;
    }
    proof {
        // Everything at or after `idx` is larger than `x`.
        assert forall|p: int| idx <= p < s0.len() implies s0[p] > x by {
            if p > idx {
                assert(s0[idx as int] < s0[p]);
            }
            assert(s0[p] != x) by {
                assert(!s0.contains(x));
            }
        }
    }
    v.insert(idx, x);
    proof {
        let s1 = v@;
        s0.insert_ensures(idx as int, x);
        assert(s1 == s0.insert(idx as int, x));
        assert forall|p: int, q: int| 0 <= p < q < s1.len() implies s1[p] < s1[q] by {
            let ip = if p < idx { s0[p] } else if p == idx { x } else { s0[p - 1] };
            assert(s1[p] == ip);
            let iq = if q < idx { s0[q] } else if q == idx { x } else { s0[q - 1] };
            assert(s1[q] == iq);
        }
        assert forall|y: usize| s1.contains(y) <==> s0.contains(y) || y == x by {
            if s0.contains(y) {
                let u = choose|u: int| 0 <= u < s0.len() && s0[u] == y;
                if u < idx {
                    assert(s1[u] == y);
                } else {
                    assert(s1[u + 1] == y);
                }
                assert(s1.contains(y));
            }
            if y == x {
                assert(s1[idx as int] == x);
                assert(s1.contains(y));
            }
            if s1.contains(y) {
                let u = choose|u: int| 0 <= u < s1.len() && s1[u] == y;
                if u < idx {
                    assert(s0[u] == y);
                    assert(s0.contains(y));
                } else if u == idx {
                    assert(y == x);
                } else {
                    assert(s0[u - 1] == y);
                    assert(s0.contains(y));
                }
            }
        }
        assert(s1[idx as int] == x);
        assert(s1.contains(x));
    }
}

} // verus!
