//! The annealing solver: conflict bookkeeping, the search loop, and the laws
//! that tie it to the validator.

use crate::graph::Graph;
use crate::random::Sampler;
use crate::graph::sorted_strict;
use crate::graph::valid_coloring;
use vstd::prelude::*;
use vstd::set_lib::lemma_int_range;
use vstd::set_lib::lemma_len_subset;
use vstd::set_lib::set_int_range;

verus! {

/// Every entry of `cs` is a color index below `k`.
pub open spec fn all_below(cs: Seq<usize>, k: int) -> bool {
    forall|i: int| 0 <= i < cs.len() ==> cs[i] < k
}

/// How many entries of the neighbor list `ns` hold color `c` under the
/// coloring `cs`.
pub open spec fn count_color(ns: Seq<usize>, cs: Seq<usize>, c: usize) -> int
    decreases ns.len(),
{
    if ns.len() == 0 {
        0
    } else {
        count_color(ns.drop_last(), cs, c) + if cs[ns.last() as int] == c {
            1int
        } else {
            0int
        }
    }
}

/// Node `v` shares its color with at least one of its neighbors.
pub open spec fn conflicted(g: Graph, cs: Seq<usize>, v: int) -> bool {
    exists|b: int| g.edge(v, b) && cs[v] == cs[b]
}

/// The conflict-frequency table `fr` is consistent with the coloring `cs`:
/// one row of `k` counters per node, where row `i`, column `c` counts the
/// neighbors of `i` that hold color `c`.
pub open spec fn freqs_ok(g: Graph, cs: Seq<usize>, k: int, fr: Seq<Vec<usize>>) -> bool {
    &&& fr.len() == g.node_count()
    &&& forall|i: int| 0 <= i < fr.len() ==> (#[trigger] fr[i])@.len() == k
    &&& forall|i: int, c: int|
        0 <= i < fr.len() && 0 <= c < k ==> #[trigger] fr[i]@[c] == count_color(
            g.adj()[i],
            cs,
            c as usize,
        )
}

proof fn lemma_count_color_bounds(ns: Seq<usize>, cs: Seq<usize>, c: usize)
    ensures
        0 <= count_color(ns, cs, c) <= ns.len(),
    decreases ns.len(),
{
    if ns.len() > 0 {
        lemma_count_color_bounds(ns.drop_last(), cs, c);
    }
}

proof fn lemma_count_color_take_step(ns: Seq<usize>, cs: Seq<usize>, c: usize, t: int)
    requires
        0 <= t < ns.len(),
    ensures
        count_color(ns.take(t + 1), cs, c) == count_color(ns.take(t), cs, c) + if cs[ns[t] as int]
            == c {
            1int
        } else {
            0int
        },
{
    assert(ns.take(t + 1).drop_last() =~= ns.take(t));
    assert(ns.take(t + 1).last() == ns[t]);
}

proof fn lemma_count_color_pos(ns: Seq<usize>, cs: Seq<usize>, c: usize)
    ensures
        count_color(ns, cs, c) > 0 <==> exists|t: int| 0 <= t < ns.len() && cs[ns[t] as int] == c,
    decreases ns.len(),
{
    if ns.len() > 0 {
        let pre = ns.drop_last();
        lemma_count_color_pos(pre, cs, c);
        lemma_count_color_bounds(pre, cs, c);
        if cs[ns.last() as int] == c {
            assert(cs[ns[ns.len() - 1] as int] == c);
        } else {
            if count_color(ns, cs, c) > 0 {
                let t = choose|t: int| 0 <= t < pre.len() && cs[pre[t] as int] == c;
                assert(ns[t] == pre[t]);
            }
            if exists|t: int| 0 <= t < ns.len() && cs[ns[t] as int] == c {
                let t = choose|t: int| 0 <= t < ns.len() && cs[ns[t] as int] == c;
                assert(t != ns.len() - 1);
                assert(pre[t] == ns[t]);
            }
        }
    }
}

proof fn lemma_count_color_update_absent(
    ns: Seq<usize>,
    cs: Seq<usize>,
    v: usize,
    nc: usize,
    c: usize,
)
    requires
        !ns.contains(v),
        forall|t: int| 0 <= t < ns.len() ==> #[trigger] ns[t] < cs.len(),
        v < cs.len(),
    ensures
        count_color(ns, cs.update(v as int, nc), c) == count_color(ns, cs, c),
    decreases ns.len(),
{
    if ns.len() > 0 {
        let pre = ns.drop_last();
        assert(!pre.contains(v)) by {
            if pre.contains(v) {
                let t = choose|t: int| 0 <= t < pre.len() && pre[t] == v;
                assert(ns[t] == v);
            }
        }
        lemma_count_color_update_absent(pre, cs, v, nc, c);
        assert(ns.last() != v) by {
            if ns.last() == v {
                assert(ns[ns.len() - 1] == v);
            }
        }
        assert(cs.update(v as int, nc)[ns.last() as int] == cs[ns.last() as int]);
    }
}

proof fn lemma_count_color_update_present(
    ns: Seq<usize>,
    cs: Seq<usize>,
    v: usize,
    nc: usize,
    c: usize,
)
    requires
        sorted_strict(ns),
        ns.contains(v),
        forall|t: int| 0 <= t < ns.len() ==> #[trigger] ns[t] < cs.len(),
    ensures
        count_color(ns, cs.update(v as int, nc), c) == count_color(ns, cs, c) - (if cs[v as int]
            == c {
            1int
        } else {
            0int
        }) + (if nc == c {
            1int
        } else {
            0int
        }),
    decreases ns.len(),
{
    let pre = ns.drop_last();
    assert(ns.len() > 0);
    assert(v < cs.len()) by {
        let t = choose|t: int| 0 <= t < ns.len() && ns[t] == v;
        assert(ns[t] < cs.len());
    }
    if ns.last() == v {
        assert(!pre.contains(v)) by {
            if pre.contains(v) {
                let t = choose|t: int| 0 <= t < pre.len() && pre[t] == v;
                assert(ns[t] == v && ns[ns.len() - 1] == v);
                assert(ns[t] < ns[ns.len() - 1]);
            }
        }
        lemma_count_color_update_absent(pre, cs, v, nc, c);
        assert(cs.update(v as int, nc)[ns.last() as int] == nc);
    } else {
        assert(pre.contains(v)) by {
            let t = choose|t: int| 0 <= t < ns.len() && ns[t] == v;
            assert(t != ns.len() - 1);
            assert(pre[t] == ns[t]);
        }
        assert(sorted_strict(pre)) by {
            assert(forall|p: int, q: int|
                0 <= p < q < pre.len() ==> pre[p] == ns[p] && pre[q] == ns[q]);
        }
        lemma_count_color_update_present(pre, cs, v, nc, c);
        assert(ns.last() != v);
        assert(cs.update(v as int, nc)[ns.last() as int] == cs[ns.last() as int]);
    }
}

proof fn lemma_conflicted_iff_freq_pos(g: Graph, cs: Seq<usize>, v: int)
    requires
        g.wf(),
        cs.len() == g.node_count(),
        0 <= v < g.node_count(),
    ensures
        conflicted(g, cs, v) <==> count_color(g.adj()[v], cs, cs[v] as usize) > 0,
{
    let ns = g.adj()[v];
    let c = cs[v] as usize;
    lemma_count_color_pos(ns, cs, c);
    if conflicted(g, cs, v) {
        let b = choose|b: int| g.edge(v, b) && cs[v] == cs[b];
        assert(g.edge(v, b));
        assert(0 <= b < g.node_count());
        assert(ns.contains(b as usize));
        let t = choose|t: int| 0 <= t < ns.len() && ns[t] == b as usize;
        assert(ns[t] as int == b);
        assert(cs[ns[t] as int] == c);
    }
    if count_color(ns, cs, c) > 0 {
        let t = choose|t: int| 0 <= t < ns.len() && cs[ns[t] as int] == c;
        let b = ns[t];
        assert(ns.contains(b));
        assert(g.edge(v, b as int) && cs[v] == cs[b as int]);
    }
}

/// The solver's success condition is exactly the validator's: no node is
/// conflicted if and only if the coloring assigns adjacent nodes distinct
/// colors.
pub proof fn lemma_conflict_free_iff_valid(g: Graph, cs: Seq<usize>)
    requires
        g.wf(),
        cs.len() == g.node_count(),
    ensures
        (forall|v: int| 0 <= v < g.node_count() ==> !conflicted(g, cs, v)) <==> valid_coloring(
            g,
            cs,
        ),
{
    if forall|v: int| 0 <= v < g.node_count() ==> !conflicted(g, cs, v) {
        assert forall|a: int, b: int| #[trigger] g.edge(a, b) implies cs[a] != cs[b] by {
            assert(!conflicted(g, cs, a));
            if cs[a] == cs[b] {
                assert(g.edge(a, b) && cs[a] == cs[b]);
                assert(conflicted(g, cs, a));
            }
        }
    }
    if valid_coloring(g, cs) {
        assert forall|v: int| 0 <= v < g.node_count() implies !conflicted(g, cs, v) by {
            if conflicted(g, cs, v) {
                let b = choose|b: int| g.edge(v, b) && cs[v] == cs[b];
                assert(cs[v] != cs[b]);
            }
        }
    }
}

/// Pigeonhole: more entries than admissible values forces a repeated value.
proof fn lemma_pigeonhole(cs: Seq<usize>, k: int)
    requires
        0 <= k < cs.len(),
        all_below(cs, k),
    ensures
        exists|a: int, b: int| 0 <= a < cs.len() && 0 <= b < cs.len() && a != b && cs[a] == cs[b],
{
    broadcast use vstd::seq_lib::group_seq_properties;
    if cs.no_duplicates() {
        let csi = cs.map_values(|x: usize| x as int);
        assert(csi.no_duplicates()) by {
            assert forall|p: int, q: int|
                0 <= p < csi.len() && 0 <= q < csi.len() && p != q implies csi[p] != csi[q] by {
                assert(cs[p] != cs[q]);
            }
        }
        csi.unique_seq_to_set();
        lemma_int_range(0, k);
        assert(csi.to_set().subset_of(set_int_range(0, k))) by {
            assert forall|x: int| csi.to_set().contains(x) implies set_int_range(0, k).contains(
                x,
            ) by {
                let i = choose|i: int| 0 <= i < csi.len() && csi[i] == x;
                assert(cs[i] < k);
            }
        }
        lemma_len_subset(csi.to_set(), set_int_range(0, k));
        assert(false);
    }
    assert(!cs.no_duplicates());
}

/// Infeasibility law: on a complete graph, a coloring that uses fewer colors
/// than there are nodes always leaves some edge with equal endpoints, so no
/// such coloring is valid.
pub proof fn lemma_complete_graph_infeasible(g: Graph, cs: Seq<usize>, k: int)
    requires
        g.wf(),
        cs.len() == g.node_count(),
        forall|a: int, b: int|
            0 <= a < g.node_count() && 0 <= b < g.node_count() && a != b ==> g.edge(a, b),
        all_below(cs, k),
        0 <= k < g.node_count(),
    ensures
        !valid_coloring(g, cs),
{
    lemma_pigeonhole(cs, k);
    let (a, b) = choose|a: int, b: int|
        0 <= a < cs.len() && 0 <= b < cs.len() && a != b && cs[a] == cs[b];
    assert(g.edge(a, b));
}

proof fn lemma_sorted_strict_lower(s: Seq<usize>, i: int)
    requires
        sorted_strict(s),
        0 <= i < s.len(),
    ensures
        s[i] >= i,
    decreases i,
{
    if i > 0 {
        lemma_sorted_strict_lower(s, i - 1);
        assert(s[i - 1] < s[i]);
    }
}

proof fn lemma_degree_bound(g: Graph, v: int)
    requires
        g.wf(),
        0 <= v < g.node_count(),
    ensures
        g.adj()[v].len() <= g.node_count(),
{
    let s = g.adj()[v];
    if s.len() > 0 {
        lemma_sorted_strict_lower(s, s.len() - 1);
        assert(s[s.len() - 1] < g.node_count());
    }
}

/// Decides whether a proposed recoloring is applied.
///
/// `freq_new` and `freq_old` count the neighbors of the node under
/// consideration that hold the proposed and the current color, so their
/// difference is the change in conflicting edges at that node if the move is
/// made; `istep` of `nsteps` locates the move in the cooling schedule, and
/// `draw` is a uniform 64-bit draw for randomized rules. Nothing is assumed
/// of the answer: the solver is correct whatever an implementation returns.
pub trait AcceptanceRule {
    fn accept(
        &self,
        freq_new: usize,
        freq_old: usize,
        istep: usize,
        nsteps: usize,
        draw: u64,
    ) -> bool;
}

/// The zero-temperature rule: accept exactly the moves that do not increase
/// the number of conflicting edges at the recolored node.
pub struct Descent;

impl AcceptanceRule for Descent {
    fn accept(
        &self,
        freq_new: usize,
        freq_old: usize,
        _istep: usize,
        _nsteps: usize,
        _draw: u64,
    ) -> bool {
        freq_new <= freq_old
    }
}

/// `j` occurs among the first `t` entries of `row`.
spec fn in_prefix(row: Seq<usize>, t: int, j: int) -> bool {
    exists|s: int| 0 <= s < t && row[s] == j
}

/// What a finished search reports: a returned coloring is complete, within
/// the palette and valid, and was found after `steps` full outer iterations
/// with `steps < nsteps`; failure is reported only once all `nsteps` outer
/// iterations ran; a graph without edges succeeds at once whenever the
/// budget allows any iteration at all.
pub open spec fn solve_outcome_ok(
    g: Graph,
    k: int,
    nsteps: int,
    outcome: Option<Vec<usize>>,
    steps: int,
) -> bool {
    &&& match outcome {
        Some(cs) => {
            &&& cs@.len() == g.node_count()
            &&& all_below(cs@, k)
            &&& valid_coloring(g, cs@)
            &&& 0 <= steps < nsteps
        },
        None => steps == nsteps,
    }
    &&& (g.edgeless() && nsteps >= 1) ==> (outcome is Some && steps == 0)
    &&& nsteps == 0 ==> outcome is None
}

/// Round trip between solver and validator: any outcome the solver reports
/// as a success is a coloring that the validator accepts.
pub proof fn lemma_solve_success_checks(
    g: Graph,
    k: int,
    nsteps: int,
    cs: Vec<usize>,
    steps: int,
)
    requires
        solve_outcome_ok(g, k, nsteps, Some(cs), steps),
    ensures
        cs@.len() == g.node_count(),
        valid_coloring(g, cs@),
{
}

/// On a complete graph with fewer colors than nodes, every attempt of the
/// solver fails, and only after the whole step budget ran.
pub proof fn lemma_solve_complete_graph_fails(
    g: Graph,
    k: int,
    nsteps: int,
    outcome: Option<Vec<usize>>,
    steps: int,
)
    requires
        g.wf(),
        forall|a: int, b: int|
            0 <= a < g.node_count() && 0 <= b < g.node_count() && a != b ==> g.edge(a, b),
        0 <= k < g.node_count(),
        solve_outcome_ok(g, k, nsteps, outcome, steps),
    ensures
        outcome is None,
        steps == nsteps,
{
    match outcome {
        Some(cs) => {
            lemma_complete_graph_infeasible(g, cs@, k);
        },
        None => {
        },
    }
}

impl Graph {
    /// Collects the conflicted nodes under the current coloring, reading only
    /// the frequency table.
    #[verifier::loop_isolation(false)]
    fn conflicted_nodes(&self, k: usize, colors: &Vec<usize>, freqs: &Vec<Vec<usize>>) -> (cf: Vec<
        usize,
    >)
        requires
            self.wf(),
            k >= 1,
            colors@.len() == self.node_count(),
            all_below(colors@, k as int),
            freqs_ok(*self, colors@, k as int, freqs@),
        ensures
            cf@.len() <= self.node_count(),
            forall|t: int| 0 <= t < cf@.len() ==> #[trigger] cf@[t] < self.node_count(),
            cf@.len() == 0 ==> valid_coloring(*self, colors@),
            cf@.len() > 0 ==> !self.edgeless(),
    {
        let n = self.num_nodes();
        let mut cf: Vec<usize> = Vec::new();
        let mut v: usize = 0;
        while v < n
            invariant
                v <= n,
                cf@.len() <= v,
                forall|t: int|
                    0 <= t < cf@.len() ==> #[trigger] cf@[t] < n && conflicted(
                        *self,
                        colors@,
                        cf@[t] as int,
                    ),
                cf@.len() == 0 ==> forall|u: int| 0 <= u < v ==> !conflicted(*self, colors@, u),
            decreases n - v,
        {
            let cv = colors[v];
            let fv = freqs[v][cv];
            proof {
                lemma_conflicted_iff_freq_pos(*self, colors@, v as int);
            }
            if fv > 0 {
                cf.push(v);
            }
            v = v + 1;
        }
        proof {
            if cf@.len() == 0 {
                lemma_conflict_free_iff_valid(*self, colors@);
            } else {
                assert(conflicted(*self, colors@, cf@[0] as int));
                let w = cf@[0] as int;
                let b = choose|b: int| self.edge(w, b) && colors@[w] == colors@[b];
                assert(self.adj()[w].contains(b as usize));
                assert(self.adj()[w].len() > 0);
            }
        }
        cf
    }

    /// Applies an accepted move: recolors node `v` and restores the
    /// frequency-table invariant by adjusting exactly the rows of the
    /// neighbors of `v`.
    #[verifier::loop_isolation(false)]
    fn recolor(
        &self,
        k: usize,
        colors: &mut Vec<usize>,
        freqs: &mut Vec<Vec<usize>>,
        v: usize,
        new_color: usize,
    )
        requires
            self.wf(),
            k >= 1,
            4 * k * self.node_count() <= usize::MAX,
            old(colors)@.len() == self.node_count(),
            all_below(old(colors)@, k as int),
            freqs_ok(*self, old(colors)@, k as int, old(freqs)@),
            v < self.node_count(),
            new_color < k,
        ensures
            final(colors)@ == old(colors)@.update(v as int, new_color as usize),
            all_below(final(colors)@, k as int),
            freqs_ok(*self, final(colors)@, k as int, final(freqs)@),
    {
        proof {
            assert(4 * k * self.node_count() > self.node_count()) by (nonlinear_arith)
                requires
                    k >= 1,
                    self.node_count() >= 1,
            ;
        }
        let ghost cs0 = colors@;
        let old_color = colors[v];
        colors.set(v, new_color);
        let ghost cs1 = colors@;
        let row = self.neighbors(v);
        let deg = row.len();
        let ghost n = self.node_count();
        let mut t: usize = 0;
        while t < deg
            invariant
                t <= deg,
                colors@ == cs1,
                freqs@.len() == n,
                forall|i: int| 0 <= i < freqs@.len() ==> (#[trigger] freqs@[i])@.len() == k,
                forall|j: int, c: int|
                    0 <= j < freqs@.len() && 0 <= c < k && in_prefix(row@, t as int, j)
                        ==> #[trigger] freqs@[j]@[c] == count_color(
                        self.adj()[j],
                        cs1,
                        c as usize,
                    ),
                forall|j: int, c: int|
                    0 <= j < freqs@.len() && 0 <= c < k && !in_prefix(row@, t as int, j)
                        ==> #[trigger] freqs@[j]@[c] == count_color(
                        self.adj()[j],
                        cs0,
                        c as usize,
                    ),
            decreases deg - t,
        {
            let j = row[t];
            proof {
                assert(self.adj()[v as int][t as int] == j);
                assert(j < n && j != v);
                assert(!in_prefix(row@, t as int, j as int)) by {
                    if in_prefix(row@, t as int, j as int) {
                        let s = choose|s: int| 0 <= s < t && row@[s] == j as int;
                        assert(row@[s] < row@[t as int]);
                    }
                }
                // v is a neighbor of j, by symmetry.
                assert(self.adj()[v as int].contains(j));
                assert(self.edge(v as int, j as int));
                assert(self.edge(j as int, v as int));
                assert(self.adj()[j as int].contains(v));
                lemma_degree_bound(*self, j as int);
                lemma_count_color_bounds(self.adj()[j as int], cs0, new_color);
                lemma_count_color_bounds(self.adj()[j as int], cs0, old_color);
            }
            let f_new = freqs[j][new_color];
            freqs[j][new_color] = f_new + 1;
            let f_old = freqs[j][old_color];
            proof {
                if new_color != old_color {
                    lemma_count_color_pos(self.adj()[j as int], cs0, old_color);
                    assert(self.adj()[j as int].contains(v));
                    let s = choose|s: int|
                        0 <= s < self.adj()[j as int].len() && self.adj()[j as int][s] == v;
                    assert(cs0[self.adj()[j as int][s] as int] == old_color);
                }
            }
            freqs[j][old_color] = f_old - 1;
            proof {
                let ghost fr = freqs@;
                assert forall|jj: int, c: int|
                    0 <= jj < fr.len() && 0 <= c < k && in_prefix(row@, t + 1, jj)
                        implies #[trigger] fr[jj]@[c] == count_color(
                    self.adj()[jj],
                    cs1,
                    c as usize,
                ) by {
                    if jj == j as int {
                        lemma_count_color_update_present(
                            self.adj()[jj],
                            cs0,
                            v,
                            new_color,
                            c as usize,
                        );
                        assert(cs1 == cs0.update(v as int, new_color));
                        assert(cs0[v as int] == old_color);
                    } else {
                        assert(in_prefix(row@, t as int, jj)) by {
                            let s = choose|s: int| 0 <= s < t + 1 && row@[s] == jj;
                            assert(s != t as int);
                        }
                    }
                }
                assert forall|jj: int, c: int|
                    0 <= jj < fr.len() && 0 <= c < k && !in_prefix(row@, t + 1, jj)
                        implies #[trigger] fr[jj]@[c] == count_color(
                    self.adj()[jj],
                    cs0,
                    c as usize,
                ) by {
                    assert(!in_prefix(row@, t as int, jj));
                    assert(jj != j as int);
                }
            }
            t = t + 1;
        }
        proof {
            assert forall|jj: int, c: int|
                0 <= jj < freqs@.len() && 0 <= c < k implies #[trigger] freqs@[jj]@[c]
                == count_color(self.adj()[jj], cs1, c as usize) by {
                if !in_prefix(row@, deg as int, jj) {
                    // jj is no neighbor of v, so v is no neighbor of jj and the
                    // counts of row jj are unchanged by the recoloring.
                    assert(!self.adj()[jj as int].contains(v)) by {
                        if self.adj()[jj].contains(v) {
                            assert(self.edge(jj, v as int));
                            assert(self.edge(v as int, jj));
                            assert(self.adj()[v as int].contains(jj as usize));
                            let s = choose|s: int|
                                0 <= s < self.adj()[v as int].len() && self.adj()[v as int][s]
                                    == jj as usize;
                            assert(row@[s] == jj);
                        }
                    }
                    lemma_count_color_update_absent(self.adj()[jj], cs0, v, new_color, c as usize);
                }
            }
        }
    }

    /// One full annealing attempt, drawing from `sampler`; returns the
    /// outcome and the number of completed outer iterations.
    #[verifier::loop_isolation(false)]
    fn solve_core<R: AcceptanceRule>(
        &self,
        k: usize,
        rule: &R,
        nsteps: usize,
        sampler: &mut Sampler,
    ) -> (r: (Option<Vec<usize>>, usize))
        requires
            self.wf(),
            k >= 1,
            4 * k * self.node_count() <= usize::MAX,
        ensures
            solve_outcome_ok(*self, k as int, nsteps as int, r.0, r.1 as int),
    {
        let n = self.num_nodes();
        // Independently uniform initial colors.
        let mut colors: Vec<usize> = Vec::new();
        while colors.len() < n
            invariant
                colors@.len() <= n,
                all_below(colors@, k as int),
            decreases n - colors@.len(),
        {
            let c = sampler.below(k);
            colors.push(c);
        }
        // The conflict-frequency table, built from the initial assignment.
        let mut freqs: Vec<Vec<usize>> = Vec::new();
        while freqs.len() < n
            invariant
                freqs@.len() <= n,
                forall|i: int| 0 <= i < freqs@.len() ==> (#[trigger] freqs@[i])@.len() == k,
                forall|i: int, c: int|
                    0 <= i < freqs@.len() && 0 <= c < k ==> #[trigger] freqs@[i]@[c] == 0,
            decreases n - freqs@.len(),
        {
            let mut zeros: Vec<usize> = Vec::new();
            while zeros.len() < k
                invariant
                    zeros@.len() <= k,
                    forall|c: int| 0 <= c < zeros@.len() ==> #[trigger] zeros@[c] == 0,
                decreases k - zeros@.len(),
            {
                zeros.push(0);
            }
            freqs.push(zeros);
        }
        proof {
            assert forall|i: int, c: int| 0 <= i < n && 0 <= c < k implies #[trigger] freqs@[i]@[c]
                == count_color(self.adj()[i].take(0), colors@, c as usize) by {
                assert(self.adj()[i].take(0) =~= Seq::<usize>::empty());
            }
        }
        let mut i: usize = 0;
        while i < n
            invariant
                i <= n,
                freqs@.len() == n,
                forall|x: int| 0 <= x < n ==> (#[trigger] freqs@[x])@.len() == k,
                forall|x: int, c: int|
                    0 <= x < i && 0 <= c < k ==> #[trigger] freqs@[x]@[c] == count_color(
                        self.adj()[x],
                        colors@,
                        c as usize,
                    ),
                forall|x: int, c: int|
                    i <= x < n && 0 <= c < k ==> #[trigger] freqs@[x]@[c] == count_color(
                        self.adj()[x].take(0),
                        colors@,
                        c as usize,
                    ),
            decreases n - i,
        {
            let row = self.neighbors(i);
            let deg = row.len();
            let mut t: usize = 0;
            while t < deg
                invariant
                    t <= deg,
                    freqs@.len() == n,
                    forall|x: int| 0 <= x < n ==> (#[trigger] freqs@[x])@.len() == k,
                    forall|x: int, c: int|
                        0 <= x < i && 0 <= c < k ==> #[trigger] freqs@[x]@[c] == count_color(
                            self.adj()[x],
                            colors@,
                            c as usize,
                        ),
                    forall|c: int|
                        0 <= c < k ==> #[trigger] freqs@[i as int]@[c] == count_color(
                            self.adj()[i as int].take(t as int),
                            colors@,
                            c as usize,
                        ),
                    forall|x: int, c: int|
                        i < x < n && 0 <= c < k ==> #[trigger] freqs@[x]@[c] == count_color(
                            self.adj()[x].take(0),
                            colors@,
                            c as usize,
                        ),
                decreases deg - t,
            {
                let j = row[t];
                proof {
                    assert(self.adj()[i as int][t as int] == j);
                    assert(j < n);
                    lemma_count_color_bounds(self.adj()[i as int].take(t as int), colors@, colors@[j as int]);
                }
                let cj = colors[j];
                let x = freqs[i][cj];
                freqs[i][cj] = x + 1;
                proof {
                    assert forall|c: int|
                        0 <= c < k implies #[trigger] freqs@[i as int]@[c] == count_color(
                        self.adj()[i as int].take(t + 1),
                        colors@,
                        c as usize,
                    ) by {
                        lemma_count_color_take_step(self.adj()[i as int], colors@, c as usize, t as int);
                    }
                }
                t = t + 1;
            }
            proof {
                assert(self.adj()[i as int].take(deg as int) =~= self.adj()[i as int]);
            }
            i = i + 1;
        }
        assert(freqs_ok(*self, colors@, k as int, freqs@));
        // The outer annealing loop.
        let mut istep: usize = 0;
        while istep < nsteps
            invariant
                istep <= nsteps,
                colors@.len() == n,
                all_below(colors@, k as int),
                freqs_ok(*self, colors@, k as int, freqs@),
                self.edgeless() ==> istep == 0,
            decreases nsteps - istep,
        {
            let conflicts = self.conflicted_nodes(k, &colors, &freqs);
            let cl = conflicts.len();
            if cl == 0 {
                return (Some(colors), istep);
            }
            let attempts = {
                proof {
                    assert(4 * k <= usize::MAX && 4 * (k as int) * (cl as int) <= usize::MAX)
                        by (nonlinear_arith)
                        requires
                            1 <= cl,
                            cl <= self.node_count(),
                            1 <= k,
                            4 * (k as int) * (self.node_count() as int) <= usize::MAX,
                    ;
                }
                4 * k * cl
            };
            let mut a: usize = 0;
            while a < attempts
                invariant
                    colors@.len() == n,
                    all_below(colors@, k as int),
                    freqs_ok(*self, colors@, k as int, freqs@),
                decreases attempts - a,
            {
                let iv = sampler.below(cl);
                let v = conflicts[iv];
                let old_color = colors[v];
                let new_color = sampler.below(k);
                let f_new = freqs[v][new_color];
                let f_old = freqs[v][old_color];
                let draw = sampler.next_bits();
                if rule.accept(f_new, f_old, istep, nsteps, draw) {
                    self.recolor(k, &mut colors, &mut freqs, v, new_color);
                }
                a = a + 1;
            }
            istep = istep + 1;
        }
        (None, nsteps)
    }

    /// Attempts to color the graph with `k` colors by simulated annealing:
    /// random initial colors, then up to `nsteps` rounds of randomized
    /// recoloring of conflicted nodes, each move submitted to `rule`. Upon
    /// success, returns a complete coloring in which adjacent nodes hold
    /// distinct colors; a failure only reports that this attempt's budget was
    /// exhausted.
    pub fn solve<R: AcceptanceRule>(&self, k: usize, rule: &R, nsteps: usize) -> (r: Option<
        Vec<usize>,
    >)
        requires
            self.wf(),
            k >= 1,
            4 * k * self.node_count() <= usize::MAX,
        ensures
            r matches Some(cs) ==> cs@.len() == self.node_count() && all_below(cs@, k as int)
                && valid_coloring(*self, cs@),
            self.edgeless() && nsteps >= 1 ==> r is Some,
            nsteps == 0 ==> r is None,
    {
        let mut sampler = Sampler::from_entropy();
        let (outcome, _steps) = self.solve_core(k, rule, nsteps, &mut sampler);
        outcome
    }

    /// Like [`Graph::solve`], but with all random draws derived from `seed`,
    /// for reproducible runs, and reporting the number of completed outer
    /// iterations: a search that fails does so only after running all
    /// `nsteps` outer iterations, never earlier.
    pub fn solve_seeded<R: AcceptanceRule>(
        &self,
        k: usize,
        rule: &R,
        nsteps: usize,
        seed: u64,
    ) -> (r: (Option<Vec<usize>>, usize))
        requires
            self.wf(),
            k >= 1,
            4 * k * self.node_count() <= usize::MAX,
        ensures
            solve_outcome_ok(*self, k as int, nsteps as int, r.0, r.1 as int),
    {
        let mut sampler = Sampler::from_seed(seed);
        self.solve_core(k, rule, nsteps, &mut sampler)
    }
}

} // verus!
