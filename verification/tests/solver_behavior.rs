use graph_color::Graph;
use graph_color::solver::AcceptanceRule;
use graph_color::solver::Descent;

/// The Metropolis rule of simulated annealing with the linear cooling
/// schedule `t = t0 * (1 - istep / nsteps)`.
struct Metropolis {
    t0: f64,
}

impl AcceptanceRule for Metropolis {
    fn accept(
        &self,
        freq_new: usize,
        freq_old: usize,
        istep: usize,
        nsteps: usize,
        draw: u64,
    ) -> bool {
        let delta = freq_new as f64 - freq_old as f64;
        let t = self.t0 * (1.0 - istep as f64 / nsteps as f64);
        let unit = (draw >> 11) as f64 / 9007199254740992.0;
        unit < (-delta / t).exp()
    }
}

fn cycle4() -> Graph {
    let mut g = Graph::new(4);
    g.add_edge(0, 1);
    g.add_edge(1, 2);
    g.add_edge(2, 3);
    g.add_edge(3, 0);
    g
}

fn complete(m: usize) -> Graph {
    let mut g = Graph::new(m);
    for a in 0..m {
        for b in (a + 1)..m {
            g.add_edge(a, b);
        }
    }
    g
}

#[test]
fn four_cycle_with_two_colors_alternates() {
    let g = cycle4();
    let colors = g.solve(2, &Metropolis { t0: 4.0 }, 1000).expect("a 2-coloring exists");
    assert!(g.check(&colors));
    assert_eq!(colors.len(), 4);
    assert!(colors.iter().all(|&c| c < 2));
    assert_eq!(colors[0], colors[2]);
    assert_eq!(colors[1], colors[3]);
    assert_ne!(colors[0], colors[1]);
}

#[test]
fn solver_success_passes_validator() {
    let g = complete(3);
    match g.solve(3, &Metropolis { t0: 2.0 }, 500) {
        Some(colors) => {
            assert!(g.check(&colors));
            assert!(colors.iter().all(|&c| c < 3));
        }
        None => panic!("three colors suffice for three mutually adjacent nodes"),
    }
}

#[test]
fn edgeless_graph_succeeds_immediately() {
    let g = Graph::new(6);
    let (outcome, steps) = g.solve_seeded(1, &Descent, 1, 7);
    let colors = outcome.expect("no conflict is possible");
    assert_eq!(steps, 0);
    assert_eq!(colors, vec![0, 0, 0, 0, 0, 0]);
}

#[test]
fn zero_budget_always_fails() {
    let g = Graph::new(3);
    assert!(g.solve(1, &Descent, 0).is_none());
}

#[test]
fn complete_graph_with_too_few_colors_fails() {
    let g = complete(4);
    assert!(g.solve(3, &Metropolis { t0: 4.0 }, 200).is_none());
}

#[test]
fn failure_comes_only_after_the_whole_budget() {
    let g = complete(3);
    let (outcome, steps) = g.solve_seeded(1, &Descent, 50, 42);
    assert!(outcome.is_none());
    assert_eq!(steps, 50);
}

#[test]
fn same_seed_same_outcome() {
    let g = cycle4();
    let first = g.solve_seeded(2, &Descent, 100, 12345);
    let second = g.solve_seeded(2, &Descent, 100, 12345);
    assert_eq!(first, second);
}
