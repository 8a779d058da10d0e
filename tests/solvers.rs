use nurikabe::nurikabe::{load_nurikabe, Nurikabe};
use nurikabe::solvers::aco::{AntSolver, SCALE};
use nurikabe::solvers::naive::NaiveSolver;
use nurikabe::solvers::random::Rng;
use nurikabe::solvers::random_ant::RandomAntSolver;
use nurikabe::solvers::state::State;
use nurikabe::solvers::{
    for_none_of_neibhbours, for_valid_diagonal_neighbours, for_valid_neighbours, Solver, Step,
};

const SCENARIO_C: [i32; 25] = [
    1, 0, 0, 0, 3, 0, 0, 0, 0, 0, 0, 0, 0, 0, 3, 0, 0, 3, 0, 0, 0, 0, 0, 0, 0,
];

fn scenario_c() -> Nurikabe {
    Nurikabe::new(5, 5, SCENARIO_C.to_vec())
}

fn colony(ants: usize, nurikabe: Nurikabe, seed: u64) -> AntSolver {
    let mut solver = AntSolver::new(
        ants,
        SCALE / 10,
        SCALE / 10,
        SCALE / 2,
        SCALE / 2,
        SCALE / 100,
        nurikabe,
    );
    solver.set_seed(seed);
    solver
}

fn known_cells(data: &[i32]) -> usize {
    data.iter().filter(|&&v| v != -3).count()
}

#[test]
fn parse_two_rows() {
    let n = load_nurikabe("1,0,0\n0,0,3").unwrap();
    assert_eq!(n.width, 3);
    assert_eq!(n.height, 2);
    assert_eq!(n.data, vec![1, -3, -3, -3, -3, 3]);
}

#[test]
fn parse_negative_and_spaces() {
    let n = load_nurikabe(" 2 , -4\r\n+0,5\n").unwrap();
    assert_eq!(n.width, 2);
    assert_eq!(n.height, 2);
    assert_eq!(n.data, vec![2, -3, -3, 5]);
}

#[test]
fn parse_empty_text() {
    let n = load_nurikabe("").unwrap();
    assert_eq!(n.width, 0);
    assert_eq!(n.height, 0);
    assert!(n.data.is_empty());
}

#[test]
fn parse_rejects_non_integer() {
    assert!(load_nurikabe("1,x,0\n0,0,3").is_err());
    assert!(load_nurikabe("1,,0").is_err());
    assert!(load_nurikabe("99999999999,0").is_err());
}

#[test]
fn parse_rejects_ragged_rows() {
    assert!(load_nurikabe("1,0,0\n0,3").is_err());
}

#[test]
fn state_new_and_codes() {
    assert_eq!(State::new(0), State::Unknown);
    assert_eq!(State::new(-7), State::Unknown);
    assert_eq!(State::new(4), State::Island(4));
    assert_eq!(i32::from(State::Unknown), -3);
    assert_eq!(i32::from(State::White), -2);
    assert_eq!(i32::from(State::Black), -1);
    assert_eq!(i32::from(State::Island(6)), 6);
}

#[test]
fn neighbours_in_order() {
    assert_eq!(for_valid_neighbours(3, 3, 1, 1), vec![(2, 1), (1, 2), (0, 1), (1, 0)]);
    assert_eq!(for_valid_neighbours(3, 3, 0, 0), vec![(1, 0), (0, 1)]);
    assert_eq!(for_valid_neighbours(3, 2, 1, 2), vec![(0, 2), (1, 1)]);
    assert_eq!(
        for_valid_diagonal_neighbours(3, 3, 1, 1),
        vec![(2, 2), (0, 2), (0, 0), (2, 0)]
    );
    assert_eq!(for_valid_diagonal_neighbours(3, 3, 0, 0), vec![(1, 1)]);
}

#[test]
fn any_neighbour_predicate() {
    assert!(for_none_of_neibhbours(3, 3, 1, 1, |a, b| a == 0 && b == 1));
    assert!(!for_none_of_neibhbours(3, 3, 1, 1, |a, b| a == 2 && b == 2));
    assert!(!for_none_of_neibhbours(1, 1, 0, 0, |_, _| true));
}

#[test]
fn naive_trivial_grid_is_solved() {
    let mut solver = NaiveSolver::new(Nurikabe::new(1, 1, vec![1]));
    assert_eq!(solver.solve(), Step::SolutionFound);
    let state = solver.get_state();
    assert_eq!(state.data, vec![1]);
    assert!(state.solved);
    assert_eq!(solver.get_iteration(), 1);
}

#[test]
fn naive_all_sea_block_is_a_contradiction() {
    let mut solver = NaiveSolver::new(Nurikabe::new(2, 2, vec![0, 0, 0, 0]));
    assert_eq!(solver.solve(), Step::Proceed);
    assert_eq!(solver.get_state().data, vec![-1, -1, -1, -1]);
    assert_eq!(solver.solve(), Step::Contradiction);
    // Contradiction is terminal.
    assert_eq!(solver.solve(), Step::Contradiction);
}

#[test]
fn naive_completed_island_is_walled() {
    // A 1 in the middle of a 3x3 grid: its four neighbours become sea.
    let mut solver = NaiveSolver::new(Nurikabe::new(3, 3, vec![0, 0, 0, 0, 1, 0, 0, 0, 0]));
    assert_eq!(solver.solve(), Step::Proceed);
    assert_eq!(solver.get_state().data, vec![-3, -1, -3, -1, 1, -1, -3, -1, -3]);
}

#[test]
fn naive_single_frontier_grows_island() {
    // A 2 in a corner whose only neighbours are walled by bordering.
    let mut solver = NaiveSolver::new(Nurikabe::new(2, 1, vec![2, 0]));
    assert_eq!(solver.solve(), Step::Proceed);
    assert_eq!(solver.get_state().data, vec![2, -2]);
    assert_eq!(solver.solve(), Step::SolutionFound);
}

#[test]
fn naive_bordering_cell_is_sea() {
    // Two islands of size 2, each with two frontier cells, one shared.
    let mut solver = NaiveSolver::new(Nurikabe::new(3, 2, vec![2, 0, 2, 0, 0, 0]));
    assert_eq!(solver.solve(), Step::Proceed);
    assert_eq!(solver.get_state().data, vec![2, -1, 2, -3, -3, -3]);
}

#[test]
fn naive_adjacent_clues_are_a_contradiction() {
    let mut solver = NaiveSolver::new(Nurikabe::new(2, 1, vec![1, 1]));
    assert_eq!(solver.solve(), Step::Contradiction);
}

#[test]
fn naive_scenario_c_stalls() {
    let mut solver = NaiveSolver::new(scenario_c());
    let mut step = Step::Proceed;
    while solver.get_iteration() < 50 {
        step = solver.solve();
        if step != Step::Proceed {
            break;
        }
    }
    assert_eq!(step, Step::CannotProceed);
    assert!(known_cells(&solver.get_state().data) < 25);
}

#[test]
fn naive_known_cells_never_change() {
    let mut solver = NaiveSolver::new(scenario_c());
    let mut before = solver.get_state().data;
    for _ in 0..50 {
        let step = solver.solve();
        let after = solver.get_state().data;
        assert!(known_cells(&after) >= known_cells(&before));
        for i in 0..after.len() {
            if before[i] != -3 {
                assert_eq!(before[i], after[i]);
            }
        }
        let sea = after.iter().filter(|&&v| v == -1).count();
        let land = after.iter().filter(|&&v| v == -2 || v > 0).count();
        let unknown = after.iter().filter(|&&v| v == -3).count();
        assert_eq!(sea + land + unknown, 25);
        before = after;
        if step != Step::Proceed {
            break;
        }
    }
}

#[test]
fn naive_state_is_idempotent() {
    let mut solver = NaiveSolver::new(scenario_c());
    solver.solve();
    let a = solver.get_state();
    let b = solver.get_state();
    assert_eq!(a.data, b.data);
    assert_eq!(a.iteration, b.iteration);
    assert_eq!(solver.known(), known_cells(&a.data));
}

#[test]
fn naive_through_trait() {
    let mut solver = NaiveSolver::new(Nurikabe::new(1, 1, vec![1]));
    let s: &mut dyn Solver = &mut solver;
    assert_eq!(s.solve(), Step::SolutionFound);
    assert_eq!(s.get_iteration(), 1);
    assert_eq!(s.get_state().data, vec![1]);
}

#[test]
fn aco_scenario_c_is_solved() {
    let mut solver = colony(10, scenario_c(), 7);
    let mut step = Step::Proceed;
    for _ in 0..50 {
        step = solver.solve();
        if step != Step::Proceed {
            break;
        }
    }
    assert_eq!(step, Step::SolutionFound);
    let state = solver.get_state();
    assert!(state.solved);
    assert_eq!(state.data[0], 1);
    assert_eq!(state.data[4], 3);
    assert_eq!(state.data[14], 3);
    assert_eq!(state.data[17], 3);
    let land = state.data.iter().filter(|&&v| v == -2 || v > 0).count();
    assert_eq!(land, 10);
}

#[test]
fn aco_trivial_grid() {
    let mut solver = colony(5, Nurikabe::new(1, 1, vec![1]), 3);
    assert_eq!(solver.solve(), Step::SolutionFound);
    assert_eq!(solver.get_state().data, vec![1]);
    assert_eq!(solver.get_iteration(), 1);
}

#[test]
fn aco_state_is_idempotent_and_classified() {
    let mut solver = colony(5, scenario_c(), 11);
    solver.solve();
    let a = solver.get_state();
    let b = solver.get_state();
    assert_eq!(a.data, b.data);
    assert_eq!(a.data.len(), 25);
    for v in a.data.iter() {
        assert!(*v == -1 || *v == -2 || *v > 0);
    }
}

#[test]
fn aco_counts_iterations_per_ant() {
    // No island can be completed in a 2x2 grid with a 4: the sea must exist.
    let mut solver = colony(5, Nurikabe::new(2, 2, vec![3, 0, 0, 0]), 5);
    let step = solver.solve();
    if step == Step::Proceed {
        assert_eq!(solver.get_iteration(), 5);
    }
}

#[test]
fn aco_same_seed_same_run() {
    let mut a = colony(5, scenario_c(), 42);
    let mut b = colony(5, scenario_c(), 42);
    a.solve();
    b.solve();
    assert_eq!(a.get_state().data, b.get_state().data);
}

#[test]
fn random_ants_solve_trivial_grid() {
    let mut solver = RandomAntSolver::new(3, Nurikabe::new(1, 1, vec![1]));
    solver.set_seed(1);
    assert_eq!(solver.solve(), Step::SolutionFound);
    assert_eq!(solver.get_state().data, vec![1]);
}

#[test]
fn random_ants_scenario_c_makes_valid_candidates() {
    let mut solver = RandomAntSolver::new(5, scenario_c());
    solver.set_seed(9);
    for _ in 0..5 {
        if solver.solve() != Step::Proceed {
            break;
        }
    }
    let state = solver.get_state();
    assert_eq!(state.data.len(), 25);
    assert_eq!(state.data[0], 1);
}

#[test]
fn seeded_generator_is_reproducible() {
    let mut a = Rng::seeded(123);
    let mut b = Rng::seeded(123);
    for _ in 0..10 {
        let x = a.below(7);
        assert_eq!(x, b.below(7));
        assert!(x < 7);
    }
    let mut z = Rng::seeded(0);
    let f = z.fraction(SCALE);
    assert!(f < SCALE);
}


#[test]
fn system_generator_stays_in_range() {
    let mut rng = Rng::from_os();
    for _ in 0..20 {
        assert!(rng.below(3) < 3);
        assert!(rng.fraction(10) < 10);
    }
}

#[test]
fn parse_trims_unicode_spaces() {
    let n = load_nurikabe("\u{a0}1,\u{2003}0\u{3000}").unwrap();
    assert_eq!(n.width, 2);
    assert_eq!(n.height, 1);
    assert_eq!(n.data, vec![1, -3]);
}

#[test]
fn aco_state_reports_fitness_before_solving() {
    // The clues alone already solve a 1x1 grid with a 1.
    let solver = colony(5, Nurikabe::new(1, 1, vec![1]), 1);
    let state = solver.get_state();
    assert!(state.solved);
    assert_eq!(state.data, vec![1]);
}
