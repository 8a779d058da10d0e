use vstd::prelude::*;

use crate::nurikabe::Nurikabe;
use crate::solvers::aco::{capped, display_code, fitness, sat_add, AntSolver};
use crate::solvers::{Solver, Step};

verus! {

/// A colony whose ants grow islands by uniformly random picks, with no
/// pheromone: a baseline for the ant colony optimiser.
#[derive(Debug)]
pub struct RandomAntSolver {
    colony: AntSolver,
}

impl RandomAntSolver {
    pub closed spec fn colony_spec(&self) -> AntSolver {
        self.colony
    }

    pub open spec fn wf(&self) -> bool {
        self.colony_spec().wf()
    }

    pub fn new(ants: usize, nurikabe: Nurikabe) -> (r: Self)
        requires
            nurikabe.well_formed(),
        ensures
            r.wf(),
            r.colony_spec().ants_spec() == ants,
            r.colony_spec().iteration_spec() == 0,
            r.colony_spec().base().width == nurikabe.width,
            r.colony_spec().base().height == nurikabe.height,
            r.colony_spec().best().cells@ == r.colony_spec().base().cells@,
    {
        let mut colony = AntSolver::new(ants, 0, 0, 0, 0, 0, nurikabe);
        colony.set_uniform();
        RandomAntSolver { colony }
    }

    /// Reproducible runs: draws from a generator seeded with `seed`.
    pub fn set_seed(&mut self, seed: u64)
        requires
            old(self).wf(),
        ensures
            final(self).wf(),
            final(self).colony_spec().best() == old(self).colony_spec().best(),
            final(self).colony_spec().base() == old(self).colony_spec().base(),
            final(self).colony_spec().iteration_spec() == old(self).colony_spec().iteration_spec(),
    {
        self.colony.set_seed(seed);
    }

    /// One iteration: every ant builds a candidate; one with fitness 0 is the
    /// solution.
    pub fn solve(&mut self) -> (r: Step)
        requires
            old(self).wf(),
        ensures
            final(self).wf(),
            r == Step::SolutionFound || r == Step::Proceed,
            r == Step::SolutionFound ==> fitness(
                final(self).colony_spec().best().cells@,
                final(self).colony_spec().best().width,
                final(self).colony_spec().best().height,
                final(self).colony_spec().island_list(),
            ) == 0,
            r == Step::SolutionFound ==> final(self).colony_spec().best().eval == 0,
            r == Step::Proceed ==> final(self).colony_spec().iteration_spec() == sat_add(
                old(self).colony_spec().iteration_spec(),
                old(self).colony_spec().ants_spec(),
            ),
            final(self).colony_spec().best().eval == capped(
                fitness(
                    final(self).colony_spec().best().cells@,
                    final(self).colony_spec().best().width,
                    final(self).colony_spec().best().height,
                    final(self).colony_spec().island_list(),
                ),
            ),
            (final(self).colony_spec().best().cells@ == old(self).colony_spec().best().cells@
                && final(self).colony_spec().best().eval == old(self).colony_spec().best().eval)
                || crate::solvers::aco::quality(final(self).colony_spec().best().eval as nat) > old(self).colony_spec().best().best_p,
    {
        self.colony.solve()
    }

    /// The best candidate for presentation: sea cells show -1, clue cells
    /// their clue, the other island cells -2.
    pub fn get_state(&self) -> (r: Nurikabe)
        requires
            self.wf(),
        ensures
            r.well_formed(),
            r.width == self.colony_spec().best().width,
            r.height == self.colony_spec().best().height,
            r.data@ == Seq::new(
                self.colony_spec().best().cells@.len(),
                |i: int|
                    display_code(
                        self.colony_spec().best().cells@[i],
                        self.colony_spec().base().cells@[i],
                        self.colony_spec().island_list(),
                    ),
            ),
            r.solved == (self.colony_spec().best().eval == 0),
            r.solved == (fitness(
                self.colony_spec().best().cells@,
                self.colony_spec().best().width,
                self.colony_spec().best().height,
                self.colony_spec().island_list(),
            ) == 0),
            r.iteration == self.colony_spec().iteration_spec(),
    {
        self.colony.get_state()
    }

    pub fn get_iteration(&self) -> (r: usize)
        ensures
            r == self.colony_spec().iteration_spec(),
    {
        self.colony.get_iteration()
    }
}

impl Solver for RandomAntSolver {
    open spec fn inv(&self) -> bool {
        self.wf()
    }

    fn solve(&mut self) -> (r: Step) {
        RandomAntSolver::solve(self)
    }

    fn get_state(&self) -> Nurikabe {
        RandomAntSolver::get_state(self)
    }

    fn get_iteration(&self) -> usize {
        RandomAntSolver::get_iteration(self)
    }
}

} // verus!
