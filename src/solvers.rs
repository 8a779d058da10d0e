pub mod aco;
pub mod naive;
pub mod random;
pub mod random_ant;
pub mod state;

use vstd::prelude::*;

pub use crate::nurikabe::Nurikabe;
pub use crate::solvers::naive::NaiveSolver;

verus! {

/// The in-bounds orthogonal neighbours of cell `(x, y)`, in the order
/// `+x`, `+y`, `-x`, `-y`. `x` is the row (below `height`), `y` the column.
pub open spec fn orth_neighbours(width: usize, height: usize, x: usize, y: usize) -> Seq<(usize, usize)> {
    let s0: Seq<(usize, usize)> = if x + 1 < height { seq![((x + 1) as usize, y)] } else { seq![] };
    let s1: Seq<(usize, usize)> = if y + 1 < width { seq![(x, (y + 1) as usize)] } else { seq![] };
    let s2: Seq<(usize, usize)> = if x > 0 { seq![((x - 1) as usize, y)] } else { seq![] };
    let s3: Seq<(usize, usize)> = if y > 0 { seq![(x, (y - 1) as usize)] } else { seq![] };
    s0 + s1 + s2 + s3
}

/// The in-bounds diagonal neighbours of cell `(x, y)`, in the order
/// `++`, `-+`, `--`, `+-`.
pub open spec fn diag_neighbours(width: usize, height: usize, x: usize, y: usize) -> Seq<(usize, usize)> {
    let s0: Seq<(usize, usize)> = if x + 1 < height && y + 1 < width {
        seq![((x + 1) as usize, (y + 1) as usize)]
    } else {
        seq![]
    };
    let s1: Seq<(usize, usize)> = if y + 1 < width && x > 0 {
        seq![((x - 1) as usize, (y + 1) as usize)]
    } else {
        seq![]
    };
    let s2: Seq<(usize, usize)> = if x > 0 && y > 0 {
        seq![((x - 1) as usize, (y - 1) as usize)]
    } else {
        seq![]
    };
    let s3: Seq<(usize, usize)> = if y > 0 && x + 1 < height {
        seq![((x + 1) as usize, (y - 1) as usize)]
    } else {
        seq![]
    };
    s0 + s1 + s2 + s3
}

/// Two cells share an edge.
pub open spec fn adjacent(a: (usize, usize), b: (usize, usize)) -> bool {
    (a.0 == b.0 && (a.1 + 1 == b.1 || b.1 + 1 == a.1)) || (a.1 == b.1 && (a.0 + 1 == b.0 || b.0
        + 1 == a.0))
}

/// Row-major index of a cell.
pub open spec fn idx(width: usize, p: (usize, usize)) -> int {
    p.0 * width + p.1
}

/// A cell of a `width` x `height` grid.
pub open spec fn in_grid(width: usize, height: usize, p: (usize, usize)) -> bool {
    p.0 < height && p.1 < width
}

/// The orthogonal neighbours are exactly the adjacent cells of the grid.
pub proof fn lemma_orth_neighbours(width: usize, height: usize, x: usize, y: usize)
    requires
        x < height,
        y < width,
    ensures
        orth_neighbours(width, height, x, y).len() <= 4,
        forall|p: (usize, usize)|
            orth_neighbours(width, height, x, y).contains(p) <==> (in_grid(width, height, p)
                && adjacent((x, y), p)),
        forall|i: int|
            0 <= i < orth_neighbours(width, height, x, y).len() ==> in_grid(
                width,
                height,
                #[trigger] orth_neighbours(width, height, x, y)[i],
            ) && adjacent((x, y), orth_neighbours(width, height, x, y)[i]),
{
    let n = orth_neighbours(width, height, x, y);
    assert forall|p: (usize, usize)| n.contains(p) <==> (in_grid(width, height, p) && adjacent((x, y), p)) by {
        if in_grid(width, height, p) && adjacent((x, y), p) {
            if p.0 == x + 1 {
                assert(n[0] == p);
            } else if p.1 == y + 1 {
                let k: int = if x + 1 < height { 1 } else { 0 };
                assert(n[k] == p);
            } else if p.0 + 1 == x {
                let k: int = (if x + 1 < height { 1int } else { 0int }) + (if y + 1 < width { 1int } else { 0int });
                assert(n[k] == p);
            } else {
                let k: int = (if x + 1 < height { 1int } else { 0int }) + (if y + 1 < width { 1int } else { 0int }) + (if x > 0 { 1int } else { 0int });
                assert(n[k] == p);
            }
        }
    }
}

/// Row-major indexing is a bijection between the grid's cells and `0..width * height`.
pub proof fn lemma_idx(width: usize, height: usize, p: (usize, usize))
    requires
        in_grid(width, height, p),
    ensures
        0 <= idx(width, p) < width * height,
        forall|q: (usize, usize)| in_grid(width, height, q) && idx(width, q) == idx(width, p) ==> q == p,
{
    assert(p.0 * width + p.1 < width * height) by (nonlinear_arith)
        requires p.0 < height, p.1 < width;
    assert forall|q: (usize, usize)| in_grid(width, height, q) && idx(width, q) == idx(width, p) implies q == p by {
        if q.0 < p.0 {
            assert(q.0 * width + q.1 < p.0 * width) by (nonlinear_arith)
                requires q.0 < p.0, q.1 < width;
        } else if q.0 > p.0 {
            assert(p.0 * width + p.1 < q.0 * width) by (nonlinear_arith)
                requires p.0 < q.0, p.1 < width;
        }
    }
}

/// Every row-major index of the grid is the index of one of its cells.
pub proof fn lemma_pos(width: usize, height: usize, i: int)
    requires
        0 <= i < width * height,
    ensures
        in_grid(width, height, ((i / width as int) as usize, (i % width as int) as usize)),
        idx(width, ((i / width as int) as usize, (i % width as int) as usize)) == i,
{
    assert(width > 0) by (nonlinear_arith)
        requires 0 <= i < width * height;
    let w = width as int;
    vstd::arithmetic::div_mod::lemma_fundamental_div_mod(i, w);
    vstd::arithmetic::div_mod::lemma_mod_pos_bound(i, w);
    vstd::arithmetic::div_mod::lemma_div_pos_is_pos(i, w);
    let x = i / w;
    let y = i % w;
    assert(x < height) by (nonlinear_arith)
        requires i == w * x + y, 0 <= y, i < w * height, w > 0;
    assert(x * w == w * x) by (nonlinear_arith);
}

/// The orthogonal neighbours are distinct.
pub proof fn lemma_orth_neighbours_distinct(width: usize, height: usize, x: usize, y: usize)
    ensures
        orth_neighbours(width, height, x, y).no_duplicates(),
{
    let n = orth_neighbours(width, height, x, y);
    assert forall|i: int, j: int| 0 <= i < n.len() && 0 <= j < n.len() && i != j implies n[i] != n[j] by {
    }
}

/// Lists the in-bounds orthogonal neighbours of `(x, y)` (`+x`, `+y`, `-x`, `-y`).
pub fn for_valid_neighbours(width: usize, height: usize, x: usize, y: usize) -> (r: Vec<(usize, usize)>)
    requires
        x < usize::MAX,
        y < usize::MAX,
    ensures
        r@ == orth_neighbours(width, height, x, y),
{
    let mut r: Vec<(usize, usize)> = Vec::new();
    if x + 1 < height {
        r.push((x + 1, y));
    }
    if y + 1 < width {
        r.push((x, y + 1));
    }
    if x > 0 {
        r.push((x - 1, y));
    }
    if y > 0 {
        r.push((x, y - 1));
    }
    assert(r@ =~= orth_neighbours(width, height, x, y));
    r
}

/// Lists the in-bounds diagonal neighbours of `(x, y)` (`++`, `-+`, `--`, `+-`).
pub fn for_valid_diagonal_neighbours(width: usize, height: usize, x: usize, y: usize) -> (r: Vec<(usize, usize)>)
    requires
        x < usize::MAX,
        y < usize::MAX,
    ensures
        r@ == diag_neighbours(width, height, x, y),
{
    let mut r: Vec<(usize, usize)> = Vec::new();
    if x + 1 < height && y + 1 < width {
        r.push((x + 1, y + 1));
    }
    if y + 1 < width && x > 0 {
        r.push((x - 1, y + 1));
    }
    if x > 0 && y > 0 {
        r.push((x - 1, y - 1));
    }
    if y > 0 && x + 1 < height {
        r.push((x + 1, y - 1));
    }
    assert(r@ =~= diag_neighbours(width, height, x, y));
    r
}

/// Whether some orthogonal neighbour of `(x, y)` satisfies `f`; stops at the
/// first one that does, in the order `+x`, `+y`, `-x`, `-y`.
pub fn for_none_of_neibhbours<F: Fn(usize, usize) -> bool>(
    width: usize,
    height: usize,
    x: usize,
    y: usize,
    f: F,
) -> (r: bool)
    requires
        x < usize::MAX,
        y < usize::MAX,
        forall|i: int|
            0 <= i < orth_neighbours(width, height, x, y).len() ==> f.requires(
                (#[trigger] orth_neighbours(width, height, x, y)[i].0, orth_neighbours(width, height, x, y)[i].1),
            ),
    ensures
        r ==> exists|i: int|
            0 <= i < orth_neighbours(width, height, x, y).len() && f.ensures(
                (orth_neighbours(width, height, x, y)[i].0, orth_neighbours(width, height, x, y)[i].1),
                true,
            ),
        !r ==> forall|i: int|
            0 <= i < orth_neighbours(width, height, x, y).len() ==> f.ensures(
                (orth_neighbours(width, height, x, y)[i].0, orth_neighbours(width, height, x, y)[i].1),
                false,
            ),
{
    let n = for_valid_neighbours(width, height, x, y);
    let mut i: usize = 0;
    while i < n.len()
        invariant
            n@ == orth_neighbours(width, height, x, y),
            i <= n@.len(),
            forall|j: int|
                0 <= j < n@.len() ==> f.requires((#[trigger] n@[j].0, n@[j].1)),
            forall|k: int| 0 <= k < i ==> f.ensures((n@[k].0, n@[k].1), false),
        decreases n@.len() - i,
    {
        let (a, b) = n[i];
        let hit = f(a, b);
        if hit {
            return true;
        }
        i += 1;
    }
    false
}

/// Outcome of one solving step.
#[derive(PartialEq, Eq, Structural, Clone, Copy, Debug)]
pub enum Step {
    Contradiction,
    SolutionFound,
    Proceed,
    CannotProceed,
}

/// The surface shared by the solving engines.
pub trait Solver {
    /// The engine's internal consistency.
    spec fn inv(&self) -> bool;

    /// Solving step.
    fn solve(&mut self) -> (r: Step)
        requires
            old(self).inv(),
        ensures
            final(self).inv(),
    ;

    /// Current state of the solver, for presentation.
    fn get_state(&self) -> Nurikabe
        requires
            self.inv(),
    ;

    /// Current solving iteration.
    fn get_iteration(&self) -> usize;
}

} // verus!
