use vstd::prelude::*;

use crate::nurikabe::Nurikabe;
use crate::solvers::random::Rng;
use crate::solvers::{
    adjacent, diag_neighbours, for_none_of_neibhbours, for_valid_diagonal_neighbours, for_valid_neighbours, idx,
    in_grid, lemma_idx, lemma_orth_neighbours, lemma_pos, orth_neighbours, Solver, Step,
};

verus! {

/// Fixed-point unit of pheromone values, probabilities and rates: `SCALE` is 1.
pub const SCALE: u64 = 1_000_000;

/// An island as the optimiser grows it.
#[derive(Clone, Copy, Debug)]
pub struct Island {
    /// Positive id; the cells of the island hold it.
    pub id: usize,
    /// A diagonal neighbour is not sea: growth checks fragmentation strictly.
    pub enclosed: bool,
    /// The clue cell.
    pub pos: (usize, usize),
    pub size: usize,
    pub final_size: usize,
}

impl Island {
    pub fn new(id: usize, pos: (usize, usize), size: usize, final_size: usize) -> (r: Self)
        ensures
            r == (Island { id, enclosed: false, pos, size, final_size }),
    {
        Island { id, enclosed: false, pos, size, final_size }
    }
}

/// A candidate solution: the island id of every cell (0 is sea), row-major.
#[derive(Clone, Debug)]
pub struct Grid {
    pub width: usize,
    pub height: usize,
    pub cells: Vec<usize>,
    /// Fitness of the last evaluation (lower is better, 0 is solved).
    pub eval: usize,
    /// Quality of the last evaluation, in parts of `SCALE`.
    pub best_p: u64,
}

/// Number of indices below `n` holding `v`.
pub open spec fn count_value(cells: Seq<usize>, v: usize, n: int) -> nat
    decreases n,
{
    if n <= 0 {
        0
    } else {
        count_value(cells, v, n - 1) + (if cells[n - 1] == v {
            1nat
        } else {
            0nat
        })
    }
}

/// The cell at index `i` is the top-left corner of an all-sea 2x2 block.
pub open spec fn pool_corner(cells: Seq<usize>, width: int, height: int, i: int) -> bool {
    &&& i % width + 1 < width
    &&& i / width + 1 < height
    &&& cells[i] == 0
    &&& cells[i + 1] == 0
    &&& cells[i + width] == 0
    &&& cells[i + width + 1] == 0
}

/// Number of all-sea 2x2 blocks whose corner index is below `n`.
pub open spec fn pool_count(cells: Seq<usize>, width: int, height: int, n: int) -> nat
    decreases n,
{
    if n <= 0 {
        0
    } else {
        pool_count(cells, width, height, n - 1) + (if pool_corner(cells, width, height, n - 1) {
            1nat
        } else {
            0nat
        })
    }
}

/// Sum over the first `k` islands of how many cells each still lacks.
pub open spec fn shortfall(cells: Seq<usize>, islands: Seq<Island>, k: int) -> nat
    decreases k,
{
    if k <= 0 {
        0
    } else {
        let isl = islands[k - 1];
        let have = count_value(cells, isl.id, cells.len() as int);
        shortfall(cells, islands, k - 1) + (if have < isl.final_size {
            (isl.final_size - have) as nat
        } else {
            0nat
        })
    }
}

/// Fitness of a candidate: island shortfalls plus all-sea 2x2 blocks.
pub open spec fn fitness(cells: Seq<usize>, width: usize, height: usize, islands: Seq<Island>) -> nat {
    shortfall(cells, islands, islands.len() as int) + pool_count(cells, width as int, height as int, cells.len() as int)
}

/// Quality of a fitness value, in parts of `SCALE`: `SCALE` for a solution,
/// falling as the fitness grows.
pub open spec fn quality(eval: nat) -> u64 {
    (SCALE as int / (eval + 1) as int) as u64
}

/// Row-major position of index `i`.
pub open spec fn pos_of(width: usize, i: int) -> (usize, usize) {
    ((i / width as int) as usize, (i % width as int) as usize)
}

/// `p` is a sea cell of the grid.
pub open spec fn sea_at(width: usize, height: usize, cells: Seq<usize>, p: (usize, usize)) -> bool {
    in_grid(width, height, p) && cells[idx(width, p)] == 0
}

/// `p` is reached from the sea cell `a` in at most `k` steps between
/// neighbouring sea cells.
pub open spec fn sea_path(width: usize, height: usize, cells: Seq<usize>, a: (usize, usize), p: (usize, usize), k: nat) -> bool
    decreases k,
{
    if k == 0 {
        p == a && sea_at(width, height, cells, a)
    } else {
        sea_path(width, height, cells, a, p, (k - 1) as nat) || (sea_at(width, height, cells, p) && exists|j: int|
            0 <= j < orth_neighbours(width, height, p.0, p.1).len() && sea_path(
                width,
                height,
                cells,
                a,
                #[trigger] orth_neighbours(width, height, p.0, p.1)[j],
                (k - 1) as nat,
            ))
    }
}

/// `p` lies in the sea region of `a`.
pub open spec fn sea_connected(width: usize, height: usize, cells: Seq<usize>, a: (usize, usize), p: (usize, usize)) -> bool {
    exists|k: nat| #[trigger] sea_path(width, height, cells, a, p, k)
}

/// The sea is in more than one piece: the region of some sea cell is not all of it.
pub open spec fn sea_split(width: usize, height: usize, cells: Seq<usize>) -> bool {
    exists|s: (usize, usize)|
        #[trigger] sea_at(width, height, cells, s) && component_size(width, height, cells, s) != count_value(
            cells,
            0,
            cells.len() as int,
        )
}

/// Number of `true` entries below index `n`.
pub open spec fn count_true(v: Seq<bool>, n: int) -> nat
    decreases n,
{
    if n <= 0 {
        0
    } else {
        count_true(v, n - 1) + (if v[n - 1] {
            1nat
        } else {
            0nat
        })
    }
}

/// Number of cells of the sea region of `a`.
pub open spec fn component_size(width: usize, height: usize, cells: Seq<usize>, a: (usize, usize)) -> nat {
    count_true(Seq::new(cells.len(), |i: int| sea_connected(width, height, cells, a, pos_of(width, i))), cells.len() as int)
}

/// Every sea neighbour of `p` is marked.
pub open spec fn closed(width: usize, height: usize, cells: Seq<usize>, reached: Seq<bool>, p: (usize, usize)) -> bool {
    forall|j: int|
        0 <= j < orth_neighbours(width, height, p.0, p.1).len() && sea_at(
            width,
            height,
            cells,
            #[trigger] orth_neighbours(width, height, p.0, p.1)[j],
        ) ==> reached[idx(width, orth_neighbours(width, height, p.0, p.1)[j])]
}

proof fn lemma_count_true_false(v: Seq<bool>, n: int)
    requires
        0 <= n <= v.len(),
    ensures
        count_true(v, n) + count_false(v, n) == n,
    decreases n,
{
    if n > 0 {
        lemma_count_true_false(v, n - 1);
    }
}

/// A sea neighbour of a cell of the region is in the region.
proof fn lemma_sea_step(width: usize, height: usize, cells: Seq<usize>, a: (usize, usize), p: (usize, usize), m: (usize, usize))
    requires
        sea_connected(width, height, cells, a, p),
        sea_at(width, height, cells, m),
        in_grid(width, height, p),
        adjacent(p, m),
    ensures
        sea_connected(width, height, cells, a, m),
{
    let k = choose|k: nat| #[trigger] sea_path(width, height, cells, a, p, k);
    lemma_orth_neighbours(width, height, m.0, m.1);
    assert(adjacent(m, p));
    assert(orth_neighbours(width, height, m.0, m.1).contains(p));
    let j = choose|j: int| 0 <= j < orth_neighbours(width, height, m.0, m.1).len() && orth_neighbours(width, height, m.0, m.1)[j] == p;
    assert(sea_path(width, height, cells, a, m, k + 1));
}

proof fn lemma_closed_grows(width: usize, height: usize, cells: Seq<usize>, r0: Seq<bool>, r1: Seq<bool>, p: (usize, usize))
    requires
        closed(width, height, cells, r0, p),
        r0.len() == r1.len(),
        forall|t: int| 0 <= t < r0.len() && #[trigger] r0[t] ==> r1[t],
        in_grid(width, height, p),
        r0.len() == width * height,
    ensures
        closed(width, height, cells, r1, p),
{
    lemma_orth_neighbours(width, height, p.0, p.1);
    assert forall|j: int|
        0 <= j < orth_neighbours(width, height, p.0, p.1).len() && sea_at(
            width,
            height,
            cells,
            #[trigger] orth_neighbours(width, height, p.0, p.1)[j],
        ) implies r1[idx(width, orth_neighbours(width, height, p.0, p.1)[j])] by {
        lemma_idx(width, height, orth_neighbours(width, height, p.0, p.1)[j]);
    }
}

/// A marked set that holds `a` and is closed holds the whole region of `a`.
proof fn lemma_closed_complete(
    width: usize,
    height: usize,
    cells: Seq<usize>,
    reached: Seq<bool>,
    a: (usize, usize),
    p: (usize, usize),
    k: nat,
)
    requires
        reached.len() == width * height,
        in_grid(width, height, a),
        reached[idx(width, a)],
        forall|q: (usize, usize)| in_grid(width, height, q) && #[trigger] reached[idx(width, q)] ==> closed(width, height, cells, reached, q),
        sea_path(width, height, cells, a, p, k),
    ensures
        in_grid(width, height, p) && reached[idx(width, p)],
    decreases k,
{
    if k > 0 {
        if sea_path(width, height, cells, a, p, (k - 1) as nat) {
            lemma_closed_complete(width, height, cells, reached, a, p, (k - 1) as nat);
        } else {
            let nb = orth_neighbours(width, height, p.0, p.1);
            let j = choose|j: int| 0 <= j < nb.len() && sea_path(width, height, cells, a, #[trigger] nb[j], (k - 1) as nat);
            let m = nb[j];
            lemma_closed_complete(width, height, cells, reached, a, m, (k - 1) as nat);
            lemma_orth_neighbours(width, height, m.0, m.1);
            lemma_orth_neighbours(width, height, p.0, p.1);
            assert(adjacent(m, p));
            assert(orth_neighbours(width, height, m.0, m.1).contains(p));
            let t = choose|t: int| 0 <= t < orth_neighbours(width, height, m.0, m.1).len() && orth_neighbours(width, height, m.0, m.1)[t] == p;
            assert(closed(width, height, cells, reached, m));
            assert(sea_at(width, height, cells, orth_neighbours(width, height, m.0, m.1)[t]));
        }
    }
}

/// Total pheromone of the first `k` candidates.
pub open spec fn weight_sum(queue: Seq<(usize, usize)>, ph: Seq<u64>, width: usize, k: int) -> int
    decreases k,
{
    if k <= 0 {
        0
    } else {
        weight_sum(queue, ph, width, k - 1) + ph[idx(width, queue[k - 1])] as int
    }
}

/// Roulette-wheel selection: `r` is the first candidate whose cumulative
/// pheromone exceeds `draw`, or the last candidate where none does.
pub open spec fn roulette_choice(queue: Seq<(usize, usize)>, ph: Seq<u64>, width: usize, draw: int, r: int) -> bool {
    &&& 0 <= r < queue.len()
    &&& if draw < weight_sum(queue, ph, width, queue.len() as int) {
        draw < weight_sum(queue, ph, width, r + 1) && forall|j: int|
            0 <= j < r ==> draw >= #[trigger] weight_sum(queue, ph, width, j + 1)
    } else {
        r == queue.len() - 1
    }
}

proof fn lemma_weight_sum_monotone(queue: Seq<(usize, usize)>, ph: Seq<u64>, width: usize, j: int, k: int)
    requires
        0 <= j <= k,
    ensures
        weight_sum(queue, ph, width, j) <= weight_sum(queue, ph, width, k),
    decreases k - j,
{
    if j < k {
        lemma_weight_sum_monotone(queue, ph, width, j, k - 1);
    }
}

/// The roulette-wheel pick for the draw `draw`.
fn roulette_index(queue: &Vec<(usize, usize)>, ph: &Vec<u64>, width: usize, height: usize, draw: u128) -> (r: usize)
    requires
        queue@.len() > 0,
        ph@.len() == width * height,
        bounded(ph@),
        forall|j: int| 0 <= j < queue@.len() ==> in_grid(width, height, #[trigger] queue@[j]),
    ensures
        roulette_choice(queue@, ph@, width, draw as int, r as int),
{
    let mut acc: u128 = 0;
    let mut i: usize = 0;
    while i < queue.len()
        invariant
            ph@.len() == width * height,
            bounded(ph@),
            forall|j: int| 0 <= j < queue@.len() ==> in_grid(width, height, #[trigger] queue@[j]),
            i <= queue@.len(),
            acc <= i * SCALE,
            acc == weight_sum(queue@, ph@, width, i as int),
            forall|j: int| 0 <= j < i ==> draw >= #[trigger] weight_sum(queue@, ph@, width, j + 1),
        decreases queue@.len() - i,
    {
        let (a, b) = queue[i];
        proof {
            lemma_idx(width, height, (a, b));
            assert(ph@[idx(width, queue@[i as int])] <= SCALE);
        }
        acc = acc + ph[flat_index(width, height, ph.len(), a, b)] as u128;
        if draw < acc {
            proof {
                lemma_weight_sum_monotone(queue@, ph@, width, i + 1, queue@.len() as int);
            }
            return i;
        }
        i = i + 1;
    }
    proof {
        let l = queue@.len() as int;
        assert(draw >= weight_sum(queue@, ph@, width, (l - 1) + 1));
        assert(!(draw < weight_sum(queue@, ph@, width, queue@.len() as int)));
    }
    queue.len() - 1
}

/// Number of `false` entries below index `n`.
pub open spec fn count_false(v: Seq<bool>, n: int) -> nat
    decreases n,
{
    if n <= 0 {
        0
    } else {
        count_false(v, n - 1) + (if !v[n - 1] {
            1nat
        } else {
            0nat
        })
    }
}

proof fn lemma_count_false_same(a: Seq<bool>, b: Seq<bool>, n: int)
    requires
        0 <= n <= a.len(),
        n <= b.len(),
        forall|j: int| 0 <= j < n ==> a[j] == b[j],
    ensures
        count_false(a, n) == count_false(b, n),
    decreases n,
{
    if n > 0 {
        lemma_count_false_same(a, b, n - 1);
    }
}

/// Setting a `false` entry drops the count by one.
proof fn lemma_count_false_set(v: Seq<bool>, j: int)
    requires
        0 <= j < v.len(),
    ensures
        !v[j] ==> count_false(v.update(j, true), v.len() as int) + 1 == count_false(v, v.len() as int),
        v[j] ==> count_false(v.update(j, true), v.len() as int) == count_false(v, v.len() as int),
        count_false(v, v.len() as int) <= v.len(),
{
    lemma_count_false_set_upto(v, j, v.len() as int);
}

proof fn lemma_count_false_set_upto(v: Seq<bool>, j: int, n: int)
    requires
        0 <= j < v.len(),
        0 <= n <= v.len(),
    ensures
        j < n && !v[j] ==> count_false(v.update(j, true), n) + 1 == count_false(v, n),
        !(j < n && !v[j]) ==> count_false(v.update(j, true), n) == count_false(v, n),
        count_false(v, n) <= n,
    decreases n,
{
    if n > 0 {
        lemma_count_false_set_upto(v, j, n - 1);
    }
}

impl Grid {
    pub open spec fn wf(&self) -> bool {
        self.cells@.len() == self.width * self.height
    }

    pub open spec fn at(&self, p: (usize, usize)) -> usize {
        self.cells@[idx(self.width, p)]
    }

    pub fn new(width: usize, height: usize, cells: Vec<usize>) -> (r: Self)
        ensures
            r.width == width,
            r.height == height,
            r.cells@ == cells@,
            r.eval == usize::MAX,
            r.best_p == 0,
    {
        Grid { width, height, cells, eval: usize::MAX, best_p: 0 }
    }

    /// A copy of the grid.
    pub fn copy(&self) -> (r: Self)
        ensures
            r.width == self.width,
            r.height == self.height,
            r.cells@ == self.cells@,
            r.eval == self.eval,
            r.best_p == self.best_p,
    {
        Grid { width: self.width, height: self.height, cells: self.flat(), eval: self.eval, best_p: self.best_p }
    }

    /// The cells, row-major.
    pub fn flat(&self) -> (r: Vec<usize>)
        ensures
            r@ == self.cells@,
    {
        let mut r: Vec<usize> = Vec::new();
        let mut i: usize = 0;
        while i < self.cells.len()
            invariant
                i <= self.cells@.len(),
                r@ == self.cells@.subrange(0, i as int),
            decreases self.cells@.len() - i,
        {
            r.push(self.cells[i]);
            i = i + 1;
            assert(r@ =~= self.cells@.subrange(0, i as int));
        }
        assert(r@ =~= self.cells@);
        r
    }

    fn index(&self, x: usize, y: usize) -> (r: usize)
        requires
            self.wf(),
            in_grid(self.width, self.height, (x, y)),
        ensures
            r == idx(self.width, (x, y)),
            r < self.cells@.len(),
    {
        let n = self.cells.len();
        proof {
            lemma_idx(self.width, self.height, (x, y));
            assert(x * self.width <= x * self.width + y);
        }
        x * self.width + y
    }

    fn get(&self, x: usize, y: usize) -> (r: usize)
        requires
            self.wf(),
            in_grid(self.width, self.height, (x, y)),
        ensures
            r == self.at((x, y)),
    {
        let i = self.index(x, y);
        self.cells[i]
    }

    fn put(&mut self, x: usize, y: usize, v: usize)
        requires
            old(self).wf(),
            in_grid(old(self).width, old(self).height, (x, y)),
        ensures
            final(self).wf(),
            final(self).width == old(self).width,
            final(self).height == old(self).height,
            final(self).eval == old(self).eval,
            final(self).best_p == old(self).best_p,
            final(self).cells@ == old(self).cells@.update(idx(old(self).width, (x, y)), v),
    {
        let i = self.index(x, y);
        self.cells.set(i, v);
    }

    /// The cell `p` belongs to an island other than `id`.
    pub open spec fn other_island(&self, p: (usize, usize), id: usize) -> bool {
        self.at(p) != 0 && self.at(p) != id
    }

    /// Whether `(a, b)` belongs to an island other than `id`.
    fn holds_other(&self, a: usize, b: usize, id: usize) -> (r: bool)
        requires
            self.wf(),
            in_grid(self.width, self.height, (a, b)),
        ensures
            r == (self.at((a, b)) != 0 && self.at((a, b)) != id),
    {
        let sample = self.get(a, b);
        sample != 0 && sample != id
    }

    /// Whether a neighbour of `(x, y)` belongs to an island other than `id`.
    fn is_connecting_islands(&self, x: usize, y: usize, id: usize) -> (r: bool)
        requires
            self.wf(),
            in_grid(self.width, self.height, (x, y)),
        ensures
            r == exists|k: int|
                0 <= k < orth_neighbours(self.width, self.height, x, y).len() && #[trigger] self.at(
                    orth_neighbours(self.width, self.height, x, y)[k],
                ) != 0 && self.at(orth_neighbours(self.width, self.height, x, y)[k]) != id,
    {
        let f = |a: usize, b: usize| -> (res: bool)
            requires
                in_grid(self.width, self.height, (a, b)),
            ensures
                res == self.other_island((a, b), id),
            { self.holds_other(a, b, id) };
        for_none_of_neibhbours(self.width, self.height, x, y, f)
    }

    /// Number of all-sea 2x2 blocks.
    fn get_num_pools(&self) -> (r: usize)
        requires
            self.wf(),
        ensures
            r == pool_count(self.cells@, self.width as int, self.height as int, self.cells@.len() as int),
    {
        let n = self.cells.len();
        let width = self.width;
        let height = self.height;
        let mut num: usize = 0;
        let mut i: usize = 0;
        let mut x: usize = 0;
        let mut y: usize = 0;
        if n > 0 {
            assert(width > 0 && height > 0) by (nonlinear_arith)
                requires n == width * height, n > 0;
        }
        while i < n
            invariant
                n == self.cells@.len(),
                n == width * height,
                width == self.width,
                height == self.height,
                i <= n,
                i == x * width + y,
                i < n ==> x < height && y < width,
                num == pool_count(self.cells@, width as int, height as int, i as int),
                num <= i,
            decreases n - i,
        {
            proof {
                vstd::arithmetic::div_mod::lemma_fundamental_div_mod_converse(i as int, width as int, x as int, y as int);
            }
            if y + 1 < width && x + 1 < height {
                assert((x + 1) * width + y + 1 < width * height) by (nonlinear_arith)
                    requires x + 1 < height, y + 1 < width;
                assert((x + 1) * width == x * width + width) by (nonlinear_arith);
                let w = width;
                if self.cells[i] == 0 && self.cells[i + 1] == 0 && self.cells[i + w] == 0 && self.cells[i + w + 1] == 0 {
                    num = num + 1;
                }
            }
            i = i + 1;
            y = y + 1;
            if y == width {
                y = 0;
                x = x + 1;
                assert(i == x * width) by (nonlinear_arith)
                    requires i == (x - 1) * width + width;
            }
            proof {
                if i < n && x >= height {
                    assert(x * width + y >= width * height) by (nonlinear_arith)
                        requires x >= height, y >= 0, width >= 0;
                    assert(false);
                }
            }
        }
        num
    }

    /// Number of cells holding `v`.
    fn count_of(&self, v: usize) -> (r: usize)
        ensures
            r == count_value(self.cells@, v, self.cells@.len() as int),
    {
        let n = self.cells.len();
        let mut c: usize = 0;
        let mut i: usize = 0;
        while i < n
            invariant
                n == self.cells@.len(),
                i <= n,
                c == count_value(self.cells@, v, i as int),
                c <= i,
            decreases n - i,
        {
            if self.cells[i] == v {
                c = c + 1;
            }
            i = i + 1;
        }
        c
    }

    /// Scores the grid: island shortfalls plus all-sea 2x2 blocks.
    fn evaluate(&mut self, islands: &Vec<Island>) -> (q: u64)
        requires
            old(self).wf(),
        ensures
            final(self).wf(),
            final(self).cells@ == old(self).cells@,
            final(self).width == old(self).width,
            final(self).height == old(self).height,
            final(self).eval as nat == if fitness(old(self).cells@, old(self).width, old(self).height, islands@) < usize::MAX {
                fitness(old(self).cells@, old(self).width, old(self).height, islands@)
            } else {
                usize::MAX as nat
            },
            q == final(self).best_p,
            q == quality(final(self).eval as nat),
    {
        let mut total: u128 = 0;
        let mut k: usize = 0;
        while k < islands.len()
            invariant
                self.wf(),
                k <= islands@.len(),
                total == shortfall(self.cells@, islands@, k as int),
                total <= k * 0x1_0000_0000_0000_0000,
            decreases islands@.len() - k,
        {
            let isl = islands[k];
            let have = self.count_of(isl.id);
            if have < isl.final_size {
                total = total + (isl.final_size - have) as u128;
            }
            k = k + 1;
        }
        let pools = self.get_num_pools();
        total = total + pools as u128;
        self.eval = if total < usize::MAX as u128 { total as usize } else { usize::MAX };
        self.best_p = (SCALE as u128 / (self.eval as u128 + 1)) as u64;
        self.best_p
    }

    /// For each cell around `(x, y)`, going round, whether it belongs to an island.
    fn ring_of(&self, x: usize, y: usize) -> (ring: Vec<bool>)
        requires
            self.wf(),
            in_grid(self.width, self.height, (x, y)),
        ensures
            ring@ == ring_flags(*self, x, y),
            ring@.len() <= 8,
    {
        let h = self.height;
        let w = self.width;
        let mut cells: Vec<(usize, usize)> = Vec::new();
        assert(ring_prefix(w, h, x, y, 0) =~= Seq::<(usize, usize)>::empty());
        if x + 1 < h {
            cells.push((x + 1, y));
        }
        assert(cells@ =~= ring_prefix(w, h, x, y, 1));
        if x + 1 < h && y + 1 < w {
            cells.push((x + 1, y + 1));
        }
        assert(cells@ =~= ring_prefix(w, h, x, y, 2));
        if y + 1 < w {
            cells.push((x, y + 1));
        }
        assert(cells@ =~= ring_prefix(w, h, x, y, 3));
        if x > 0 && y + 1 < w {
            cells.push((x - 1, y + 1));
        }
        assert(cells@ =~= ring_prefix(w, h, x, y, 4));
        if x > 0 {
            cells.push((x - 1, y));
        }
        assert(cells@ =~= ring_prefix(w, h, x, y, 5));
        if x > 0 && y > 0 {
            cells.push((x - 1, y - 1));
        }
        assert(cells@ =~= ring_prefix(w, h, x, y, 6));
        if y > 0 {
            cells.push((x, y - 1));
        }
        assert(cells@ =~= ring_prefix(w, h, x, y, 7));
        if x + 1 < h && y > 0 {
            cells.push((x + 1, y - 1));
        }
        assert(cells@ =~= ring_prefix(w, h, x, y, 8));
        let mut ring: Vec<bool> = Vec::new();
        let mut i: usize = 0;
        while i < cells.len()
            invariant
                self.wf(),
                w == self.width,
                h == self.height,
                in_grid(w, h, (x, y)),
                cells@ == ring_cells(w, h, x, y),
                i <= cells@.len(),
                ring@ == ring_flags(*self, x, y).subrange(0, i as int),
            decreases cells@.len() - i,
        {
            let (a, b) = cells[i];
            proof {
                assert(in_grid(w, h, cells@[i as int])) by {
                    lemma_ring_in_grid(w, h, x, y, 8, i as int);
                }
            }
            ring.push(self.get(a, b) > 0);
            i = i + 1;
            assert(ring@ =~= ring_flags(*self, x, y).subrange(0, i as int));
        }
        assert(ring@ =~= ring_flags(*self, x, y));
        proof {
            lemma_ring_len(w, h, x, y, 8);
        }
        ring
    }

    /// Checks the ring of the eight cells around `(x, y)` for a shape in which
    /// claiming `(x, y)` may cut the sea in two (more than two changes between
    /// island and non-island along the ring, or an enclosed island). Returns a
    /// sea cell next to `(x, y)` to start a connectivity search from.
    #[verifier::rlimit(100)]
    fn cut_creates_frgments(&self, x: usize, y: usize, island: &mut Island) -> (r: Option<(usize, usize)>)
        requires
            self.wf(),
            in_grid(self.width, self.height, (x, y)),
        ensures
            final(island).id == old(island).id,
            final(island).pos == old(island).pos,
            final(island).size == old(island).size,
            final(island).final_size == old(island).final_size,
            final(island).enclosed == (old(island).enclosed || cut_suspect(*self, x, y, old(island).enclosed)),
            r == cut_start(*self, x, y, old(island).enclosed),
            r is Some ==> final(island).enclosed,
            r matches Some(s) ==> in_grid(self.width, self.height, s) && self.at(s) == 0 && adjacent((x, y), s),
    {
        let h = self.height;
        let w = self.width;
        let ring = self.ring_of(x, y);

        // A corner cell: three cells around it.
        if ring.len() == 3 {
            return None;
        }
        let mut skips: usize = 0;
        let mut k: usize = 1;
        while k < ring.len()
            invariant
                1 <= k <= ring@.len() || ring@.len() == 0,
                ring@.len() <= 8,
                skips <= k,
                ring@.len() > 0 ==> skips == changes(ring@, k as int),
                ring@.len() == 0 ==> skips == 0,
                ring@ == ring_flags(*self, x, y),
            decreases ring@.len() - k,
        {
            if ring[k] != ring[k - 1] {
                skips = skips + 1;
            }
            k = k + 1;
        }
        proof {
            if ring@.len() == 0 {
                assert(changes(ring@, 0) == 0);
            }
        }
        let ghost was = island.enclosed;
        proof {
            assert(ring@.len() != 3);
            assert(skips == changes(ring@, ring@.len() as int));
        }
        if skips > 2 || island.enclosed {
            assert(cut_suspect(*self, x, y, was));
            island.enclosed = true;
            let diagonal = for_valid_diagonal_neighbours(w, h, x, y);
            let mut j: usize = 0;
            while j < diagonal.len()
                invariant
                    self.wf(),
                    w == self.width,
                    h == self.height,
                    in_grid(w, h, (x, y)),
                    diagonal@ == crate::solvers::diag_neighbours(w, h, x, y),
                    j <= diagonal@.len(),
                    island.id == old(island).id,
                    island.pos == old(island).pos,
                    island.size == old(island).size,
                    island.final_size == old(island).final_size,
                    island.enclosed,
                    was == old(island).enclosed,
                    cut_suspect(*self, x, y, was),
                    diag_start(*self, x, y, 0) == diag_start(*self, x, y, j as int),
                decreases diagonal@.len() - j,
            {
                let (a, b) = diagonal[j];
                proof {
                    assert(in_grid(w, h, (a, y)) && in_grid(w, h, (x, b)) && adjacent((x, y), (a, y)) && adjacent((x, y), (x, b)));
                }
                if self.get(a, y) == 0 {
                    return Some((a, y));
                } else if self.get(x, b) == 0 {
                    return Some((x, b));
                }
                j = j + 1;
            }
        }
        None
    }

    /// Number of sea cells reachable from the sea cell `start` through sea
    /// cells.
    #[verifier::rlimit(80)]
    fn dfs(&self, start: (usize, usize)) -> (r: usize)
        requires
            self.wf(),
            in_grid(self.width, self.height, start),
            self.at(start) == 0,
        ensures
            r == component_size(self.width, self.height, self.cells@, start),
    {
        let w = self.width;
        let h = self.height;
        let ghost cells = self.cells@;
        let n = self.cells.len();
        let mut reached: Vec<bool> = Vec::new();
        let mut i: usize = 0;
        while i < n
            invariant
                i <= n,
                reached@.len() == i,
                count_false(reached@, i as int) == i,
                forall|j: int| 0 <= j < i ==> !(#[trigger] reached@[j]),
            decreases n - i,
        {
            let ghost prev = reached@;
            reached.push(false);
            proof {
                lemma_count_false_same(prev, reached@, i as int);
            }
            i = i + 1;
        }
        let s = self.index(start.0, start.1);
        let mut queue: Vec<(usize, usize)> = Vec::new();
        queue.push(start);
        proof {
            lemma_count_false_set(reached@, s as int);
        }
        reached.set(s, true);
        proof {
            assert(sea_path(w, h, cells, start, start, 0));
            assert forall|p: (usize, usize)| in_grid(w, h, p) && #[trigger] reached@[idx(w, p)] implies sea_connected(w, h, cells, start, p) && (queue@.contains(p) || closed(w, h, cells, reached@, p)) by {
                lemma_idx(w, h, p);
                lemma_idx(w, h, start);
                assert(p == start);
                assert(queue@[0] == start);
            }
        }
        let mut num_black: usize = 0;
        while queue.len() > 0
            invariant
                self.wf(),
                w == self.width,
                h == self.height,
                cells == self.cells@,
                reached@.len() == n,
                n == self.cells@.len(),
                queue@.no_duplicates(),
                forall|j: int| 0 <= j < queue@.len() ==> in_grid(w, h, #[trigger] queue@[j]) && reached@[idx(w, queue@[j])],
                forall|p: (usize, usize)| in_grid(w, h, p) && #[trigger] reached@[idx(w, p)] ==> sea_connected(w, h, cells, start, p)
                    && (queue@.contains(p) || closed(w, h, cells, reached@, p)),
                in_grid(w, h, start),
                reached@[idx(w, start)],
                num_black + queue@.len() + count_false(reached@, n as int) == n,
            decreases count_false(reached@, n as int), queue@.len(),
        {
            let ghost q0 = queue@;
            let (x1, y1) = queue.pop().unwrap();
            let ghost popped = (x1, y1);
            proof {
                assert(q0[q0.len() - 1] == popped);
                assert(queue@ =~= q0.subrange(0, q0.len() - 1));
                assert(!queue@.contains(popped)) by {
                    if queue@.contains(popped) {
                        let t = choose|t: int| 0 <= t < queue@.len() && queue@[t] == popped;
                        assert(q0[t] == q0[q0.len() - 1]);
                    }
                }
                lemma_idx(w, h, popped);
            }
            num_black = num_black + 1;
            let nb = for_valid_neighbours(w, h, x1, y1);
            let ghost before = count_false(reached@, n as int);
            let ghost qlen = queue@.len();
            let ghost r0 = reached@;
            let ghost qa = queue@;
            proof {
                lemma_orth_neighbours(w, h, x1, y1);
            }
            let mut k: usize = 0;
            while k < nb.len()
                invariant
                    self.wf(),
                    w == self.width,
                    h == self.height,
                    cells == self.cells@,
                    reached@.len() == n,
                    n == self.cells@.len(),
                    in_grid(w, h, popped),
                    popped == (x1, y1),
                    nb@ == orth_neighbours(w, h, x1, y1),
                    forall|j: int| 0 <= j < nb@.len() ==> in_grid(w, h, #[trigger] nb@[j]) && adjacent(popped, nb@[j]),
                    k <= nb@.len(),
                    sea_connected(w, h, cells, start, popped),
                    in_grid(w, h, start),
                    reached@[idx(w, start)],
                    reached@[idx(w, popped)],
                    !queue@.contains(popped),
                    queue@.no_duplicates(),
                    queue@.len() >= qa.len(),
                    queue@.subrange(0, qa.len() as int) == qa,
                    forall|j: int| 0 <= j < queue@.len() ==> in_grid(w, h, #[trigger] queue@[j]) && reached@[idx(w, queue@[j])],
                    forall|t: int| 0 <= t < n && #[trigger] r0[t] ==> reached@[t],
                    forall|p: (usize, usize)| in_grid(w, h, p) && #[trigger] reached@[idx(w, p)] && !r0[idx(w, p)] ==> sea_connected(w, h, cells, start, p)
                        && queue@.contains(p),
                    forall|j: int| 0 <= j < k && sea_at(w, h, cells, #[trigger] nb@[j]) ==> reached@[idx(w, nb@[j])],
                    queue@.len() + count_false(reached@, n as int) == qlen + before,
                    count_false(reached@, n as int) <= before,
                    queue@.len() > qlen ==> count_false(reached@, n as int) < before,
                decreases nb@.len() - k,
            {
                let (a, b) = nb[k];
                let ghost m = nb@[k as int];
                proof {
                    lemma_idx(w, h, m);
                    lemma_idx(w, h, start);
                    lemma_idx(w, h, popped);
                }
                let j = self.index(a, b);
                if self.cells[j] == 0 && !reached[j] {
                    proof {
                        lemma_count_false_set(reached@, j as int);
                        lemma_sea_step(w, h, cells, start, popped, m);
                        assert(!queue@.contains(m));
                    }
                    let ghost qb = queue@;
                    reached.set(j, true);
                    queue.push((a, b));
                    proof {
                        assert(queue@.subrange(0, qa.len() as int) =~= qb.subrange(0, qa.len() as int));
                        assert forall|p: (usize, usize)| in_grid(w, h, p) && #[trigger] reached@[idx(w, p)] && !r0[idx(w, p)] implies sea_connected(w, h, cells, start, p)
                            && queue@.contains(p) by {
                            lemma_idx(w, h, p);
                            if p == m {
                                assert(queue@[queue@.len() - 1] == m);
                            } else {
                                assert(qb.contains(p));
                                let t = choose|t: int| 0 <= t < qb.len() && qb[t] == p;
                                assert(queue@[t] == p);
                            }
                        }
                        assert forall|j: int| 0 <= j < queue@.len() implies in_grid(w, h, #[trigger] queue@[j]) && reached@[idx(w, queue@[j])] by {
                            if j < qb.len() {
                                assert(queue@[j] == qb[j]);
                                lemma_idx(w, h, qb[j]);
                            }
                        }
                    }
                }
                proof {
                    assert forall|t: int| 0 <= t < k + 1 && sea_at(w, h, cells, #[trigger] nb@[t]) implies reached@[idx(w, nb@[t])] by {
                        lemma_idx(w, h, nb@[t]);
                    }
                }
                k = k + 1;
            }
            proof {
                assert forall|p: (usize, usize)| in_grid(w, h, p) && #[trigger] reached@[idx(w, p)] implies sea_connected(w, h, cells, start, p)
                    && (queue@.contains(p) || closed(w, h, cells, reached@, p)) by {
                    lemma_idx(w, h, p);
                    if !r0[idx(w, p)] {
                    } else if p == popped {
                        assert(closed(w, h, cells, reached@, p));
                    } else {
                        if qa.contains(p) {
                            let t = choose|t: int| 0 <= t < qa.len() && qa[t] == p;
                            assert(queue@.subrange(0, qa.len() as int)[t] == p);
                            assert(queue@[t] == p);
                        } else {
                            assert(q0.contains(p) || closed(w, h, cells, r0, p));
                            if q0.contains(p) {
                                let t = choose|t: int| 0 <= t < q0.len() && q0[t] == p;
                                if t < q0.len() - 1 {
                                    assert(qa[t] == p);
                                }
                            }
                            lemma_closed_grows(w, h, cells, r0, reached@, p);
                        }
                    }
                }
            }
        }
        proof {
            assert forall|p: (usize, usize)| in_grid(w, h, p) && #[trigger] reached@[idx(w, p)] implies closed(w, h, cells, reached@, p) by {}
            assert forall|i: int| 0 <= i < n implies #[trigger] reached@[i] == sea_connected(w, h, cells, start, pos_of(w, i)) by {
                lemma_pos(w, h, i);
                let p = pos_of(w, i);
                if sea_connected(w, h, cells, start, p) {
                    let k = choose|k: nat| #[trigger] sea_path(w, h, cells, start, p, k);
                    lemma_closed_complete(w, h, cells, reached@, start, p, k);
                }
            }
            assert(reached@ =~= Seq::new(n as nat, |i: int| sea_connected(w, h, cells, start, pos_of(w, i))));
            lemma_count_true_false(reached@, n as int);
        }
        num_black
    }

    /// Whether claiming the sea cell `(x, y)` for `island` would split the sea.
    /// The grid is left as it was.
    fn is_river_frgmented(&mut self, x: usize, y: usize, island: &mut Island) -> (r: bool)
        requires
            old(self).wf(),
            in_grid(old(self).width, old(self).height, (x, y)),
            old(self).at((x, y)) == 0,
        ensures
            final(self).cells@ == old(self).cells@,
            final(self).width == old(self).width,
            final(self).height == old(self).height,
            final(self).eval == old(self).eval,
            final(self).best_p == old(self).best_p,
            final(island).id == old(island).id,
            final(island).pos == old(island).pos,
            final(island).size == old(island).size,
            final(island).final_size == old(island).final_size,
            old(island).enclosed ==> final(island).enclosed,
            r ==> sea_split(
                old(self).width,
                old(self).height,
                old(self).cells@.update(idx(old(self).width, (x, y)), old(island).id),
            ),
            r == match cut_start(*old(self), x, y, old(island).enclosed) {
                Some(s) => component_size(
                    old(self).width,
                    old(self).height,
                    old(self).cells@.update(idx(old(self).width, (x, y)), old(island).id),
                    s,
                ) != count_value(
                    old(self).cells@.update(idx(old(self).width, (x, y)), old(island).id),
                    0,
                    old(self).cells@.len() as int,
                ),
                None => false,
            },
            final(island).enclosed == (old(island).enclosed || cut_suspect(*old(self), x, y, old(island).enclosed)),
    {
        match self.cut_creates_frgments(x, y, island) {
            Some(start) => {
                let ghost o = *self;
                self.put(x, y, island.id);
                proof {
                    lemma_idx(o.width, o.height, start);
                    lemma_idx(o.width, o.height, (x, y));
                    assert(self.at(start) == 0);
                }
                let reached_black_cells = self.dfs(start);
                let num_black_cells = self.count_of(0);
                let in_fragments = reached_black_cells != num_black_cells;
                assert(sea_at(self.width, self.height, self.cells@, start));
                assert(in_fragments ==> sea_split(self.width, self.height, self.cells@));
                self.put(x, y, 0);
                proof {
                    lemma_idx(o.width, o.height, (x, y));
                    assert(self.cells@ =~= o.cells@);
                }
                in_fragments
            },
            None => false,
        }
    }

    /// Appends to `queue` the sea neighbours of `(x, y)`, going round from the
    /// direction `start` (`+y`, `-x`, `-y`, `+x`).
    fn add_neighbours(&self, x: usize, y: usize, start: usize, queue: &mut Vec<(usize, usize)>)
        requires
            self.wf(),
            in_grid(self.width, self.height, (x, y)),
            start < 4,
        ensures
            final(queue)@.len() <= old(queue)@.len() + 4,
            final(queue)@.len() >= old(queue)@.len(),
            final(queue)@.subrange(0, old(queue)@.len() as int) == old(queue)@,
            forall|j: int| old(queue)@.len() <= j < final(queue)@.len() ==> in_grid(self.width, self.height, #[trigger] final(queue)@[j])
                && self.at(final(queue)@[j]) == 0 && adjacent((x, y), final(queue)@[j]),
    {
        let ghost q0 = queue@;
        let mut i: usize = 0;
        while i < 4
            invariant
                self.wf(),
                in_grid(self.width, self.height, (x, y)),
                start < 4,
                i <= 4,
                queue@.len() <= q0.len() + i,
                queue@.len() >= q0.len(),
                queue@.subrange(0, q0.len() as int) == q0,
                forall|j: int| q0.len() <= j < queue@.len() ==> in_grid(self.width, self.height, #[trigger] queue@[j])
                    && self.at(queue@[j]) == 0 && adjacent((x, y), queue@[j]),
            decreases 4 - i,
        {
            let dir = (start + i) % 4;
            let ok = if dir == 0 {
                y + 1 < self.width
            } else if dir == 1 {
                x > 0
            } else if dir == 2 {
                y > 0
            } else {
                x + 1 < self.height
            };
            if ok {
                let (a, b) = if dir == 0 {
                    (x, y + 1)
                } else if dir == 1 {
                    (x - 1, y)
                } else if dir == 2 {
                    (x, y - 1)
                } else {
                    (x + 1, y)
                };
                if self.get(a, b) == 0 {
                    let ghost prev = queue@;
                    queue.push((a, b));
                    assert(queue@.subrange(0, q0.len() as int) =~= prev.subrange(0, q0.len() as int));
                }
            }
            i = i + 1;
        }
    }

    pub fn is_solved(&self) -> (r: bool)
        ensures
            r == (self.eval == 0),
    {
        self.eval == 0
    }
}

} // verus!

verus! {

/// A finished ant grid, against the grid of clues `base`: clue cells keep
/// their ids, every cell holds 0 or an id up to `n_islands`, and two
/// neighbouring cells of different islands are both clue cells.
pub open spec fn ant_valid(g: Grid, base: Grid, n_islands: nat) -> bool {
    &&& g.wf()
    &&& g.width == base.width
    &&& g.height == base.height
    &&& forall|i: int| 0 <= i < g.cells@.len() && base.cells@[i] != 0 ==> #[trigger] g.cells@[i] == base.cells@[i]
    &&& forall|i: int| 0 <= i < g.cells@.len() ==> #[trigger] g.cells@[i] <= n_islands
    &&& forall|p: (usize, usize), q: (usize, usize)|
        #![trigger g.at(p), g.at(q), adjacent(p, q)]
        in_grid(g.width, g.height, p) && in_grid(g.width, g.height, q) && adjacent(p, q) && g.at(p) != 0
            && g.at(q) != 0 && g.at(p) != g.at(q) ==> base.at(p) != 0 && base.at(q) != 0
}

/// Every entry is at most `SCALE`.
pub open spec fn bounded(v: Seq<u64>) -> bool {
    forall|i: int| 0 <= i < v.len() ==> #[trigger] v[i] <= SCALE
}

/// Setting one cell to a value other than `v` where it held `v` drops the
/// count of `v` by one; other changes of that cell keep it or raise it.
proof fn lemma_count_value_set(cells: Seq<usize>, j: int, w: usize, v: usize, n: int)
    requires
        0 <= j < cells.len(),
        0 <= n <= cells.len(),
        cells[j] == v,
        w != v,
    ensures
        j < n ==> count_value(cells.update(j, w), v, n) + 1 == count_value(cells, v, n),
        j >= n ==> count_value(cells.update(j, w), v, n) == count_value(cells, v, n),
    decreases n,
{
    if n > 0 {
        lemma_count_value_set(cells, j, w, v, n - 1);
    }
}

/// Claiming a sea cell with no neighbour of another island keeps an ant grid valid.
proof fn lemma_ant_claim(before: Grid, after: Grid, base: Grid, n: nat, c: (usize, usize), id: usize)
    requires
        ant_valid(before, base, n),
        in_grid(before.width, before.height, c),
        before.at(c) == 0,
        1 <= id <= n,
        after.width == before.width,
        after.height == before.height,
        after.cells@ == before.cells@.update(idx(before.width, c), id),
        forall|k: int|
            0 <= k < orth_neighbours(before.width, before.height, c.0, c.1).len() ==> !(#[trigger] before.at(
                orth_neighbours(before.width, before.height, c.0, c.1)[k],
            ) != 0 && before.at(orth_neighbours(before.width, before.height, c.0, c.1)[k]) != id),
    ensures
        ant_valid(after, base, n),
{
    lemma_idx(before.width, before.height, c);
    lemma_orth_neighbours(before.width, before.height, c.0, c.1);
    let nb = orth_neighbours(before.width, before.height, c.0, c.1);
    assert forall|i: int| 0 <= i < after.cells@.len() && base.cells@[i] != 0 implies #[trigger] after.cells@[i] == base.cells@[i] by {
        if i == idx(before.width, c) {
            assert(before.cells@[i] == base.cells@[i]);
        }
    }
    assert forall|i: int| 0 <= i < after.cells@.len() implies #[trigger] after.cells@[i] <= n by {
        if i != idx(before.width, c) {
            assert(before.cells@[i] <= n);
        }
    }
    assert forall|p: (usize, usize), q: (usize, usize)|
        #![trigger after.at(p), after.at(q), adjacent(p, q)]
        in_grid(after.width, after.height, p) && in_grid(after.width, after.height, q) && adjacent(p, q) && after.at(p) != 0
            && after.at(q) != 0 && after.at(p) != after.at(q) implies base.at(p) != 0 && base.at(q) != 0 by {
        lemma_idx(before.width, before.height, p);
        lemma_idx(before.width, before.height, q);
        if p == c {
            assert(nb.contains(q));
            let k = choose|k: int| 0 <= k < nb.len() && nb[k] == q;
            assert(before.at(nb[k]) == after.at(q));
        } else if q == c {
            assert(adjacent(c, p));
            assert(nb.contains(p));
            let k = choose|k: int| 0 <= k < nb.len() && nb[k] == p;
            assert(before.at(nb[k]) == after.at(p));
        } else {
            assert(before.at(p) == after.at(p));
            assert(before.at(q) == after.at(q));
        }
    }
}

/// Counting `u` over an update of index `j` to `w`.
proof fn lemma_count_value_update(cells: Seq<usize>, j: int, w: usize, u: usize, n: int)
    requires
        0 <= j < cells.len(),
        0 <= n <= cells.len(),
    ensures
        count_value(cells.update(j, w), u, n) + (if j < n && cells[j] == u { 1int } else { 0int })
            == count_value(cells, u, n) + (if j < n && w == u { 1int } else { 0int }),
    decreases n,
{
    if n > 0 {
        lemma_count_value_update(cells, j, w, u, n - 1);
    }
}

/// Counts over sequences that agree below `n` agree.
proof fn lemma_count_value_same(a: Seq<usize>, b: Seq<usize>, u: usize, n: int)
    requires
        0 <= n <= a.len(),
        n <= b.len(),
        forall|i: int| 0 <= i < n ==> a[i] == b[i],
    ensures
        count_value(a, u, n) == count_value(b, u, n),
    decreases n,
{
    if n > 0 {
        lemma_count_value_same(a, b, u, n - 1);
    }
}

/// No entry below `n` holds `u`.
proof fn lemma_count_value_none(a: Seq<usize>, u: usize, n: int)
    requires
        0 <= n <= a.len(),
        forall|i: int| 0 <= i < n ==> a[i] != u,
    ensures
        count_value(a, u, n) == 0,
    decreases n,
{
    if n > 0 {
        lemma_count_value_none(a, u, n - 1);
    }
}

/// Every island holds at most as many cells as its clue.
pub open spec fn sizes_ok(cells: Seq<usize>, islands: Seq<Island>) -> bool {
    forall|j: int| 0 <= j < islands.len() ==> #[trigger] count_value(cells, (j + 1) as usize, cells.len() as int) <= islands[j].final_size
}

/// Each of the ids `1..=n` is held by exactly one cell.
pub open spec fn anchors_unique(cells: Seq<usize>, n: nat) -> bool {
    forall|j: int| 0 <= j < n ==> #[trigger] count_value(cells, (j + 1) as usize, cells.len() as int) == 1
}

/// Exponential smoothing of `old` toward `target`, at rate `rate`, all in
/// parts of `SCALE`.
pub open spec fn smooth(old: u64, target: u64, rate: u64) -> u64 {
    (((SCALE - rate) * old + rate * target) / SCALE as int) as u64
}

fn smoothed(old: u64, target: u64, rate: u64) -> (r: u64)
    requires
        old <= SCALE,
        target <= SCALE,
        rate <= SCALE,
    ensures
        r == smooth(old, target, rate),
        r <= SCALE,
{
    assert((SCALE - rate) * old <= (SCALE - rate) * SCALE) by (nonlinear_arith)
        requires old <= SCALE, rate <= SCALE;
    assert(rate * target <= rate * SCALE) by (nonlinear_arith)
        requires target <= SCALE;
    assert((SCALE - rate) * SCALE + rate * SCALE == SCALE * SCALE) by (nonlinear_arith);
    let r = ((SCALE - rate) * old + rate * target) / SCALE;
    assert(r <= SCALE) by (nonlinear_arith)
        requires r == ((SCALE - rate) * old + rate * target) / (SCALE as int), (SCALE - rate) * old + rate * target <= SCALE * SCALE;
    r
}

/// Reward for claiming a cell at squared distance `d2` from its island's clue:
/// `evap / (1 + d2)`, so compact islands are preferred.
pub open spec fn reward(evap: u64, d2: u64) -> u64 {
    (evap as int / (1 + d2) as int) as u64
}

/// Row-major index of `(x, y)` in a grid of `n` cells.
fn flat_index(width: usize, height: usize, n: usize, x: usize, y: usize) -> (r: usize)
    requires
        n == width * height,
        in_grid(width, height, (x, y)),
    ensures
        r == idx(width, (x, y)),
        r < n,
{
    proof {
        lemma_idx(width, height, (x, y));
        assert(x * width <= x * width + y);
    }
    x * width + y
}

/// Claiming nothing keeps an ant grid valid.
proof fn lemma_ant_valid_same(a: Grid, b: Grid, base: Grid, n: nat)
    requires
        ant_valid(a, base, n),
        a.cells@ == b.cells@,
        a.width == b.width,
        a.height == b.height,
    ensures
        ant_valid(b, base, n),
{
    assert forall|p: (usize, usize), q: (usize, usize)|
        #![trigger b.at(p), b.at(q), adjacent(p, q)]
        in_grid(b.width, b.height, p) && in_grid(b.width, b.height, q) && adjacent(p, q) && b.at(p) != 0
            && b.at(q) != 0 && b.at(p) != b.at(q) implies base.at(p) != 0 && base.at(q) != 0 by {
        assert(a.at(p) == b.at(p) && a.at(q) == b.at(q));
    }
}

/// Difference of two coordinates, capped at one million.
pub open spec fn cap_diff(u: usize, v: usize) -> int {
    let d = if u > v { u - v } else { v - u };
    if d > 1_000_000 { 1_000_000 } else { d }
}

/// Squared distance between two cells, each coordinate difference capped at
/// one million.
pub open spec fn dist2(a: (usize, usize), b: (usize, usize)) -> u64 {
    (cap_diff(a.0, b.0) * cap_diff(a.0, b.0) + cap_diff(a.1, b.1) * cap_diff(a.1, b.1)) as u64
}

/// A cell whose pheromone the ant has laid: it belongs to an island that is
/// grown (not pending in `order`), and not to the island `skip` whose clue
/// is still to be taken.
pub open spec fn laid_cell(width: usize, cells: Seq<usize>, order: Seq<usize>, skip: usize, p: (usize, usize)) -> bool {
    let v = cells[idx(width, p)];
    v != 0 && !order.contains((v - 1) as usize) && v != skip
}

/// The pheromone an ant leaves on `p`: smoothed toward the reward for the
/// distance to its island's clue where it was laid, else as in the snapshot.
pub open spec fn laid_pheromone(
    width: usize,
    cells: Seq<usize>,
    snapshot: Seq<u64>,
    islands: Seq<Island>,
    evap: u64,
    rate: u64,
    order: Seq<usize>,
    skip: usize,
    p: (usize, usize),
) -> u64 {
    if laid_cell(width, cells, order, skip, p) {
        smooth(
            snapshot[idx(width, p)],
            reward(evap, dist2(islands[cells[idx(width, p)] - 1].pos, p)),
            rate,
        )
    } else {
        snapshot[idx(width, p)]
    }
}

fn distance_sq(a: (usize, usize), b: (usize, usize)) -> (r: u64)
    ensures
        r <= 2_000_000_000_000,
        r == dist2(a, b),
{
    let dx = if a.0 > b.0 { a.0 - b.0 } else { b.0 - a.0 };
    let dy = if a.1 > b.1 { a.1 - b.1 } else { b.1 - a.1 };
    let dx = if dx > 1_000_000 { 1_000_000u64 } else { dx as u64 };
    let dy = if dy > 1_000_000 { 1_000_000u64 } else { dy as u64 };
    assert(dx * dx <= 1_000_000_000_000) by (nonlinear_arith)
        requires dx <= 1_000_000;
    assert(dy * dy <= 1_000_000_000_000) by (nonlinear_arith)
        requires dy <= 1_000_000;
    dx * dx + dy * dy
}

/// The ant colony optimiser.
#[derive(Debug)]
pub struct AntSolver {
    path: String,
    ants: usize,
    l_evap: u64,
    g_evap: u64,
    evap: u64,
    greedines: u64,
    bve: u64,
    phermons: Vec<u64>,
    grid: Grid,
    solution: Grid,
    islands: Vec<Island>,
    iteration: usize,
    explain: String,
    pub verbose: bool,
    rng: Rng,
    /// Candidates are drawn uniformly and no pheromone is laid.
    uniform: bool,
}

/// Display code of a candidate cell: -1 for sea, the clue on a clue cell,
/// -2 on another island cell.
pub open spec fn display_code(v: usize, base: usize, islands: Seq<Island>) -> i32 {
    if v == 0 {
        -1i32
    } else if base != 0 {
        islands[base - 1].final_size as i32
    } else {
        -2i32
    }
}

/// The `k`-th possible cell around `(x, y)`, going round: `+x`, `++`, `+y`,
/// `-+`, `-x`, `--`, `-y`, `+-`; empty where it is off the grid.
pub open spec fn ring_seg(width: usize, height: usize, x: usize, y: usize, k: int) -> Seq<(usize, usize)> {
    let x1 = (x + 1) as usize;
    let y1 = (y + 1) as usize;
    let x0 = (x - 1) as usize;
    let y0 = (y - 1) as usize;
    if k == 0 {
        if x + 1 < height { seq![(x1, y)] } else { seq![] }
    } else if k == 1 {
        if x + 1 < height && y + 1 < width { seq![(x1, y1)] } else { seq![] }
    } else if k == 2 {
        if y + 1 < width { seq![(x, y1)] } else { seq![] }
    } else if k == 3 {
        if x > 0 && y + 1 < width { seq![(x0, y1)] } else { seq![] }
    } else if k == 4 {
        if x > 0 { seq![(x0, y)] } else { seq![] }
    } else if k == 5 {
        if x > 0 && y > 0 { seq![(x0, y0)] } else { seq![] }
    } else if k == 6 {
        if y > 0 { seq![(x, y0)] } else { seq![] }
    } else if k == 7 {
        if x + 1 < height && y > 0 { seq![(x1, y0)] } else { seq![] }
    } else {
        seq![]
    }
}

/// The first `k` segments of the ring.
pub open spec fn ring_prefix(width: usize, height: usize, x: usize, y: usize, k: int) -> Seq<(usize, usize)>
    decreases k,
{
    if k <= 0 {
        seq![]
    } else {
        ring_prefix(width, height, x, y, k - 1) + ring_seg(width, height, x, y, k - 1)
    }
}

/// The in-bounds cells around `(x, y)`, going round.
pub open spec fn ring_cells(width: usize, height: usize, x: usize, y: usize) -> Seq<(usize, usize)> {
    ring_prefix(width, height, x, y, 8)
}

proof fn lemma_ring_len(width: usize, height: usize, x: usize, y: usize, k: int)
    requires
        0 <= k,
    ensures
        ring_prefix(width, height, x, y, k).len() <= k,
    decreases k,
{
    if k > 0 {
        lemma_ring_len(width, height, x, y, k - 1);
    }
}

proof fn lemma_ring_in_grid(width: usize, height: usize, x: usize, y: usize, k: int, i: int)
    requires
        in_grid(width, height, (x, y)),
        0 <= k <= 8,
        0 <= i < ring_prefix(width, height, x, y, k).len(),
    ensures
        in_grid(width, height, ring_prefix(width, height, x, y, k)[i]),
    decreases k,
{
    if k > 0 {
        let p = ring_prefix(width, height, x, y, k - 1);
        if i < p.len() {
            lemma_ring_in_grid(width, height, x, y, k - 1, i);
        }
    }
}

/// Which cells of the ring belong to an island.
pub open spec fn ring_flags(g: Grid, x: usize, y: usize) -> Seq<bool> {
    Seq::new(ring_cells(g.width, g.height, x, y).len(), |i: int| g.at(ring_cells(g.width, g.height, x, y)[i]) > 0)
}

/// Number of changes between neighbouring entries of `f` below index `k`.
pub open spec fn changes(f: Seq<bool>, k: int) -> int
    decreases k,
{
    if k <= 1 {
        0
    } else {
        changes(f, k - 1) + if f[k - 1] != f[k - 2] { 1int } else { 0int }
    }
}

/// The first diagonal neighbour, from index `j` on, with a sea cell between
/// it and `(x, y)` (the one in its row first): that sea cell.
pub open spec fn diag_start(g: Grid, x: usize, y: usize, j: int) -> Option<(usize, usize)>
    decreases diag_neighbours(g.width, g.height, x, y).len() - j,
{
    let d = diag_neighbours(g.width, g.height, x, y);
    if j < 0 || j >= d.len() {
        None
    } else if g.at((d[j].0, y)) == 0 {
        Some((d[j].0, y))
    } else if g.at((x, d[j].1)) == 0 {
        Some((x, d[j].1))
    } else {
        diag_start(g, x, y, j + 1)
    }
}

/// The ring of `(x, y)` may be cut: it has more than three cells and either
/// more than two changes or an island already enclosed.
pub open spec fn cut_suspect(g: Grid, x: usize, y: usize, enclosed: bool) -> bool {
    let f = ring_flags(g, x, y);
    f.len() != 3 && (changes(f, f.len() as int) > 2 || enclosed)
}

/// Where the connectivity search starts, if claiming `(x, y)` is suspect.
pub open spec fn cut_start(g: Grid, x: usize, y: usize, enclosed: bool) -> Option<(usize, usize)> {
    if cut_suspect(g, x, y, enclosed) {
        diag_start(g, x, y, 0)
    } else {
        None
    }
}

/// `p` is a cell of the grid holding `v`.
pub open spec fn holds(width: usize, height: usize, cells: Seq<usize>, v: usize, p: (usize, usize)) -> bool {
    in_grid(width, height, p) && cells[idx(width, p)] == v
}

/// `p` is reached from `a` in at most `k` steps between neighbouring cells
/// holding `v`.
pub open spec fn island_path(width: usize, height: usize, cells: Seq<usize>, v: usize, a: (usize, usize), p: (usize, usize), k: nat) -> bool
    decreases k,
{
    if k == 0 {
        p == a && holds(width, height, cells, v, a)
    } else {
        island_path(width, height, cells, v, a, p, (k - 1) as nat) || (holds(width, height, cells, v, p) && exists|j: int|
            0 <= j < orth_neighbours(width, height, p.0, p.1).len() && island_path(
                width,
                height,
                cells,
                v,
                a,
                #[trigger] orth_neighbours(width, height, p.0, p.1)[j],
                (k - 1) as nat,
            ))
    }
}

/// Every island cell is joined to its island's clue through cells of that island.
pub open spec fn islands_connected(width: usize, height: usize, cells: Seq<usize>, islands: Seq<Island>) -> bool {
    forall|p: (usize, usize)|
        #![trigger cells[idx(width, p)]]
        in_grid(width, height, p) && cells[idx(width, p)] != 0 && cells[idx(width, p)] <= islands.len() ==> exists|k: nat|
            #[trigger] island_path(width, height, cells, cells[idx(width, p)], islands[cells[idx(width, p)] - 1].pos, p, k)
}

/// Some neighbour of `q` holds `v`.
pub open spec fn touches(width: usize, height: usize, cells: Seq<usize>, v: usize, q: (usize, usize)) -> bool {
    exists|j: int|
        0 <= j < orth_neighbours(width, height, q.0, q.1).len() && #[trigger] holds(
            width,
            height,
            cells,
            v,
            orth_neighbours(width, height, q.0, q.1)[j],
        )
}

/// Paths through cells holding `v` survive a change of a cell not holding `v`.
proof fn lemma_island_path_update(
    width: usize,
    height: usize,
    cells: Seq<usize>,
    v: usize,
    a: (usize, usize),
    p: (usize, usize),
    k: nat,
    ci: int,
    w: usize,
)
    requires
        island_path(width, height, cells, v, a, p, k),
        cells.len() == width * height,
        0 <= ci < cells.len(),
        cells[ci] != v,
    ensures
        island_path(width, height, cells.update(ci, w), v, a, p, k),
    decreases k,
{
    let nc = cells.update(ci, w);
    if k == 0 {
        lemma_idx(width, height, a);
    } else {
        if island_path(width, height, cells, v, a, p, (k - 1) as nat) {
            lemma_island_path_update(width, height, cells, v, a, p, (k - 1) as nat, ci, w);
        } else {
            lemma_idx(width, height, p);
            let nb = orth_neighbours(width, height, p.0, p.1);
            let j = choose|j: int| 0 <= j < nb.len() && island_path(width, height, cells, v, a, #[trigger] nb[j], (k - 1) as nat);
            lemma_island_path_update(width, height, cells, v, a, nb[j], (k - 1) as nat, ci, w);
            assert(holds(width, height, nc, v, p));
            assert(island_path(width, height, nc, v, a, nb[j], (k - 1) as nat));
        }
    }
}

/// A value held exactly once is held at one index only.
proof fn lemma_count_one(cells: Seq<usize>, v: usize, n: int, i: int, j: int)
    requires
        0 <= i < n <= cells.len(),
        0 <= j < n,
        count_value(cells, v, n) == 1,
        cells[i] == v,
        cells[j] == v,
    ensures
        i == j,
    decreases n,
{
    lemma_count_value_pos(cells, v, n - 1, if i < n - 1 { i } else { j });
    if i < n - 1 && j < n - 1 {
        lemma_count_one(cells, v, n - 1, i, j);
    } else if i < n - 1 || j < n - 1 {
        assert(false);
    }
}

proof fn lemma_count_value_pos(cells: Seq<usize>, v: usize, n: int, i: int)
    ensures
        0 <= i < n <= cells.len() && cells[i] == v ==> count_value(cells, v, n) >= 1,
    decreases n,
{
    if n > 0 && 0 <= i < n <= cells.len() {
        if i < n - 1 {
            lemma_count_value_pos(cells, v, n - 1, i);
        }
    }
}

/// A grid holding only the clues is connected: each island is its clue.
proof fn lemma_clues_connected(g: Grid, islands: Seq<Island>)
    requires
        g.wf(),
        islands_of(islands, g),
        anchors_unique(g.cells@, islands.len() as nat),
    ensures
        islands_connected(g.width, g.height, g.cells@, islands),
{
    assert forall|p: (usize, usize)|
        #![trigger g.cells@[idx(g.width, p)]]
        in_grid(g.width, g.height, p) && g.cells@[idx(g.width, p)] != 0 && g.cells@[idx(g.width, p)] <= islands.len() implies exists|k: nat|
            #[trigger] island_path(g.width, g.height, g.cells@, g.cells@[idx(g.width, p)], islands[g.cells@[idx(g.width, p)] - 1].pos, p, k) by {
        let v = g.cells@[idx(g.width, p)];
        let j = v - 1;
        let a = islands[j].pos;
        lemma_idx(g.width, g.height, p);
        lemma_idx(g.width, g.height, a);
        assert(g.at(a) == j + 1);
        assert(count_value(g.cells@, ((j as int) + 1) as usize, g.cells@.len() as int) == 1);
        lemma_count_one(g.cells@, v, g.cells@.len() as int, idx(g.width, p), idx(g.width, a));
        assert(p == a);
        assert(island_path(g.width, g.height, g.cells@, v, a, p, 0));
    }
}

/// Claiming for island `id` a sea cell next to that island keeps every
/// island joined to its clue.
proof fn lemma_connected_claim(
    width: usize,
    height: usize,
    before: Seq<usize>,
    islands: Seq<Island>,
    c: (usize, usize),
    id: usize,
)
    requires
        before.len() == width * height,
        islands_connected(width, height, before, islands),
        in_grid(width, height, c),
        before[idx(width, c)] == 0,
        touches(width, height, before, id, c),
        1 <= id <= islands.len(),
    ensures
        islands_connected(width, height, before.update(idx(width, c), id), islands),
{
    let after = before.update(idx(width, c), id);
    let ci = idx(width, c);
    lemma_idx(width, height, c);
    assert forall|p: (usize, usize)|
        #![trigger after[idx(width, p)]]
        in_grid(width, height, p) && after[idx(width, p)] != 0 && after[idx(width, p)] <= islands.len() implies exists|k: nat|
            #[trigger] island_path(width, height, after, after[idx(width, p)], islands[after[idx(width, p)] - 1].pos, p, k) by {
        lemma_idx(width, height, p);
        let a = islands[id - 1].pos;
        if p == c {
            let nb = orth_neighbours(width, height, c.0, c.1);
            let j = choose|j: int| 0 <= j < nb.len() && #[trigger] holds(width, height, before, id, nb[j]);
            let m = nb[j];
            lemma_idx(width, height, m);
            assert(before[idx(width, m)] == id);
            let k = choose|k: nat| #[trigger] island_path(width, height, before, before[idx(width, m)], islands[before[idx(width, m)] - 1].pos, m, k);
            lemma_island_path_update(width, height, before, id, a, m, k, ci, id);
            assert(holds(width, height, after, id, c));
            assert(island_path(width, height, after, id, a, c, k + 1));
        } else {
            assert(idx(width, p) != ci);
            let v = before[idx(width, p)];
            let k = choose|k: nat| #[trigger] island_path(width, height, before, before[idx(width, p)], islands[before[idx(width, p)] - 1].pos, p, k);
            lemma_island_path_update(width, height, before, v, islands[v - 1].pos, p, k, ci, id);
        }
    }
}

/// A neighbour holding `v` still holds it after a sea cell is claimed.
proof fn lemma_touch_keep(width: usize, height: usize, before: Seq<usize>, ci: int, id: usize, v: usize, q: (usize, usize))
    requires
        before.len() == width * height,
        0 <= ci < before.len(),
        before[ci] == 0,
        v != 0,
        touches(width, height, before, v, q),
    ensures
        touches(width, height, before.update(ci, id), v, q),
{
    let nb = orth_neighbours(width, height, q.0, q.1);
    let j = choose|j: int| 0 <= j < nb.len() && #[trigger] holds(width, height, before, v, nb[j]);
    lemma_idx(width, height, nb[j]);
    assert(holds(width, height, before.update(ci, id), v, nb[j]));
}

/// A count, capped at `usize::MAX`.
pub open spec fn capped(n: nat) -> usize {
    if n < usize::MAX {
        n as usize
    } else {
        usize::MAX
    }
}

/// `a + b`, saturating at `usize::MAX`.
pub open spec fn sat_add(a: usize, b: usize) -> usize {
    if a + b <= usize::MAX {
        (a + b) as usize
    } else {
        usize::MAX
    }
}

/// The global pheromone update: each island cell of `best` moves toward
/// the quality `bp` at rate `g`; sea cells keep their value.
pub open spec fn global_update(ph: Seq<u64>, best: Seq<usize>, bp: u64, g: u64) -> Seq<u64> {
    Seq::new(ph.len(), |i: int| if best[i] != 0 { smooth(ph[i], bp, g) } else { ph[i] })
}

/// Clamps a rate given in parts of `SCALE` into `lo..=SCALE`.
pub open spec fn clamp_rate(v: u64, lo: u64) -> u64 {
    if v < lo {
        lo
    } else if v > SCALE {
        SCALE
    } else {
        v
    }
}

fn clamped(v: u64, lo: u64) -> (r: u64)
    ensures
        r == clamp_rate(v, lo),
{
    if v < lo {
        lo
    } else if v > SCALE {
        SCALE
    } else {
        v
    }
}

/// The islands that `data` describes: one per positive value, numbered from
/// 1 in row-major order.
pub open spec fn islands_of(islands: Seq<Island>, base: Grid) -> bool {
    forall|j: int|
        0 <= j < islands.len() ==> {
            &&& (#[trigger] islands[j]).id == j + 1
            &&& in_grid(base.width, base.height, islands[j].pos)
            &&& base.at(islands[j].pos) == j + 1
            &&& islands[j].size == 0
            &&& 1 <= islands[j].final_size <= 0x7fff_ffff
        }
}

impl AntSolver {
    pub closed spec fn wf(&self) -> bool {
        &&& self.grid.wf()
        &&& ant_valid(self.solution, self.grid, self.islands@.len() as nat)
        &&& self.phermons@.len() == self.grid.cells@.len()
        &&& bounded(self.phermons@)
        &&& self.l_evap <= SCALE
        &&& self.g_evap <= SCALE
        &&& self.evap <= SCALE
        &&& self.greedines <= SCALE
        &&& self.bve <= SCALE
        &&& self.solution.best_p <= SCALE
        &&& islands_of(self.islands@, self.grid)
        &&& forall|i: int| 0 <= i < self.grid.cells@.len() ==> #[trigger] self.grid.cells@[i] <= self.islands@.len()
        &&& anchors_unique(self.grid.cells@, self.islands@.len() as nat)
        &&& sizes_ok(self.solution.cells@, self.islands@)
        &&& self.solution.eval == capped(fitness(self.solution.cells@, self.solution.width, self.solution.height, self.islands@))
        &&& islands_connected(self.solution.width, self.solution.height, self.solution.cells@, self.islands@)
    }

    /// Candidates are drawn uniformly and no pheromone is laid.
    pub closed spec fn is_uniform(&self) -> bool {
        self.uniform
    }

    /// The rates, in parts of `SCALE`: local and global evaporation, the
    /// starting pheromone (also the reward scale), greediness and best-value
    /// evaporation.
    pub closed spec fn rates(&self) -> (u64, u64, u64, u64, u64) {
        (self.l_evap, self.g_evap, self.evap, self.greedines, self.bve)
    }

    /// The file name and the explanation shown, where explanations are on.
    pub closed spec fn shown_text(&self) -> (Seq<char>, Seq<char>) {
        (self.path@, if self.verbose { self.explain@ } else { Seq::<char>::empty() })
    }

    /// The best candidate found so far.
    pub closed spec fn best(&self) -> Grid {
        self.solution
    }

    /// The clues, as a grid of island ids.
    pub closed spec fn base(&self) -> Grid {
        self.grid
    }

    pub closed spec fn island_list(&self) -> Seq<Island> {
        self.islands@
    }

    pub closed spec fn iteration_spec(&self) -> usize {
        self.iteration
    }

    pub closed spec fn ants_spec(&self) -> usize {
        self.ants
    }

    pub closed spec fn pheromones(&self) -> Seq<u64> {
        self.phermons@
    }

    /// A colony of `ants` ants on the puzzle. The rates are in parts of
    /// `SCALE` and are clamped into range: `local_evap`, `global_evap`, `evap`
    /// (also the starting pheromone) and `greedines` into `0..=SCALE`, `bve`
    /// into `SCALE / 1000..=SCALE`. Randomness comes from the operating system.
    pub fn new(
        ants: usize,
        local_evap: u64,
        global_evap: u64,
        evap: u64,
        greedines: u64,
        bve: u64,
        nurikabe: Nurikabe,
    ) -> (r: Self)
        requires
            nurikabe.well_formed(),
        ensures
            r.wf(),
            r.ants_spec() == ants,
            r.iteration_spec() == 0,
            r.base().width == nurikabe.width,
            r.base().height == nurikabe.height,
            forall|i: int| 0 <= i < nurikabe.data@.len() ==> (#[trigger] r.base().cells@[i] == 0) == (nurikabe.data@[i] <= 0),
            r.best().cells@ == r.base().cells@,
            r.best().eval == capped(fitness(r.best().cells@, r.best().width, r.best().height, r.island_list())),
            r.pheromones() == Seq::new(nurikabe.data@.len(), |i: int| clamp_rate(evap, 0)),
            r.rates() == (clamp_rate(local_evap, 0), clamp_rate(global_evap, 0), clamp_rate(evap, 0), clamp_rate(greedines, 0), clamp_rate(bve, SCALE / 1000)),
            !r.is_uniform(),
            islands_of(r.island_list(), r.base()),
            forall|j: int| 0 <= j < r.island_list().len() ==> #[trigger] r.island_list()[j].final_size == nurikabe.data@[idx(nurikabe.width, r.island_list()[j].pos)],
            forall|j: int, k: int| 0 <= j < k < r.island_list().len() ==> idx(nurikabe.width, #[trigger] r.island_list()[j].pos) < idx(nurikabe.width, #[trigger] r.island_list()[k].pos),
            forall|i: int| 0 <= i < nurikabe.data@.len() && nurikabe.data@[i] > 0 ==> #[trigger] r.base().cells@[i] >= 1 && idx(nurikabe.width, r.island_list()[r.base().cells@[i] - 1].pos) == i,
    {
        let width = nurikabe.width;
        let height = nurikabe.height;
        let data = nurikabe.data;
        let n = data.len();
        let evap = clamped(evap, 0);
        let mut islands: Vec<Island> = Vec::new();
        let mut cells: Vec<usize> = Vec::new();
        let mut phermons: Vec<u64> = Vec::new();
        let mut i: usize = 0;
        let mut x: usize = 0;
        let mut y: usize = 0;
        if n > 0 {
            assert(width > 0 && height > 0) by (nonlinear_arith)
                requires n == width * height, n > 0;
        }
        while i < n
            invariant
                n == data@.len(),
                n == width * height,
                i <= n,
                i == x * width + y,
                i < n ==> x < height && y < width,
                cells@.len() == i,
                phermons@ == Seq::new(i as nat, |j: int| evap),
                evap <= SCALE,
                islands@.len() <= i,
                forall|j: int| 0 <= j < i ==> (#[trigger] cells@[j] == 0) == (data@[j] <= 0),
                forall|j: int| 0 <= j < i ==> #[trigger] cells@[j] <= islands@.len(),
                forall|j: int| 0 <= j < islands@.len() ==> #[trigger] count_value(cells@, (j + 1) as usize, i as int) == 1,
                forall|j: int| 0 <= j < islands@.len() ==> #[trigger] islands@[j].final_size == data@[idx(width, islands@[j].pos)],
                forall|j: int, k: int| 0 <= j < k < islands@.len() ==> idx(width, #[trigger] islands@[j].pos) < idx(width, #[trigger] islands@[k].pos),
                forall|t: int| 0 <= t < i && data@[t] > 0 ==> #[trigger] cells@[t] >= 1 && idx(width, islands@[cells@[t] - 1].pos) == t,
                forall|j: int|
                    0 <= j < islands@.len() ==> {
                        &&& (#[trigger] islands@[j]).id == j + 1
                        &&& in_grid(width, height, islands@[j].pos)
                        &&& idx(width, islands@[j].pos) < i
                        &&& cells@[idx(width, islands@[j].pos)] == j + 1
                        &&& islands@[j].size == 0
                        &&& 1 <= islands@[j].final_size <= 0x7fff_ffff
                    },
            decreases n - i,
        {
            let val = data[i];
            proof {
                lemma_idx(width, height, (x, y));
            }
            let ghost c0 = cells@;
            let ghost nisl = islands@.len();
            if val > 0 {
                let id = islands.len() + 1;
                islands.push(Island::new(id, (x, y), 0, val as usize));
                cells.push(id);
            } else {
                cells.push(0);
            }
            proof {
                assert forall|j: int| 0 <= j < islands@.len() implies #[trigger] count_value(cells@, (j + 1) as usize, i + 1) == 1 by {
                    lemma_count_value_same(c0, cells@, (j + 1) as usize, i as int);
                    if j == nisl {
                        lemma_count_value_none(c0, (j + 1) as usize, i as int);
                    }
                }
            }
            phermons.push(evap);
            assert(phermons@ =~= Seq::new((i + 1) as nat, |j: int| evap));
            i = i + 1;
            y = y + 1;
            if y == width {
                y = 0;
                x = x + 1;
                assert(i == x * width) by (nonlinear_arith)
                    requires i == (x - 1) * width + width;
            }
            proof {
                if i < n && x >= height {
                    assert(x * width + y >= width * height) by (nonlinear_arith)
                        requires x >= height, y >= 0, width >= 0;
                    assert(false);
                }
            }
        }
        let grid = Grid::new(width, height, cells);
        let mut solution = grid.copy();
        proof {
            assert(islands_of(islands@, grid));
            assert(anchors_unique(grid.cells@, islands@.len() as nat));
            lemma_clues_connected(grid, islands@);
        }
        let _ = solution.evaluate(&islands);
        solution.best_p = 0;
        proof {
            assert(cells@.len() == n);
        }
        let r = AntSolver {
            path: nurikabe.path,
            ants,
            l_evap: clamped(local_evap, 0),
            g_evap: clamped(global_evap, 0),
            evap,
            greedines: clamped(greedines, 0),
            bve: clamped(bve, SCALE / 1000),
            phermons,
            grid,
            solution,
            islands,
            iteration: 0,
            explain: String::new(),
            verbose: false,
            rng: Rng::from_os(),
            uniform: false,
        };
        proof {
            assert forall|p: (usize, usize), q: (usize, usize)|
                #![trigger r.solution.at(p), r.solution.at(q), adjacent(p, q)]
                in_grid(width, height, p) && in_grid(width, height, q) && adjacent(p, q) && r.solution.at(p) != 0
                    && r.solution.at(q) != 0 && r.solution.at(p) != r.solution.at(q) implies r.grid.at(p) != 0 && r.grid.at(q) != 0 by {}
            assert(r.phermons@ =~= Seq::new(n as nat, |i: int| clamp_rate(evap, 0)));
        }
        r
    }

    /// The index of the candidate with the highest pheromone (the first one
    /// on a tie; 0 where all are 0).
    fn pick_greedy(queue: &Vec<(usize, usize)>, ph: &Vec<u64>, width: usize, height: usize) -> (r: usize)
        requires
            queue@.len() > 0,
            ph@.len() == width * height,
            forall|j: int| 0 <= j < queue@.len() ==> in_grid(width, height, #[trigger] queue@[j]),
        ensures
            r < queue@.len(),
            forall|j: int| 0 <= j < queue@.len() ==> ph@[idx(width, #[trigger] queue@[j])] <= ph@[idx(width, queue@[r as int])]
                || ph@[idx(width, queue@[r as int])] == 0 && ph@[idx(width, queue@[j])] == 0,
    {
        let mut pick: u64 = 0;
        let mut index: usize = 0;
        let mut i: usize = 0;
        while i < queue.len()
            invariant
                queue@.len() > 0,
                ph@.len() == width * height,
                forall|j: int| 0 <= j < queue@.len() ==> in_grid(width, height, #[trigger] queue@[j]),
                i <= queue@.len(),
                index < queue@.len(),
                index < i || (i == 0 && index == 0 && pick == 0),
                i > 0 ==> pick == 0 || pick == ph@[idx(width, queue@[index as int])],
                i > 0 && pick == 0 ==> index == 0,
                forall|j: int| 0 <= j < i ==> ph@[idx(width, #[trigger] queue@[j])] <= pick,
            decreases queue@.len() - i,
        {
            let (a, b) = queue[i];
            let v = ph[flat_index(width, height, ph.len(), a, b)];
            if v > pick {
                pick = v;
                index = i;
            }
            i = i + 1;
        }
        proof {
            if pick == 0 {
                assert(index == 0);
            }
        }
        index
    }

    /// Roulette-wheel selection: an index drawn with probability proportional
    /// to its pheromone; the last index where the draw falls past the end.
    fn pick_roulette(&self, rng: &mut Rng, queue: &Vec<(usize, usize)>, ph: &Vec<u64>) -> (r: usize)
        requires
            self.wf(),
            queue@.len() > 0,
            ph@.len() == self.grid.cells@.len(),
            bounded(ph@),
            forall|j: int| 0 <= j < queue@.len() ==> in_grid(self.grid.width, self.grid.height, #[trigger] queue@[j]),
        ensures
            r < queue@.len(),
            weight_sum(queue@, ph@, self.grid.width, queue@.len() as int) == 0 ==> r == queue@.len() - 1,
            weight_sum(queue@, ph@, self.grid.width, queue@.len() as int) > 0 ==> exists|draw: int|
                0 <= draw < weight_sum(queue@, ph@, self.grid.width, queue@.len() as int) && #[trigger] roulette_choice(
                    queue@,
                    ph@,
                    self.grid.width,
                    draw,
                    r as int,
                ),
    {
        let width = self.grid.width;
        let height = self.grid.height;
        let mut sum: u128 = 0;
        let mut i: usize = 0;
        while i < queue.len()
            invariant
                ph@.len() == width * height,
                bounded(ph@),
                forall|j: int| 0 <= j < queue@.len() ==> in_grid(width, height, #[trigger] queue@[j]),
                i <= queue@.len(),
                sum <= i * SCALE,
                sum == weight_sum(queue@, ph@, width, i as int),
            decreases queue@.len() - i,
        {
            let (a, b) = queue[i];
            sum = sum + ph[flat_index(width, height, ph.len(), a, b)] as u128;
            i = i + 1;
        }
        let last = queue.len() - 1;
        if sum == 0 {
            return last;
        }
        let v = rng.next_u32() as u128;
        assert(v * sum <= 0xffff_ffff * (0xffff_ffff_ffff_ffff * SCALE)) by (nonlinear_arith)
            requires v <= 0xffff_ffff, sum <= 0xffff_ffff_ffff_ffff * SCALE;
        let draw = (v * sum) / 0x1_0000_0000u128;
        assert(draw < sum) by (nonlinear_arith)
            requires draw == (v * sum) / 0x1_0000_0000, v <= 0xffff_ffff, sum > 0;
        roulette_index(queue, ph, width, height, draw)
    }

    /// One ant: grows every island from its clue, in a random order of the
    /// islands, guided by a private copy of the pheromones `snapshot`.
    /// Candidates that would touch another island or split the sea are
    /// passed over.
    #[verifier::rlimit(80)]
    fn construct(&self, rng: &mut Rng, snapshot: &Vec<u64>) -> (r: (Grid, Vec<u64>))
        requires
            self.wf(),
            snapshot@.len() == self.grid.cells@.len(),
            bounded(snapshot@),
        ensures
            self.wf(),
            ant_valid(r.0, self.grid, self.islands@.len() as nat),
            sizes_ok(r.0.cells@, self.islands@),
            islands_connected(r.0.width, r.0.height, r.0.cells@, self.islands@),
            forall|p: (usize, usize)|
                in_grid(self.grid.width, self.grid.height, p) ==> #[trigger] r.1@[idx(self.grid.width, p)] == if r.0.at(p) != 0 {
                    smooth(snapshot@[idx(self.grid.width, p)], reward(self.evap, dist2(self.islands@[r.0.at(p) - 1].pos, p)), self.l_evap)
                } else {
                    snapshot@[idx(self.grid.width, p)]
                },
            r.1@.len() == self.grid.cells@.len(),
            forall|i: int| 0 <= i < r.1@.len() && #[trigger] r.1@[i] != snapshot@[i] ==> r.0.cells@[i] != 0,
            bounded(r.1@),
    {
        let width = self.grid.width;
        let height = self.grid.height;
        let n_islands = self.islands.len();
        let mut k_grid = self.grid.copy();
        proof {
            lemma_clues_connected(self.grid, self.islands@);
        }
        let mut k_ph: Vec<u64> = Vec::new();
        let mut i: usize = 0;
        while i < snapshot.len()
            invariant
                i <= snapshot@.len(),
                k_ph@ == snapshot@.subrange(0, i as int),
            decreases snapshot@.len() - i,
        {
            k_ph.push(snapshot[i]);
            i = i + 1;
            assert(k_ph@ =~= snapshot@.subrange(0, i as int));
        }
        assert(k_ph@ =~= snapshot@);
        let mut order: Vec<usize> = Vec::new();
        let mut j: usize = 0;
        while j < n_islands
            invariant
                j <= n_islands,
                order@ == Seq::new(j as nat, |t: int| t as usize),
            decreases n_islands - j,
        {
            order.push(j);
            j = j + 1;
            assert(order@ =~= Seq::new(j as nat, |t: int| t as usize));
        }
        proof {
            assert(order@.no_duplicates());
            assert forall|t: int| 0 <= t < n_islands implies #[trigger] order@.contains(t as usize) by {
                assert(order@[t] == t as usize);
            }
        }
        proof {
            assert forall|p: (usize, usize), q: (usize, usize)|
                #![trigger k_grid.at(p), k_grid.at(q), adjacent(p, q)]
                in_grid(width, height, p) && in_grid(width, height, q) && adjacent(p, q) && k_grid.at(p) != 0
                    && k_grid.at(q) != 0 && k_grid.at(p) != k_grid.at(q) implies self.grid.at(p) != 0 && self.grid.at(q) != 0 by {}
        }
        proof {
            assert forall|p: (usize, usize)| in_grid(width, height, p) implies #[trigger] k_ph@[idx(width, p)] == laid_pheromone(width, k_grid.cells@, snapshot@, self.islands@, self.evap, self.l_evap, order@, 0, p) by {
                lemma_idx(width, height, p);
                let v = k_grid.cells@[idx(width, p)];
                if v != 0 {
                    assert(v <= n_islands);
                    assert(order@.contains((v - 1) as usize));
                }
            }
        }
        while order.len() > 0
            invariant
                self.wf(),
                width == self.grid.width,
                height == self.grid.height,
                n_islands == self.islands@.len(),
                forall|t: int| 0 <= t < order@.len() ==> #[trigger] order@[t] < n_islands,
                order@.no_duplicates(),
                forall|t: int| 0 <= t < n_islands ==> {
                    &&& order@.contains(t as usize) ==> #[trigger] count_value(k_grid.cells@, (t + 1) as usize, k_grid.cells@.len() as int) == 1
                    &&& !order@.contains(t as usize) ==> count_value(k_grid.cells@, (t + 1) as usize, k_grid.cells@.len() as int) <= self.islands@[t].final_size
                },
                ant_valid(k_grid, self.grid, n_islands as nat),
                k_ph@.len() == self.grid.cells@.len(),
                bounded(k_ph@),
                snapshot@.len() == k_ph@.len(),
                forall|i: int| 0 <= i < k_ph@.len() && #[trigger] k_ph@[i] != snapshot@[i] ==> k_grid.cells@[i] != 0,
                islands_connected(width, height, k_grid.cells@, self.islands@),
                forall|p: (usize, usize)|
                    in_grid(width, height, p) ==> #[trigger] k_ph@[idx(width, p)] == laid_pheromone(width, k_grid.cells@, snapshot@, self.islands@, self.evap, self.l_evap, order@, 0, p),
            decreases order@.len(),
        {
            let pick = rng.below(order.len());
            let ghost o0 = order@;
            let which = order.remove(pick);
            proof {
                assert forall|t: usize| #[trigger] order@.contains(t) <==> (o0.contains(t) && t != which) by {
                    if order@.contains(t) {
                        let u = choose|u: int| 0 <= u < order@.len() && order@[u] == t;
                        if u < pick {
                            assert(o0[u] == t);
                        } else {
                            assert(o0[u + 1] == t);
                        }
                    }
                    if o0.contains(t) && t != which {
                        let u = choose|u: int| 0 <= u < o0.len() && o0[u] == t;
                        if u < pick {
                            assert(order@[u] == t);
                        } else {
                            assert(u != pick);
                            assert(order@[u - 1] == t);
                        }
                    }
                }
                assert(o0.contains(which)) by {
                    assert(o0[pick as int] == which);
                }
                assert(order@.no_duplicates()) by {
                    assert forall|a: int, b: int| 0 <= a < order@.len() && 0 <= b < order@.len() && a != b implies order@[a] != order@[b] by {
                        let a1 = if a < pick { a } else { a + 1 };
                        let b1 = if b < pick { b } else { b + 1 };
                        assert(order@[a] == o0[a1]);
                        assert(order@[b] == o0[b1]);
                    }
                }
            }
            let mut island = self.islands[which];
            proof {
                assert(self.islands@[which as int].id == which + 1);
                assert(count_value(k_grid.cells@, (which + 1) as usize, k_grid.cells@.len() as int) == 1);
                lemma_idx(width, height, island.pos);
            }
            proof {
                assert forall|p: (usize, usize)| in_grid(width, height, p) implies #[trigger] k_ph@[idx(width, p)] == laid_pheromone(width, k_grid.cells@, snapshot@, self.islands@, self.evap, self.l_evap, order@, island.id, p) by {
                    let v = k_grid.cells@[idx(width, p)];
                    assert(k_ph@[idx(width, p)] == laid_pheromone(width, k_grid.cells@, snapshot@, self.islands@, self.evap, self.l_evap, o0, 0, p));
                    if v != 0 && v != island.id {
                        assert(order@.contains((v - 1) as usize) == o0.contains((v - 1) as usize));
                    }
                }
            }
            let mut queue: Vec<(usize, usize)> = Vec::new();
            queue.push(island.pos);
            let mut first = true;
            while queue.len() > 0
                invariant_except_break
                    k_grid.at(island.pos) == island.id,
                    island.size < island.final_size,
                    first ==> queue@ == seq![island.pos],
                    count_value(k_grid.cells@, island.id, k_grid.cells@.len() as int) == if first { 1 } else { island.size },
                    first ==> island.size == 0,
                invariant
                    self.wf(),
                    width == self.grid.width,
                    height == self.grid.height,
                    n_islands == self.islands@.len(),
                    1 <= island.id <= n_islands,
                    island.id == which + 1,
                    island.final_size == self.islands@[which as int].final_size,
                    !order@.contains(which),
                    !first ==> island.size >= 1,
                    island.size <= island.final_size,
                    count_value(k_grid.cells@, island.id, k_grid.cells@.len() as int) <= island.final_size,
                    forall|t: int| 0 <= t < n_islands && t != which ==> {
                        &&& order@.contains(t as usize) ==> #[trigger] count_value(k_grid.cells@, (t + 1) as usize, k_grid.cells@.len() as int) == 1
                        &&& !order@.contains(t as usize) ==> count_value(k_grid.cells@, (t + 1) as usize, k_grid.cells@.len() as int) <= self.islands@[t].final_size
                    },
                    in_grid(width, height, island.pos),
                    forall|t: int| 0 <= t < queue@.len() ==> in_grid(width, height, #[trigger] queue@[t]),
                    ant_valid(k_grid, self.grid, n_islands as nat),
                    k_ph@.len() == self.grid.cells@.len(),
                    bounded(k_ph@),
                    snapshot@.len() == k_ph@.len(),
                    forall|i: int| 0 <= i < k_ph@.len() && #[trigger] k_ph@[i] != snapshot@[i] ==> k_grid.cells@[i] != 0,
                    islands_connected(width, height, k_grid.cells@, self.islands@),
                    !first ==> forall|t: int| 0 <= t < queue@.len() ==> #[trigger] touches(width, height, k_grid.cells@, island.id, queue@[t]),
                    island.pos == self.islands@[which as int].pos,
                    forall|p: (usize, usize)|
                        in_grid(width, height, p) ==> #[trigger] k_ph@[idx(width, p)] == laid_pheromone(width, k_grid.cells@, snapshot@, self.islands@, self.evap, self.l_evap, order@, if first { island.id } else { 0 }, p),
                ensures
                    !first,
                decreases count_value(k_grid.cells@, 0, k_grid.cells@.len() as int), if first { 1int } else { 0int }, queue@.len(),
            {
                let ghost zeros = count_value(k_grid.cells@, 0, k_grid.cells@.len() as int);
                let ghost ph0 = k_ph@;
                let ghost cells0 = k_grid.cells@;
                let (x, y) = if first {
                    queue.remove(0)
                } else {
                    let greedy = !self.uniform && rng.fraction(SCALE) < self.greedines;
                    let s = if self.uniform {
                        rng.below(queue.len())
                    } else if greedy {
                        AntSolver::pick_greedy(&queue, &k_ph, width, height)
                    } else {
                        self.pick_roulette(rng, &queue, &k_ph)
                    };
                    let ghost qb = queue@;
                    let (x, y) = queue.remove(s);
                    proof {
                        assert(touches(width, height, k_grid.cells@, island.id, qb[s as int]));
                        assert forall|t: int| 0 <= t < queue@.len() implies #[trigger] touches(width, height, k_grid.cells@, island.id, queue@[t]) by {
                            if t < s {
                                assert(queue@[t] == qb[t]);
                            } else {
                                assert(queue@[t] == qb[t + 1]);
                            }
                        }
                    }
                    if k_grid.get(x, y) != 0 {
                        continue;
                    }
                    if k_grid.is_connecting_islands(x, y, island.id) {
                        continue;
                    }
                    let ghost kb = k_grid;
                    let fragmented = k_grid.is_river_frgmented(x, y, &mut island);
                    proof {
                        lemma_ant_valid_same(kb, k_grid, self.grid, n_islands as nat);
                        assert(k_grid.at(island.pos) == kb.at(island.pos));
                    }
                    if fragmented {
                        continue;
                    }
                    let ghost before = k_grid;
                    let c = k_grid.index(x, y);
                    proof {
                        lemma_orth_neighbours(width, height, x, y);
                        lemma_idx(width, height, (x, y));
                        lemma_count_value_set(k_grid.cells@, c as int, island.id, 0, k_grid.cells@.len() as int);
                        let nb = orth_neighbours(width, height, x, y);
                        assert forall|k: int| 0 <= k < nb.len() implies !(#[trigger] before.at(nb[k]) != 0 && before.at(nb[k]) != island.id) by {
                            assert(kb.at(nb[k]) == before.at(nb[k]));
                        }
                    }
                    proof {
                        assert(before.cells@[c as int] == 0);
                        lemma_connected_claim(width, height, before.cells@, self.islands@, (x, y), island.id);
                        assert forall|t: int| 0 <= t < queue@.len() implies #[trigger] touches(width, height, before.cells@.update(c as int, island.id), island.id, queue@[t]) by {
                            lemma_touch_keep(width, height, before.cells@, c as int, island.id, island.id, queue@[t]);
                        }
                    }
                    k_grid.put(x, y, island.id);
                    proof {
                        assert(before.cells@[c as int] == 0);
                        assert forall|t: int| 1 <= t <= n_islands implies #[trigger] count_value(k_grid.cells@, t as usize, k_grid.cells@.len() as int)
                            == count_value(before.cells@, t as usize, before.cells@.len() as int) + (if t == island.id { 1int } else { 0int }) by {
                            lemma_count_value_update(before.cells@, c as int, island.id, t as usize, before.cells@.len() as int);
                        }
                        lemma_count_value_update(before.cells@, c as int, island.id, island.id, before.cells@.len() as int);
                        assert(count_value(k_grid.cells@, island.id, k_grid.cells@.len() as int)
                            == count_value(before.cells@, island.id, before.cells@.len() as int) + 1);
                        assert forall|t: int| 0 <= t < n_islands && t != which implies #[trigger] count_value(k_grid.cells@, (t + 1) as usize, k_grid.cells@.len() as int)
                            == count_value(before.cells@, (t + 1) as usize, before.cells@.len() as int) by {
                            assert(count_value(k_grid.cells@, (t + 1) as usize, k_grid.cells@.len() as int)
                                == count_value(before.cells@, (t + 1) as usize, before.cells@.len() as int) + (if t + 1 == island.id { 1int } else { 0int }));
                        }
                        lemma_ant_claim(before, k_grid, self.grid, n_islands as nat, (x, y), island.id);
                        lemma_idx(width, height, island.pos);
                        assert(k_grid.at(island.pos) == island.id);
                    }
                    (x, y)
                };
                // The cell is taken.
                proof {
                    lemma_idx(width, height, (x, y));
                }
                let c = k_grid.index(x, y);
                proof {
                    assert(k_grid.cells@[c as int] != 0);
                }
                let d2 = distance_sq(island.pos, (x, y));
                let target = self.evap / (1 + d2);
                let p = smoothed(k_ph[c], target, self.l_evap);
                k_ph.set(c, p);
                island.size = island.size + 1;
                let ghost was_first = first;
                first = false;
                proof {
                    let nn = k_grid.cells@.len() as int;
                    lemma_idx(width, height, (x, y));
                    lemma_idx(width, height, island.pos);
                    assert(ph0[c as int] == snapshot@[c as int]) by {
                        assert(ph0[idx(width, (x, y))] == laid_pheromone(width, cells0, snapshot@, self.islands@, self.evap, self.l_evap, order@, if was_first { island.id } else { 0 }, (x, y)));
                    }
                    assert forall|p: (usize, usize)| in_grid(width, height, p) implies #[trigger] k_ph@[idx(width, p)] == laid_pheromone(width, k_grid.cells@, snapshot@, self.islands@, self.evap, self.l_evap, order@, 0, p) by {
                        lemma_idx(width, height, p);
                        assert(ph0[idx(width, p)] == laid_pheromone(width, cells0, snapshot@, self.islands@, self.evap, self.l_evap, order@, if was_first { island.id } else { 0 }, p));
                        if idx(width, p) == c {
                            assert(p == (x, y));
                        } else {
                            assert(k_ph@[idx(width, p)] == ph0[idx(width, p)]);
                            if was_first && cells0[idx(width, p)] == island.id {
                                lemma_count_one(cells0, island.id, nn, idx(width, p), idx(width, island.pos));
                            }
                            if !was_first {
                                assert(k_grid.cells@[idx(width, p)] == cells0[idx(width, p)]);
                            }
                        }
                    }
                }
                if island.size >= island.final_size {
                    break;
                }
                let start = rng.below(4);
                let ghost qlen = queue@.len();
                let ghost qa = queue@;
                proof {
                    assert(k_grid.at((x, y)) == island.id);
                    if was_first {
                        assert(qa.len() == 0);
                    }
                }
                k_grid.add_neighbours(x, y, start, &mut queue);
                proof {
                    assert forall|t: int| 0 <= t < queue@.len() implies in_grid(width, height, #[trigger] queue@[t]) by {
                        if t < qlen {
                            assert(queue@.subrange(0, qlen as int)[t] == queue@[t]);
                        }
                    }
                    assert forall|t: int| 0 <= t < queue@.len() implies #[trigger] touches(width, height, k_grid.cells@, island.id, queue@[t]) by {
                        if t < qlen {
                            assert(queue@.subrange(0, qlen as int)[t] == queue@[t]);
                            assert(queue@[t] == qa[t]);
                        } else {
                            let q = queue@[t];
                            lemma_orth_neighbours(width, height, q.0, q.1);
                            assert(adjacent(q, (x, y)));
                            assert(orth_neighbours(width, height, q.0, q.1).contains((x, y)));
                            let j = choose|j: int| 0 <= j < orth_neighbours(width, height, q.0, q.1).len() && orth_neighbours(width, height, q.0, q.1)[j] == (x, y);
                            assert(holds(width, height, k_grid.cells@, island.id, orth_neighbours(width, height, q.0, q.1)[j]));
                        }
                    }
                }
                let diagonal = for_valid_diagonal_neighbours(width, height, x, y);
                let ghost isl0 = island;
                let mut t: usize = 0;
                while t < diagonal.len()
                    invariant
                        island.id == isl0.id,
                        island.pos == isl0.pos,
                        island.size == isl0.size,
                        island.final_size == isl0.final_size,
                        k_grid.wf(),
                        width == k_grid.width,
                        height == k_grid.height,
                        in_grid(width, height, (x, y)),
                        diagonal@ == crate::solvers::diag_neighbours(width, height, x, y),
                        t <= diagonal@.len(),
                    decreases diagonal@.len() - t,
                {
                    let (a, b) = diagonal[t];
                    if k_grid.get(a, b) != 0 {
                        island.enclosed = true;
                    }
                    t = t + 1;
                }
            }
        }
        (k_grid, k_ph)
    }

    /// One iteration: each ant builds a candidate from the clues; the best
    /// one so far is kept, and an ant with fitness 0 ends the iteration with
    /// the solution. Otherwise the pheromones of the best candidate's island
    /// cells are reinforced, one random cell is reset to a low baseline, and
    /// the best quality evaporates.
    #[verifier::rlimit(80)]
    pub fn solve(&mut self) -> (r: Step)
        requires
            old(self).wf(),
        ensures
            final(self).wf(),
            r == Step::SolutionFound || r == Step::Proceed,
            r == Step::SolutionFound ==> fitness(
                final(self).best().cells@,
                final(self).best().width,
                final(self).best().height,
                final(self).island_list(),
            ) == 0,
            final(self).base() == old(self).base(),
            final(self).island_list() == old(self).island_list(),
            final(self).ants_spec() == old(self).ants_spec(),
            old(self).iteration_spec() <= final(self).iteration_spec() <= old(self).iteration_spec() + old(self).ants_spec(),
            ant_valid(final(self).best(), final(self).base(), final(self).island_list().len() as nat),
            sizes_ok(final(self).best().cells@, final(self).island_list()),
            islands_connected(final(self).best().width, final(self).best().height, final(self).best().cells@, final(self).island_list()),
            final(self).best().eval == capped(fitness(final(self).best().cells@, final(self).best().width, final(self).best().height, final(self).island_list())),
            r == Step::SolutionFound ==> final(self).best().eval == 0,
            r == Step::Proceed ==> final(self).iteration_spec() == sat_add(old(self).iteration_spec(), old(self).ants_spec()),
            final(self).is_uniform() == old(self).is_uniform(),
            final(self).rates() == old(self).rates(),
            (final(self).best().cells@ == old(self).best().cells@ && final(self).best().eval == old(self).best().eval)
                || quality(final(self).best().eval as nat) > old(self).best().best_p,
            r == Step::Proceed && !old(self).is_uniform() ==> exists|mid: Seq<u64>, bp: u64|
                #![trigger global_update(mid, final(self).best().cells@, bp, old(self).rates().1)]
                ((mid == old(self).pheromones() && bp == old(self).best().best_p && final(self).best().cells@ == old(self).best().cells@)
                    || (bp == quality(final(self).best().eval as nat) && bp > old(self).best().best_p))
                && final(self).best().best_p == (bp as int * (SCALE - old(self).rates().4) / SCALE as int) as u64
                && (mid.len() == 0 ==> final(self).pheromones() == mid)
                && (mid.len() > 0 ==> exists|h: int|
                    0 <= h < mid.len() && final(self).pheromones() == #[trigger] global_update(mid, final(self).best().cells@, bp, old(self).rates().1).update(
                        h,
                        (SCALE / mid.len() as u64) as u64,
                    )),
    {
        let snapshot = self.copy_pheromones();
        let mut k: usize = 0;
        while k < self.ants
            invariant
                self.wf(),
                self.grid == old(self).grid,
                self.islands == old(self).islands,
                self.ants == old(self).ants,
                snapshot@.len() == self.grid.cells@.len(),
                bounded(snapshot@),
                k <= self.ants,
                old(self).iteration <= self.iteration <= old(self).iteration + k,
                self.iteration == sat_add(old(self).iteration, k),
                self.uniform == old(self).uniform,
                self.l_evap == old(self).l_evap,
                self.g_evap == old(self).g_evap,
                self.evap == old(self).evap,
                self.greedines == old(self).greedines,
                self.bve == old(self).bve,
                (self.solution.cells@ == old(self).solution.cells@ && self.solution.eval == old(self).solution.eval
                    && self.solution.best_p == old(self).solution.best_p && self.phermons@ == old(self).phermons@)
                    || (self.solution.best_p == quality(self.solution.eval as nat) && self.solution.best_p > old(self).solution.best_p),
            decreases self.ants - k,
        {
            if self.iteration < usize::MAX {
                self.iteration = self.iteration + 1;
            }
            let mut rng = self.rng;
            let (mut k_grid, k_ph) = self.construct(&mut rng, &snapshot);
            self.rng = rng;
            let ghost kg0 = k_grid;
            let q = k_grid.evaluate(&self.islands);
            proof {
                lemma_ant_valid_same(kg0, k_grid, self.grid, self.islands@.len() as nat);
            }
            if q > self.solution.best_p {
                let ghost kg = k_grid;
                self.solution = k_grid;
                self.phermons = k_ph;
                if self.verbose {
                    self.explain = "Found a better candidate.".to_owned();
                }
                if self.solution.is_solved() {
                    if self.verbose {
                        self.explain = "Puzzle solved!".to_owned();
                    }
                    return Step::SolutionFound;
                }
            }
            k = k + 1;
        }
        if self.uniform {
            return Step::Proceed;
        }
        let ghost mid = self.phermons@;
        let ghost bp = self.solution.best_p;
        self.reinforce();
        let ghost after = self.phermons@;
        self.reset_one();
        self.evaporate_best();
        proof {
            assert(after =~= global_update(mid, self.solution.cells@, bp, self.g_evap));
            if mid.len() > 0 {
                let h = choose|h: int| 0 <= h < after.len() && self.phermons@ == #[trigger] after.update(h, (SCALE / after.len() as u64) as u64);
                assert(self.g_evap == old(self).rates().1);
                assert(after.len() == mid.len());
                assert(self.phermons@ == after.update(h, (SCALE / after.len() as u64) as u64));
                assert(self.phermons@ == global_update(mid, self.solution.cells@, bp, old(self).rates().1).update(h, (SCALE / mid.len() as u64) as u64));
            }
            assert(self.solution.best_p == (bp as int * (SCALE - old(self).rates().4) / SCALE as int) as u64);
            assert((mid == old(self).pheromones() && bp == old(self).best().best_p && self.solution.cells@ == old(self).best().cells@)
                || (bp == quality(self.solution.eval as nat) && bp > old(self).best().best_p));
            assert(mid.len() == 0 ==> self.phermons@ == mid);
            let gu = global_update(mid, self.solution.cells@, bp, old(self).rates().1);
            assert(mid.len() > 0 ==> exists|h: int|
                0 <= h < mid.len() && self.phermons@ == #[trigger] gu.update(h, (SCALE / mid.len() as u64) as u64));
            assert(((mid == old(self).pheromones() && bp == old(self).best().best_p && self.best().cells@ == old(self).best().cells@)
                    || (bp == quality(self.best().eval as nat) && bp > old(self).best().best_p))
                && self.best().best_p == (bp as int * (SCALE - old(self).rates().4) / SCALE as int) as u64
                && (mid.len() == 0 ==> self.pheromones() == mid)
                && (mid.len() > 0 ==> exists|h: int|
                    0 <= h < mid.len() && self.pheromones() == #[trigger] global_update(mid, self.best().cells@, bp, old(self).rates().1).update(
                        h,
                        (SCALE / mid.len() as u64) as u64,
                    )));
        }
        Step::Proceed
    }

    /// Global update: the pheromone of each island cell of the best
    /// candidate moves toward its quality, at the global rate.
    fn reinforce(&mut self)
        requires
            old(self).wf(),
        ensures
            final(self).rates() == old(self).rates(),
            final(self).uniform == old(self).uniform,
            final(self).verbose == old(self).verbose,
            final(self).explain == old(self).explain,
            final(self).path == old(self).path,
            final(self).wf(),
            final(self).solution == old(self).solution,
            final(self).grid == old(self).grid,
            final(self).islands == old(self).islands,
            final(self).ants == old(self).ants,
            final(self).iteration == old(self).iteration,
            final(self).phermons@ == Seq::new(old(self).phermons@.len(), |i: int| if old(self).solution.cells@[i] != 0 {
                smooth(old(self).phermons@[i], old(self).solution.best_p, old(self).g_evap)
            } else {
                old(self).phermons@[i]
            }),
    {
        let n = self.phermons.len();
        let p = self.g_evap;
        let best = self.solution.best_p;
        let mut i: usize = 0;
        while i < n
            invariant
                self.wf(),
                self.solution == old(self).solution,
                self.grid == old(self).grid,
                self.islands == old(self).islands,
                self.ants == old(self).ants,
                self.iteration == old(self).iteration,
                self.l_evap == old(self).l_evap,
                self.evap == old(self).evap,
                self.greedines == old(self).greedines,
                self.bve == old(self).bve,
                self.uniform == old(self).uniform,
                self.verbose == old(self).verbose,
                self.explain == old(self).explain,
                self.path == old(self).path,
                self.g_evap == old(self).g_evap,
                n == self.phermons@.len(),
                n == old(self).phermons@.len(),
                p == self.g_evap,
                best == self.solution.best_p,
                i <= n,
                forall|t: int| 0 <= t < i ==> #[trigger] self.phermons@[t] == if old(self).solution.cells@[t] != 0 {
                    smooth(old(self).phermons@[t], best, p)
                } else {
                    old(self).phermons@[t]
                },
                forall|t: int| i <= t < n ==> #[trigger] self.phermons@[t] == old(self).phermons@[t],
            decreases n - i,
        {
            if self.solution.cells[i] != 0 {
                let v = smoothed(self.phermons[i], best, p);
                self.phermons.set(i, v);
            }
            i = i + 1;
        }
        assert(self.phermons@ =~= Seq::new(old(self).phermons@.len(), |i: int| if old(self).solution.cells@[i] != 0 {
            smooth(old(self).phermons@[i], old(self).solution.best_p, old(self).g_evap)
        } else {
            old(self).phermons@[i]
        }));
    }

    /// Exploration: one random cell's pheromone drops to the baseline
    /// `SCALE / (number of cells)`.
    fn reset_one(&mut self)
        requires
            old(self).wf(),
        ensures
            final(self).rates() == old(self).rates(),
            final(self).uniform == old(self).uniform,
            final(self).verbose == old(self).verbose,
            final(self).explain == old(self).explain,
            final(self).path == old(self).path,
            final(self).wf(),
            final(self).solution == old(self).solution,
            final(self).grid == old(self).grid,
            final(self).islands == old(self).islands,
            final(self).ants == old(self).ants,
            final(self).iteration == old(self).iteration,
            old(self).phermons@.len() == 0 ==> final(self).phermons@ == old(self).phermons@,
            old(self).phermons@.len() > 0 ==> exists|h: int|
                0 <= h < old(self).phermons@.len() && final(self).phermons@ == #[trigger] old(self).phermons@.update(
                    h,
                    (SCALE / old(self).phermons@.len() as u64) as u64,
                ),
    {
        let n = self.phermons.len();
        if n > 0 {
            let h = self.rng.below(n);
            self.phermons.set(h, SCALE / n as u64);
            assert(bounded(self.phermons@));
        }
    }

    /// Best-value evaporation: the quality of the best candidate shrinks by
    /// the rate `bve`, so that later candidates of like quality can replace it.
    fn evaporate_best(&mut self)
        requires
            old(self).wf(),
        ensures
            final(self).phermons@ == old(self).phermons@,
            final(self).rates() == old(self).rates(),
            final(self).uniform == old(self).uniform,
            final(self).verbose == old(self).verbose,
            final(self).explain == old(self).explain,
            final(self).path == old(self).path,
            final(self).wf(),
            final(self).solution.cells@ == old(self).solution.cells@,
            final(self).solution.eval == old(self).solution.eval,
            final(self).solution.best_p == (old(self).solution.best_p as int * (SCALE - old(self).bve) / SCALE as int) as u64,
            final(self).grid == old(self).grid,
            final(self).islands == old(self).islands,
            final(self).ants == old(self).ants,
            final(self).iteration == old(self).iteration,
    {
        let bp = self.solution.best_p as u128;
        let keep = (SCALE - self.bve) as u128;
        assert(bp * keep <= 1_000_000 * 1_000_000) by (nonlinear_arith)
            requires bp <= 1_000_000, keep <= 1_000_000;
        let decayed = (bp * keep) / 1_000_000u128;
        assert(decayed <= bp) by (nonlinear_arith)
            requires decayed == (bp * keep) / 1_000_000, keep <= 1_000_000, bp >= 0;
        let ghost sol0 = self.solution;
        self.solution.best_p = decayed as u64;
        proof {
            lemma_ant_valid_same(sol0, self.solution, self.grid, self.islands@.len() as nat);
        }
    }

    fn copy_pheromones(&self) -> (r: Vec<u64>)
        requires
            self.wf(),
        ensures
            r@ == self.phermons@,
    {
        let mut r: Vec<u64> = Vec::new();
        let mut i: usize = 0;
        while i < self.phermons.len()
            invariant
                i <= self.phermons@.len(),
                r@ == self.phermons@.subrange(0, i as int),
            decreases self.phermons@.len() - i,
        {
            r.push(self.phermons[i]);
            i = i + 1;
            assert(r@ =~= self.phermons@.subrange(0, i as int));
        }
        assert(r@ =~= self.phermons@);
        r
    }

    /// The best candidate for presentation: sea cells show -1, clue cells
    /// their clue, the other island cells -2.
    pub fn get_state(&self) -> (r: Nurikabe)
        requires
            self.wf(),
        ensures
            r.width == self.best().width,
            r.height == self.best().height,
            r.data@ == Seq::new(self.best().cells@.len(), |i: int| display_code(self.best().cells@[i], self.base().cells@[i], self.island_list())),
            r.solved == (self.best().eval == 0),
            r.solved == (fitness(self.best().cells@, self.best().width, self.best().height, self.island_list()) == 0),
            r.iteration == self.iteration_spec(),
            r.well_formed(),
            islands_of(self.island_list(), self.base()),
            r.path@ == self.shown_text().0,
            r.verbose@ == self.shown_text().1,
            r.duration == 0,
    {
        let n = self.solution.cells.len();
        let mut data: Vec<i32> = Vec::new();
        let mut i: usize = 0;
        while i < n
            invariant
                self.wf(),
                n == self.solution.cells@.len(),
                i <= n,
                data@ == Seq::new(i as nat, |j: int| display_code(self.solution.cells@[j], self.grid.cells@[j], self.islands@)),
            decreases n - i,
        {
            let v = self.solution.cells[i];
            let b = self.grid.cells[i];
            let code: i32 = if v == 0 {
                -1
            } else if b != 0 {
                proof {
                    assert(self.grid.cells@[i as int] <= self.islands@.len());
                    assert(self.islands@[b - 1].final_size <= 0x7fff_ffff);
                }
                self.islands[b - 1].final_size as i32
            } else {
                -2
            };
            data.push(code);
            i = i + 1;
            assert(data@ =~= Seq::new(i as nat, |j: int| display_code(self.solution.cells@[j], self.grid.cells@[j], self.islands@)));
        }
        let verbose = if self.verbose {
            self.explain.clone()
        } else {
            String::new()
        };
        Nurikabe {
            path: self.path.clone(),
            width: self.solution.width,
            height: self.solution.height,
            solved: self.solution.is_solved(),
            iteration: self.iteration,
            data,
            duration: 0,
            verbose,
        }
    }

    /// Current solving iteration: the number of ants run so far.
    pub fn get_iteration(&self) -> (r: usize)
        ensures
            r == self.iteration_spec(),
    {
        self.iteration
    }

    /// Makes candidates be drawn uniformly, with no pheromone laid.
    pub fn set_uniform(&mut self)
        requires
            old(self).wf(),
        ensures
            final(self).wf(),
            final(self).best() == old(self).best(),
            final(self).base() == old(self).base(),
            final(self).island_list() == old(self).island_list(),
            final(self).iteration_spec() == old(self).iteration_spec(),
            final(self).ants_spec() == old(self).ants_spec(),
    {
        self.uniform = true;
    }

    /// Makes the colony draw from a generator seeded with `seed`, so that runs
    /// can be repeated.
    pub fn set_seed(&mut self, seed: u64)
        requires
            old(self).wf(),
        ensures
            final(self).wf(),
            final(self).best() == old(self).best(),
            final(self).base() == old(self).base(),
            final(self).island_list() == old(self).island_list(),
            final(self).iteration_spec() == old(self).iteration_spec(),
            final(self).ants_spec() == old(self).ants_spec(),
    {
        self.rng = Rng::seeded(seed);
    }
}

} // verus!

verus! {

impl Solver for AntSolver {
    open spec fn inv(&self) -> bool {
        self.wf()
    }

    fn solve(&mut self) -> (r: Step) {
        AntSolver::solve(self)
    }

    fn get_state(&self) -> Nurikabe {
        AntSolver::get_state(self)
    }

    fn get_iteration(&self) -> usize {
        AntSolver::get_iteration(self)
    }
}

proof fn lemma_sea_count_upto(cells: Seq<usize>, n: int)
    requires
        0 <= n <= cells.len(),
    ensures
        count_value(cells, 0, n) + count_nonzero(cells, n) == n,
    decreases n,
{
    if n > 0 {
        lemma_sea_count_upto(cells, n - 1);
    }
}

/// Number of island cells below index `n`.
pub open spec fn count_nonzero(cells: Seq<usize>, n: int) -> nat
    decreases n,
{
    if n <= 0 {
        0
    } else {
        count_nonzero(cells, n - 1) + (if cells[n - 1] != 0 {
            1nat
        } else {
            0nat
        })
    }
}

/// A candidate classifies every cell: sea cells and island cells make up the
/// grid, with no cell left unknown.
pub proof fn lemma_candidate_counts(g: Grid)
    requires
        g.wf(),
    ensures
        count_value(g.cells@, 0, g.cells@.len() as int) + count_nonzero(g.cells@, g.cells@.len() as int) == g.width * g.height,
{
    lemma_sea_count_upto(g.cells@, g.cells@.len() as int);
}

} // verus!

verus! {

/// Reading the state twice with no step in between gives the same grid: the
/// state is a function of the colony's best candidate and clues.
pub proof fn lemma_state_idempotent(s: AntSolver, a: Nurikabe, b: Nurikabe)
    requires
        a.data@ == Seq::new(s.best().cells@.len(), |i: int| display_code(s.best().cells@[i], s.base().cells@[i], s.island_list())),
        b.data@ == Seq::new(s.best().cells@.len(), |i: int| display_code(s.best().cells@[i], s.base().cells@[i], s.island_list())),
        a.width == s.best().width && b.width == s.best().width,
        a.height == s.best().height && b.height == s.best().height,
        a.solved == (s.best().eval == 0) && b.solved == (s.best().eval == 0),
        a.iteration == s.iteration_spec() && b.iteration == s.iteration_spec(),
        a.path@ == s.shown_text().0 && b.path@ == s.shown_text().0,
        a.verbose@ == s.shown_text().1 && b.verbose@ == s.shown_text().1,
        a.duration == 0 && b.duration == 0,
    ensures
        a.data@ == b.data@,
        a.width == b.width,
        a.height == b.height,
        a.solved == b.solved,
        a.iteration == b.iteration,
        a.path@ == b.path@,
        a.verbose@ == b.verbose@,
        a.duration == b.duration,
{
}

} // verus!
