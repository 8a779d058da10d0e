use vstd::prelude::*;

use crate::nurikabe::Nurikabe;
use crate::solvers::state::{state_code, State};
use crate::solvers::{
    adjacent, for_valid_neighbours, idx, in_grid, lemma_idx, lemma_orth_neighbours,
    lemma_orth_neighbours_distinct, lemma_pos,
    orth_neighbours, Solver, Step,
};

verus! {

/// A region record of the arena: a connected group of cells of one colour.
/// A record whose state is `Unknown` has been fused into another one.
#[derive(Clone, Copy, Debug)]
pub struct Region {
    /// The anchor cell: the clue of an island, else the first cell marked.
    pub main: (usize, usize),
    pub state: State,
}

impl Region {
    /// A retired record.
    pub fn unknown(x: usize, y: usize) -> (r: Self)
        ensures
            r.main == (x, y),
            r.state == State::Unknown,
    {
        Region { main: (x, y), state: State::Unknown }
    }

    pub fn new(x: usize, y: usize, state: State) -> (r: Self)
        ensures
            r.main == (x, y),
            r.state == state,
    {
        Region { main: (x, y), state }
    }

    /// A white region or an island.
    pub fn is_white(&self) -> (r: bool)
        ensures
            r == self.state.is_whiteish(),
    {
        match self.state {
            State::White | State::Island(_) => true,
            _ => false,
        }
    }

    pub fn is_black(&self) -> (r: bool)
        ensures
            r == (self.state is Black),
    {
        match self.state {
            State::Black => true,
            _ => false,
        }
    }

    pub fn is_unknow(&self) -> (r: bool)
        ensures
            r == (self.state is Unknown),
    {
        match self.state {
            State::Unknown => true,
            _ => false,
        }
    }

    pub fn is_known(&self) -> (r: bool)
        ensures
            r == self.state.is_known(),
    {
        !self.is_unknow()
    }

    pub fn is_island(&self) -> (r: bool)
        ensures
            r == (self.state is Island),
    {
        match self.state {
            State::Island(_) => true,
            _ => false,
        }
    }
}

/// The mathematical picture of the deductive solver: the classification of
/// each cell (row-major), the region each known cell belongs to, and the
/// region records.
pub struct Board {
    pub width: usize,
    pub height: usize,
    pub cells: Seq<State>,
    pub rid: Seq<usize>,
    pub regions: Seq<Region>,
    /// How many cells may be sea: the cell count less the clue total.
    pub budget: int,
}

/// Number of indices below `n` whose cell is known and belongs to region `r`.
pub open spec fn count_members(cells: Seq<State>, rid: Seq<usize>, r: int, n: int) -> nat
    decreases n,
{
    if n <= 0 {
        0
    } else {
        count_members(cells, rid, r, n - 1) + (if cells[n - 1].is_known() && rid[n - 1] == r {
            1nat
        } else {
            0nat
        })
    }
}

/// Number of indices below `n` whose cell satisfies `f`.
pub open spec fn count_cells(cells: Seq<State>, f: spec_fn(State) -> bool, n: int) -> nat
    decreases n,
{
    if n <= 0 {
        0
    } else {
        count_cells(cells, f, n - 1) + (if f(cells[n - 1]) {
            1nat
        } else {
            0nat
        })
    }
}

pub open spec fn is_known_state(s: State) -> bool {
    s.is_known()
}

pub open spec fn is_black_state(s: State) -> bool {
    s is Black
}

pub open spec fn is_whiteish_state(s: State) -> bool {
    s.is_whiteish()
}

pub open spec fn is_unknown_state(s: State) -> bool {
    s is Unknown
}

impl Board {
    pub open spec fn cell(&self, p: (usize, usize)) -> State {
        self.cells[idx(self.width, p)]
    }

    pub open spec fn rid_at(&self, p: (usize, usize)) -> int {
        self.rid[idx(self.width, p)] as int
    }

    pub open spec fn in_grid(&self, p: (usize, usize)) -> bool {
        in_grid(self.width, self.height, p)
    }

    pub open spec fn nbrs(&self, p: (usize, usize)) -> Seq<(usize, usize)> {
        orth_neighbours(self.width, self.height, p.0, p.1)
    }

    /// Number of known cells of region `r`.
    pub open spec fn size(&self, r: int) -> nat {
        count_members(self.cells, self.rid, r, self.cells.len() as int)
    }

    pub open spec fn known_count(&self) -> nat {
        count_cells(self.cells, |s: State| is_known_state(s), self.cells.len() as int)
    }

    pub open spec fn black_count(&self) -> nat {
        count_cells(self.cells, |s: State| is_black_state(s), self.cells.len() as int)
    }

    pub open spec fn white_count(&self) -> nat {
        count_cells(self.cells, |s: State| is_whiteish_state(s), self.cells.len() as int)
    }

    pub open spec fn unknown_count(&self) -> nat {
        count_cells(self.cells, |s: State| is_unknown_state(s), self.cells.len() as int)
    }

    /// The region of the known cell at `p`.
    pub open spec fn region_at(&self, p: (usize, usize)) -> Region {
        self.regions[self.rid_at(p)]
    }

    /// `p` is an unknown cell next to a known cell of region `r`.
    pub open spec fn in_frontier(&self, r: int, p: (usize, usize)) -> bool {
        &&& self.in_grid(p)
        &&& self.cell(p) is Unknown
        &&& exists|k: int|
            0 <= k < self.nbrs(p).len() && (#[trigger] self.cell(self.nbrs(p)[k])).is_known()
                && self.rid_at(self.nbrs(p)[k]) == r
    }

    /// Adjacent known cells of one colour (sea, or not sea) share a region.
    pub open spec fn fused(&self) -> bool {
        forall|p: (usize, usize), q: (usize, usize)|
            #![trigger self.cell(p), self.cell(q), adjacent(p, q)]
            self.in_grid(p) && self.in_grid(q) && adjacent(p, q) && self.cell(p).is_known()
                && self.cell(q).is_known() && (self.cell(p) is Black) == (self.cell(q) is Black)
                ==> self.rid_at(p) == self.rid_at(q)
    }

    /// The region bookkeeping agrees with the cells.
    pub open spec fn consistent(&self) -> bool {
        &&& self.cells.len() == self.width * self.height
        &&& self.rid.len() == self.cells.len()
        &&& self.regions_ok()
    }

    /// Each known cell belongs to a live region of its colour; each island
    /// region holds its clue cell, and each clue cell names its region.
    #[verifier::opaque]
    pub open spec fn regions_ok(&self) -> bool {
        &&& forall|i: int|
            0 <= i < self.cells.len() && (#[trigger] self.cells[i]).is_known() ==> {
                &&& self.rid[i] < self.regions.len()
                &&& (self.cells[i] is Black) == (self.regions[self.rid[i] as int].state is Black)
                &&& self.regions[self.rid[i] as int].state.is_known()
            }
        &&& forall|i: int|
            0 <= i < self.cells.len() && (#[trigger] self.cells[i]) is Island ==> {
                &&& self.regions[self.rid[i] as int].state == self.cells[i]
                &&& idx(self.width, self.regions[self.rid[i] as int].main) == i
            }
        &&& forall|r: int|
            0 <= r < self.regions.len() && (#[trigger] self.regions[r]).state is Island ==> {
                &&& self.in_grid(self.regions[r].main)
                &&& self.cell(self.regions[r].main) == self.regions[r].state
                &&& self.rid_at(self.regions[r].main) == r
            }
    }
}

/// Adjacent known cells of one colour share a region, except where `c` is one
/// of them.
#[verifier::opaque]
pub open spec fn fused_except(b: Board, c: (usize, usize)) -> bool {
    forall|p: (usize, usize), q: (usize, usize)|
        #![trigger b.cell(p), b.cell(q), adjacent(p, q)]
        b.in_grid(p) && b.in_grid(q) && adjacent(p, q) && b.cell(p).is_known() && b.cell(q).is_known()
            && (b.cell(p) is Black) == (b.cell(q) is Black) && p != c && q != c ==> b.rid_at(p) == b.rid_at(q)
}

/// The first `k` neighbours `nb` of `c` that have its colour share its region.
#[verifier::opaque]
pub open spec fn joined_upto(b: Board, c: (usize, usize), nb: Seq<(usize, usize)>, k: int) -> bool {
    forall|j: int|
        0 <= j < k && b.cell(#[trigger] nb[j]).is_known() && (b.cell(nb[j]) is Black) == (b.cell(c) is Black)
            ==> b.rid_at(nb[j]) == b.rid_at(c)
}

proof fn lemma_fused_except_after_add(before: Board, b: Board, c: (usize, usize))
    requires
        before.fused(),
        before.cells.len() == before.width * before.height,
        before.rid.len() == before.cells.len(),
        b.width == before.width,
        b.height == before.height,
        b.in_grid(c),
        b.cells == before.cells.update(idx(b.width, c), b.cell(c)),
        b.rid == before.rid.update(idx(b.width, c), b.rid_at(c) as usize),
    ensures
        fused_except(b, c),
{
    reveal(fused_except);
    assert forall|p: (usize, usize), q: (usize, usize)|
        #![trigger b.cell(p), b.cell(q), adjacent(p, q)]
        b.in_grid(p) && b.in_grid(q) && adjacent(p, q) && b.cell(p).is_known() && b.cell(q).is_known()
            && (b.cell(p) is Black) == (b.cell(q) is Black) && p != c && q != c implies b.rid_at(p) == b.rid_at(q) by {
        lemma_idx(b.width, b.height, p);
        lemma_idx(b.width, b.height, q);
        lemma_idx(b.width, b.height, c);
        assert(before.cell(p) == b.cell(p));
        assert(before.cell(q) == b.cell(q));
    }
}

proof fn lemma_fused_keep(pre: Board, b: Board, c: (usize, usize), nb: Seq<(usize, usize)>, k: int)
    requires
        fused_except(pre, c),
        joined_upto(pre, c, nb, k),
        0 <= k < nb.len(),
        pre.cells.len() == pre.width * pre.height,
        pre.rid.len() == pre.cells.len(),
        b.width == pre.width,
        b.height == pre.height,
        b.cells == pre.cells,
        b.rid.len() == pre.rid.len(),
        b.in_grid(c),
        b.in_grid(nb[k]),
        forall|j: int| 0 <= j < nb.len() ==> in_grid(b.width, b.height, #[trigger] nb[j]),
        forall|i: int, j: int|
            0 <= i < pre.cells.len() && 0 <= j < pre.cells.len() && pre.rid[i] == pre.rid[j]
                ==> #[trigger] b.rid[i] == #[trigger] b.rid[j],
        b.cell(nb[k]).is_known() && (b.cell(c) is Black) == (b.cell(nb[k]) is Black) ==> b.rid_at(c) == b.rid_at(nb[k]),
    ensures
        fused_except(b, c),
        joined_upto(b, c, nb, k + 1),
{
    reveal(fused_except);
    reveal(joined_upto);
    assert forall|p: (usize, usize), q: (usize, usize)|
        #![trigger b.cell(p), b.cell(q), adjacent(p, q)]
        b.in_grid(p) && b.in_grid(q) && adjacent(p, q) && b.cell(p).is_known() && b.cell(q).is_known()
            && (b.cell(p) is Black) == (b.cell(q) is Black) && p != c && q != c implies b.rid_at(p) == b.rid_at(q) by {
        lemma_idx(b.width, b.height, p);
        lemma_idx(b.width, b.height, q);
        assert(pre.cell(p) == b.cell(p));
        assert(pre.cell(q) == b.cell(q));
        assert(pre.rid_at(p) == pre.rid_at(q));
        assert(pre.rid[idx(b.width, p)] == pre.rid[idx(b.width, q)]);
    }
    assert forall|j: int|
        0 <= j < k + 1 && b.cell(#[trigger] nb[j]).is_known() && (b.cell(nb[j]) is Black) == (b.cell(c) is Black)
            implies b.rid_at(nb[j]) == b.rid_at(c) by {
        lemma_idx(b.width, b.height, nb[j]);
        lemma_idx(b.width, b.height, c);
        if j < k {
            assert(pre.rid_at(nb[j]) == pre.rid_at(c));
            assert(pre.rid[idx(b.width, nb[j])] == pre.rid[idx(b.width, c)]);
        }
    }
}

proof fn lemma_fused_complete(b: Board, c: (usize, usize), nb: Seq<(usize, usize)>)
    requires
        fused_except(b, c),
        joined_upto(b, c, nb, nb.len() as int),
        b.in_grid(c),
        nb == orth_neighbours(b.width, b.height, c.0, c.1),
    ensures
        b.fused(),
{
    reveal(fused_except);
    reveal(joined_upto);
    lemma_orth_neighbours(b.width, b.height, c.0, c.1);
    assert forall|p: (usize, usize), q: (usize, usize)|
        #![trigger b.cell(p), b.cell(q), adjacent(p, q)]
        b.in_grid(p) && b.in_grid(q) && adjacent(p, q) && b.cell(p).is_known() && b.cell(q).is_known()
            && (b.cell(p) is Black) == (b.cell(q) is Black) implies b.rid_at(p) == b.rid_at(q) by {
        if p == c {
            assert(nb.contains(q));
            let j = choose|j: int| 0 <= j < nb.len() && nb[j] == q;
            assert(b.cell(nb[j]).is_known());
        } else if q == c {
            assert(adjacent(q, p));
            assert(nb.contains(p));
            let j = choose|j: int| 0 <= j < nb.len() && nb[j] == p;
            assert(b.cell(nb[j]).is_known());
        }
    }
}

proof fn lemma_prefix_contains<T>(s: Seq<T>, k: int, p: T)
    requires
        0 <= k < s.len(),
    ensures
        s.subrange(0, k + 1).contains(p) <==> (s.subrange(0, k).contains(p) || s[k] == p),
{
    if s.subrange(0, k + 1).contains(p) {
        let j = choose|j: int| 0 <= j < k + 1 && #[trigger] s.subrange(0, k + 1)[j] == p;
        if j < k {
            assert(s.subrange(0, k)[j] == p);
        }
    }
    if s.subrange(0, k).contains(p) {
        let j = choose|j: int| 0 <= j < k && #[trigger] s.subrange(0, k)[j] == p;
        assert(s.subrange(0, k + 1)[j] == p);
    }
    if s[k] == p {
        assert(s.subrange(0, k + 1)[k] == p);
    }
}

/// The target size of an island state (0 for other states).
pub open spec fn island_target(s: State) -> int {
    match s {
        State::Island(n) => n as int,
        _ => 0,
    }
}

impl Board {
    /// Region `r` is an island that has reached its target size.
    pub open spec fn island_complete(&self, r: int) -> bool {
        self.regions[r].state is Island && self.size(r) == island_target(self.regions[r].state)
    }

    /// Completed islands: an unknown cell next to an island that has reached
    /// its size must be sea.
    pub open spec fn completes_island(&self, p: (usize, usize)) -> bool {
        &&& self.in_grid(p)
        &&& self.cell(p) is Unknown
        &&& exists|k: int|
            0 <= k < self.nbrs(p).len() && (#[trigger] self.cell(self.nbrs(p)[k])).is_known()
                && self.island_complete(self.rid_at(self.nbrs(p)[k]))
    }
}

/// A list of exactly the cells that satisfy `f` is empty just when none does,
/// and each of its entries satisfies `f`.
proof fn lemma_marks_exist(marks: Seq<(usize, usize)>, f: spec_fn((usize, usize)) -> bool)
    requires
        forall|p: (usize, usize)| #[trigger] marks.contains(p) <==> f(p),
    ensures
        (marks.len() > 0) == exists|p: (usize, usize)| #[trigger] f(p),
        forall|j: int| 0 <= j < marks.len() ==> f(#[trigger] marks[j]),
{
    if marks.len() > 0 {
        assert(marks.contains(marks[0]));
    }
    if exists|p: (usize, usize)| #[trigger] f(p) {
        let p = choose|p: (usize, usize)| #[trigger] f(p);
        assert(marks.contains(p));
    }
    assert forall|j: int| 0 <= j < marks.len() implies f(#[trigger] marks[j]) by {
        assert(marks.contains(marks[j]));
    }
}

impl Board {
    /// `p` is the one and only frontier cell of region `r`.
    pub open spec fn single_frontier(&self, r: int, p: (usize, usize)) -> bool {
        &&& self.in_frontier(r, p)
        &&& forall|q: (usize, usize)| #[trigger] self.in_frontier(r, q) ==> q == p
    }

    /// A white region, or an island short of its size, whose only frontier cell is `p`.
    pub open spec fn grows_into(&self, r: int, p: (usize, usize)) -> bool {
        &&& 0 <= r < self.regions.len()
        &&& self.single_frontier(r, p)
        &&& (self.regions[r].state is White || (self.regions[r].state is Island && self.size(r)
            < island_target(self.regions[r].state)))
    }

    /// A sea region below the sea budget whose only frontier cell is `p`.
    pub open spec fn sea_extends_into(&self, r: int, p: (usize, usize)) -> bool {
        &&& 0 <= r < self.regions.len()
        &&& self.single_frontier(r, p)
        &&& self.regions[r].state is Black
        &&& self.size(r) < self.budget
    }

    /// The unknown cell `p` touches two different islands.
    pub open spec fn island_nbr(&self, p: (usize, usize), k: int) -> bool {
        &&& 0 <= k < self.nbrs(p).len()
        &&& self.cell(self.nbrs(p)[k]).is_known()
        &&& self.region_at(self.nbrs(p)[k]).state is Island
    }

    /// Bordering islands: an unknown cell next to two distinct islands must be sea.
    pub open spec fn borders_islands(&self, p: (usize, usize)) -> bool {
        &&& self.in_grid(p)
        &&& self.cell(p) is Unknown
        &&& exists|k1: int, k2: int|
            #[trigger] self.island_nbr(p, k1) && #[trigger] self.island_nbr(p, k2) && self.rid_at(self.nbrs(p)[k1])
                != self.rid_at(self.nbrs(p)[k2])
    }

    /// The 2x2 block at `(x0, y0)` holds `p`, which is unknown, and three sea cells.
    pub open spec fn block_black_but(&self, x0: usize, y0: usize, p: (usize, usize)) -> bool {
        &&& x0 + 1 < self.height
        &&& y0 + 1 < self.width
        &&& (p.0 == x0 || p.0 == x0 + 1)
        &&& (p.1 == y0 || p.1 == y0 + 1)
        &&& self.cell(p) is Unknown
        &&& forall|q: (usize, usize)|
            (q.0 == x0 || q.0 == x0 + 1) && (q.1 == y0 || q.1 == y0 + 1) && q != p ==> #[trigger] self.cell(q) is Black
    }

    /// Potential pool: the unknown cell completing a block of three sea cells must not be sea.
    pub open spec fn fills_pool(&self, p: (usize, usize)) -> bool {
        &&& self.in_grid(p)
        &&& exists|x0: usize, y0: usize| #[trigger] self.block_black_but(x0, y0, p)
    }

    /// The 2x2 block at `(x0, y0)` is all sea.
    pub open spec fn pool_at(&self, x0: usize, y0: usize) -> bool {
        &&& x0 + 1 < self.height
        &&& y0 + 1 < self.width
        &&& self.cell((x0, y0)) is Black
        &&& self.cell(((x0 + 1) as usize, y0)) is Black
        &&& self.cell((x0, (y0 + 1) as usize)) is Black
        &&& self.cell(((x0 + 1) as usize, (y0 + 1) as usize)) is Black
    }

    pub open spec fn has_pool(&self) -> bool {
        exists|x0: usize, y0: usize| #[trigger] self.pool_at(x0, y0)
    }

    /// An island region holds more cells than its clue.
    pub open spec fn island_overflow(&self) -> bool {
        exists|r: int|
            0 <= r < self.regions.len() && (#[trigger] self.regions[r]).state is Island && self.size(r)
                > island_target(self.regions[r].state)
    }

    /// Some island can still take `n` more cells and the cell joining them.
    pub open spec fn white_fits(&self, n: int) -> bool {
        exists|r: int|
            0 <= r < self.regions.len() && (#[trigger] self.regions[r]).state is Island && self.size(r) + n + 1
                <= island_target(self.regions[r].state)
    }

    /// A white region that no island can take in.
    pub open spec fn white_stranded(&self) -> bool {
        exists|r: int|
            0 <= r < self.regions.len() && (#[trigger] self.regions[r]).state is White && !self.white_fits(
                self.size(r) as int,
            )
    }

    /// The contradiction scan.
    pub open spec fn contradiction(&self) -> bool {
        ||| self.has_pool()
        ||| self.island_overflow()
        ||| self.white_stranded()
        ||| self.black_count() > self.budget
        ||| self.white_count() > self.width * self.height - self.budget
    }
}

/// Depth bound of the unreachable-cell search.
pub const MAX_DIST: usize = 15;

/// Verdicts of the unreachable-cell search at one cell.
pub const EXPAND: u8 = 0;
pub const REACHABLE: u8 = 1;
pub const BLOCKED: u8 = 2;

impl Board {
    /// The `j`-th neighbour of `q` is a known cell of a white region or an island.
    pub open spec fn nbr_whiteish(&self, q: (usize, usize), j: int) -> bool {
        &&& 0 <= j < self.nbrs(q).len()
        &&& self.cell(self.nbrs(q)[j]).is_known()
        &&& self.region_at(self.nbrs(q)[j]).state.is_whiteish()
    }

    /// ... and its region is not that of an earlier such neighbour.
    pub open spec fn fresh_nbr(&self, q: (usize, usize), j: int) -> bool {
        &&& self.nbr_whiteish(q, j)
        &&& forall|i: int|
            0 <= i < j && #[trigger] self.nbr_whiteish(q, i) ==> self.rid_at(self.nbrs(q)[i]) != self.rid_at(
                self.nbrs(q)[j],
            )
    }

    /// Total size of the distinct white regions and islands around `q`,
    /// over its first `k` neighbours.
    pub open spec fn nbr_sum(&self, q: (usize, usize), k: int) -> int
        decreases k,
    {
        if k <= 0 {
            0
        } else {
            self.nbr_sum(q, k - 1) + if self.fresh_nbr(q, k - 1) {
                self.size(self.rid_at(self.nbrs(q)[k - 1])) as int
            } else {
                0
            }
        }
    }

    /// Number of distinct islands among the first `k` neighbours of `q`.
    pub open spec fn nbr_islands(&self, q: (usize, usize), k: int) -> int
        decreases k,
    {
        if k <= 0 {
            0
        } else {
            self.nbr_islands(q, k - 1) + if self.fresh_nbr(q, k - 1) && self.region_at(self.nbrs(q)[k - 1]).state is Island {
                1int
            } else {
                0int
            }
        }
    }

    /// Target size of the first island among the first `k` neighbours of `q`.
    pub open spec fn first_island_target(&self, q: (usize, usize), k: int) -> int
        decreases k,
    {
        if k <= 0 {
            0
        } else if self.nbr_islands(q, k - 1) == 0 && self.fresh_nbr(q, k - 1) && self.region_at(self.nbrs(q)[k - 1]).state is Island {
            island_target(self.region_at(self.nbrs(q)[k - 1]).state)
        } else {
            self.first_island_target(q, k - 1)
        }
    }

    /// A white region is among the first `k` neighbours of `q`.
    pub open spec fn nbr_has_white(&self, q: (usize, usize), k: int) -> bool {
        exists|j: int| 0 <= j < k && #[trigger] self.nbr_whiteish(q, j) && self.region_at(self.nbrs(q)[j]).state is White
    }

    /// No white region or island touches `q`: the search goes on through it.
    pub open spec fn free(&self, q: (usize, usize)) -> bool {
        forall|j: int| 0 <= j < self.nbrs(q).len() ==> !#[trigger] self.nbr_whiteish(q, j)
    }

    /// What the unreachable-cell search learns at `q`, reached at distance `d`.
    pub open spec fn verdict(&self, q: (usize, usize), d: int) -> u8 {
        let n = self.nbrs(q).len() as int;
        let total = self.nbr_sum(q, n) + d;
        if self.nbr_islands(q, n) > 1 {
            BLOCKED
        } else if self.nbr_has_white(q, n) && total < usize::MAX && self.white_fits(total) {
            REACHABLE
        } else if self.nbr_islands(q, n) == 1 {
            if total <= self.first_island_target(q, n) {
                REACHABLE
            } else {
                BLOCKED
            }
        } else if self.nbr_has_white(q, n) {
            BLOCKED
        } else {
            EXPAND
        }
    }

    /// Ring labels of the search from `s`: the ring (1 for `s`) in which `q`
    /// is first reached, once `k` rings are known; 0 where it is not reached.
    /// A ring is the unknown cells next to a free cell of the ring before.
    pub open spec fn label(&self, s: (usize, usize), q: (usize, usize), k: nat) -> nat
        decreases k,
    {
        if k == 0 {
            0
        } else if k == 1 {
            if q == s {
                1
            } else {
                0
            }
        } else if self.label(s, q, (k - 1) as nat) != 0 {
            self.label(s, q, (k - 1) as nat)
        } else if self.in_grid(q) && self.cell(q) is Unknown && exists|j: int|
            0 <= j < self.nbrs(q).len() && self.label(s, #[trigger] self.nbrs(q)[j], (k - 1) as nat) == k - 1
                && self.free(self.nbrs(q)[j]) {
            k
        } else {
            0
        }
    }

    /// Unreachable cell: `s` is unknown and the search from it finds, within
    /// `MAX_DIST` rings, no cell from which an island could still reach it.
    pub open spec fn unreachable(&self, s: (usize, usize)) -> bool {
        &&& self.in_grid(s)
        &&& self.cell(s) is Unknown
        &&& forall|q: (usize, usize), d: nat|
            1 <= d <= MAX_DIST && #[trigger] self.label(s, q, d) == d ==> self.verdict(q, d as int) != REACHABLE
    }
}

impl Board {
    /// A region holds no more cells than the grid.
    pub proof fn lemma_count_members_bound(&self, r: int)
        ensures
            self.size(r) <= self.cells.len(),
    {
        lemma_count_members_upto(self.cells, self.rid, r, self.cells.len() as int);
    }
}

proof fn lemma_count_members_upto(cells: Seq<State>, rid: Seq<usize>, r: int, n: int)
    requires
        0 <= n,
    ensures
        count_members(cells, rid, r, n) <= n,
    decreases n,
{
    if n > 0 {
        lemma_count_members_upto(cells, rid, r, n - 1);
    }
}

impl Board {
    proof fn lemma_islands_monotone(&self, q: (usize, usize), j: int, k: int)
        requires
            0 <= j <= k,
        ensures
            0 <= self.nbr_islands(q, j) <= self.nbr_islands(q, k),
        decreases k - j,
    {
        if j < k {
            self.lemma_islands_monotone(q, j, k - 1);
        } else {
            self.lemma_islands_nonneg(q, j);
        }
    }

    proof fn lemma_islands_nonneg(&self, q: (usize, usize), k: int)
        ensures
            0 <= self.nbr_islands(q, k),
        decreases k,
    {
        if k > 0 {
            self.lemma_islands_nonneg(q, k - 1);
        }
    }

    proof fn lemma_islands_zero(&self, q: (usize, usize), k: int)
        requires
            forall|j: int| 0 <= j < k ==> !#[trigger] self.fresh_nbr(q, j),
        ensures
            self.nbr_islands(q, k) == 0,
        decreases k,
    {
        if k > 0 {
            self.lemma_islands_zero(q, k - 1);
        }
    }

    proof fn lemma_first_whiteish(&self, q: (usize, usize), j: int)
        requires
            self.nbr_whiteish(q, j),
        ensures
            exists|i: int| 0 <= i <= j && #[trigger] self.fresh_nbr(q, i) && self.rid_at(self.nbrs(q)[i]) == self.rid_at(self.nbrs(q)[j]),
        decreases j,
    {
        if !self.fresh_nbr(q, j) {
            let i = choose|i: int|
                0 <= i < j && #[trigger] self.nbr_whiteish(q, i) && self.rid_at(self.nbrs(q)[i]) == self.rid_at(self.nbrs(q)[j]);
            self.lemma_first_whiteish(q, i);
        }
    }

    /// The search goes on through `q` just when no white region or island touches it.
    pub proof fn lemma_expand_free(&self, q: (usize, usize), d: int)
        ensures
            (self.verdict(q, d) == EXPAND) == self.free(q),
    {
        let n = self.nbrs(q).len() as int;
        if self.free(q) {
            assert forall|j: int| 0 <= j < n implies !#[trigger] self.fresh_nbr(q, j) by {
                assert(!self.nbr_whiteish(q, j));
            }
            self.lemma_islands_zero(q, n);
            if self.nbr_has_white(q, n) {
                let j = choose|j: int| 0 <= j < n && #[trigger] self.nbr_whiteish(q, j) && self.region_at(self.nbrs(q)[j]).state is White;
                assert(!self.nbr_whiteish(q, j));
            }
            assert(self.verdict(q, d) == EXPAND);
        } else {
            let j = choose|j: int| 0 <= j < n && #[trigger] self.nbr_whiteish(q, j);
            self.lemma_first_whiteish(q, j);
            let i = choose|i: int| 0 <= i <= j && #[trigger] self.fresh_nbr(q, i) && self.rid_at(self.nbrs(q)[i]) == self.rid_at(self.nbrs(q)[j]);
            if self.region_at(self.nbrs(q)[i]).state is Island {
                self.lemma_islands_monotone(q, i + 1, n);
                self.lemma_islands_nonneg(q, i);
                assert(self.nbr_islands(q, i + 1) == self.nbr_islands(q, i) + 1);
                assert(self.nbr_islands(q, n) >= 1);
            } else {
                assert(self.nbr_whiteish(q, i));
                assert(self.nbr_has_white(q, n));
                self.lemma_islands_nonneg(q, n);
            }
            assert(self.verdict(q, d) != EXPAND);
        }
    }
}

impl Board {
    /// The ring label of `p` while ring `d` is scanned, after the cells
    /// before index `i`: rings up to `d` as known, ring `d + 1` as far as the
    /// scanned free cells of ring `d` reach.
    pub open spec fn scan_label(&self, s: (usize, usize), d: nat, p: (usize, usize), i: int) -> nat {
        if self.label(s, p, d) != 0 {
            self.label(s, p, d)
        } else if self.cell(p) is Unknown && exists|j: int|
            0 <= j < self.nbrs(p).len() && self.label(s, #[trigger] self.nbrs(p)[j], d) == d && self.free(self.nbrs(p)[j])
                && idx(self.width, self.nbrs(p)[j]) < i {
            d + 1
        } else {
            0
        }
    }
}

/// Scanning a cell that does not extend the search changes no label.
proof fn lemma_scan_same(b: Board, s: (usize, usize), d: nat, q: (usize, usize), labels: Seq<usize>, i: int)
    requires
        b.cells.len() == b.width * b.height,
        b.in_grid(q),
        idx(b.width, q) == i,
        !(b.label(s, q, d) == d && b.free(q)),
        forall|p: (usize, usize)| b.in_grid(p) ==> #[trigger] labels[idx(b.width, p)] == b.scan_label(s, d, p, i),
    ensures
        forall|p: (usize, usize)| b.in_grid(p) ==> #[trigger] labels[idx(b.width, p)] == b.scan_label(s, d, p, i + 1),
{
    assert forall|p: (usize, usize)| b.in_grid(p) implies #[trigger] labels[idx(b.width, p)] == b.scan_label(s, d, p, i + 1) by {
        lemma_orth_neighbours(b.width, b.height, p.0, p.1);
        if b.scan_label(s, d, p, i + 1) != b.scan_label(s, d, p, i) {
            let j = choose|j: int|
                0 <= j < b.nbrs(p).len() && b.label(s, #[trigger] b.nbrs(p)[j], d) == d && b.free(b.nbrs(p)[j])
                    && idx(b.width, b.nbrs(p)[j]) < i + 1;
            lemma_idx(b.width, b.height, b.nbrs(p)[j]);
        }
    }
}

/// Scanning a free cell `q` of ring `d` labels its unknown, unlabelled
/// neighbours with `d + 1`.
proof fn lemma_scan_expand(
    b: Board,
    s: (usize, usize),
    d: nat,
    q: (usize, usize),
    before: Seq<usize>,
    after: Seq<usize>,
    i: int,
)
    requires
        b.cells.len() == b.width * b.height,
        before.len() == b.cells.len(),
        after.len() == b.cells.len(),
        b.in_grid(q),
        idx(b.width, q) == i,
        1 <= d <= MAX_DIST,
        b.label(s, q, d) == d,
        b.free(q),
        forall|p: (usize, usize)| b.in_grid(p) ==> #[trigger] before[idx(b.width, p)] == b.scan_label(s, d, p, i),
        forall|t: int|
            0 <= t < after.len() && (forall|j: int| 0 <= j < b.nbrs(q).len() ==> t != idx(b.width, b.nbrs(q)[j]))
                ==> #[trigger] after[t] == before[t],
        forall|j: int| 0 <= j < b.nbrs(q).len() ==> {
            let t = idx(b.width, #[trigger] b.nbrs(q)[j]);
            after[t] == if before[t] != 0 { before[t] } else if b.cell(b.nbrs(q)[j]) is Unknown { (d + 1) as usize } else { 0 }
        },
    ensures
        forall|p: (usize, usize)| b.in_grid(p) ==> #[trigger] after[idx(b.width, p)] == b.scan_label(s, d, p, i + 1),
{
    lemma_orth_neighbours(b.width, b.height, q.0, q.1);
    assert forall|p: (usize, usize)| b.in_grid(p) implies #[trigger] after[idx(b.width, p)] == b.scan_label(s, d, p, i + 1) by {
        lemma_idx(b.width, b.height, p);
        lemma_orth_neighbours(b.width, b.height, p.0, p.1);
        if b.nbrs(q).contains(p) {
            let j = choose|j: int| 0 <= j < b.nbrs(q).len() && b.nbrs(q)[j] == p;
            assert(adjacent(p, q));
            assert(b.nbrs(p).contains(q));
            let k = choose|k: int| 0 <= k < b.nbrs(p).len() && b.nbrs(p)[k] == q;
            assert(b.label(s, b.nbrs(p)[k], d) == d && b.free(b.nbrs(p)[k]) && idx(b.width, b.nbrs(p)[k]) < i + 1);
            if b.label(s, p, d) == 0 && b.cell(p) is Unknown {
                assert(b.scan_label(s, d, p, i + 1) == d + 1);
            }
        } else {
            assert forall|j: int| 0 <= j < b.nbrs(q).len() implies idx(b.width, p) != idx(b.width, b.nbrs(q)[j]) by {
                lemma_idx(b.width, b.height, b.nbrs(q)[j]);
            }
            assert(after[idx(b.width, p)] == before[idx(b.width, p)]);
            if b.scan_label(s, d, p, i + 1) != b.scan_label(s, d, p, i) {
                let k = choose|k: int|
                    0 <= k < b.nbrs(p).len() && b.label(s, #[trigger] b.nbrs(p)[k], d) == d && b.free(b.nbrs(p)[k])
                        && idx(b.width, b.nbrs(p)[k]) < i + 1;
                lemma_idx(b.width, b.height, b.nbrs(p)[k]);
                assert(b.nbrs(p)[k] == q);
                assert(adjacent(q, p));
            }
        }
    }
}

impl Board {
    /// Only cells of the grid are reached.
    pub proof fn lemma_label_in_grid(&self, s: (usize, usize), q: (usize, usize), k: nat)
        requires
            self.in_grid(s),
        ensures
            self.label(s, q, k) != 0 ==> self.in_grid(q),
            self.label(s, q, k) <= k,
        decreases k,
    {
        if k > 1 {
            self.lemma_label_in_grid(s, q, (k - 1) as nat);
        }
    }
}

/// Once every cell is scanned, the labels are those of ring `d + 1`.
proof fn lemma_scan_done(b: Board, s: (usize, usize), d: nat, p: (usize, usize))
    requires
        b.cells.len() == b.width * b.height,
        b.in_grid(p),
        d >= 1,
    ensures
        b.scan_label(s, d, p, b.cells.len() as int) == b.label(s, p, d + 1),
{
    lemma_orth_neighbours(b.width, b.height, p.0, p.1);
    if exists|j: int| 0 <= j < b.nbrs(p).len() && b.label(s, #[trigger] b.nbrs(p)[j], d) == d && b.free(b.nbrs(p)[j]) {
        let j = choose|j: int| 0 <= j < b.nbrs(p).len() && b.label(s, #[trigger] b.nbrs(p)[j], d) == d && b.free(b.nbrs(p)[j]);
        lemma_idx(b.width, b.height, b.nbrs(p)[j]);
    }
}

impl Board {
    /// The known cells `a` and `b` lie in two different islands.
    pub open spec fn islands_meet(&self, a: (usize, usize), b: (usize, usize)) -> bool {
        &&& self.cell(b).is_known()
        &&& self.rid_at(a) != self.rid_at(b)
        &&& self.region_at(a).state is Island
        &&& self.region_at(b).state is Island
    }

    /// The regions of `a` and of the known cell `b` differ, are both sea or
    /// both not, and are not both islands: they are to be fused.
    pub open spec fn fusable(&self, a: (usize, usize), b: (usize, usize)) -> bool {
        &&& self.cell(b).is_known()
        &&& self.rid_at(a) != self.rid_at(b)
        &&& !(self.region_at(a).state is Island && self.region_at(b).state is Island)
        &&& (self.region_at(a).state is Black) == (self.region_at(b).state is Black)
    }
}

/// Region records after `lose` is folded into `win`: `win` takes an island
/// state from `lose`, and `lose` is retired.
pub open spec fn merged(regions: Seq<Region>, win: int, lose: int) -> Seq<Region> {
    regions.update(win, if regions[lose].state is Island { regions[lose] } else { regions[win] }).update(
        lose,
        Region { main: regions[lose].main, state: State::Unknown },
    )
}

/// Region ids after the cells of `lose` are handed to `win`.
pub open spec fn renamed(rid: Seq<usize>, win: usize, lose: usize) -> Seq<usize> {
    Seq::new(rid.len(), |j: int| if rid[j] == lose { win } else { rid[j] })
}

impl Board {
    pub open spec fn completes_any(&self) -> bool {
        exists|p: (usize, usize)| self.completes_island(p)
    }

    pub open spec fn single_any(&self) -> bool {
        exists|p: (usize, usize), q: int| self.grows_into(q, p) || self.sea_extends_into(q, p)
    }

    pub open spec fn borders_any(&self) -> bool {
        exists|p: (usize, usize)| self.borders_islands(p)
    }

    pub open spec fn pool_any(&self) -> bool {
        exists|p: (usize, usize)| self.fills_pool(p)
    }

    pub open spec fn unreachable_any(&self) -> bool {
        exists|p: (usize, usize)| self.unreachable(p)
    }
}

/// Two different islands touch `c`.
pub open spec fn two_islands_around(ob: Board, c: (usize, usize)) -> bool {
    exists|j1: int, j2: int|
        #[trigger] ob.island_nbr(c, j1) && #[trigger] ob.island_nbr(c, j2) && ob.rid_at(ob.nbrs(c)[j1]) != ob.rid_at(
            ob.nbrs(c)[j2],
        )
}

/// What marking `c` has done to the regions, compared with the board `ob`
/// before: the region of `c` is an island only by taking in an island next
/// to it among the first `k` neighbours; regions apart from that of `c` are
/// as they were; cells that shared a region still do.
#[verifier::opaque]
pub open spec fn mark_track(ob: Board, b: Board, c: (usize, usize), k: int) -> bool {
    &&& (b.region_at(c).state is Island ==> exists|j: int|
        0 <= j < k && #[trigger] ob.island_nbr(c, j) && b.rid_at(ob.nbrs(c)[j]) == b.rid_at(c))
    &&& forall|p: (usize, usize)|
        #![trigger b.rid_at(p)]
        ob.in_grid(p) && ob.cell(p).is_known() && b.rid_at(p) != b.rid_at(c) ==> b.rid_at(p) == ob.rid_at(p)
            && b.regions[b.rid_at(p)] == ob.regions[ob.rid_at(p)]
    &&& forall|p: (usize, usize), q: (usize, usize)|
        #![trigger b.rid_at(p), b.rid_at(q)]
        ob.in_grid(p) && ob.in_grid(q) && ob.cell(p).is_known() && ob.cell(q).is_known() && ob.rid_at(p) == ob.rid_at(q)
            ==> b.rid_at(p) == b.rid_at(q)
}

proof fn lemma_track_start(ob: Board, b: Board, c: (usize, usize), state: State, n: usize)
    requires
        n == ob.regions.len(),
        ob.consistent(),
        ob.in_grid(c),
        ob.cell(c) is Unknown,
        state == State::White || state == State::Black,
        b.width == ob.width,
        b.height == ob.height,
        b.cells == ob.cells.update(idx(ob.width, c), state),
        b.rid == ob.rid.update(idx(ob.width, c), n),
        b.regions == ob.regions.push(Region { main: c, state }),
    ensures
        mark_track(ob, b, c, 0),
{
    reveal(mark_track);
    reveal(Board::regions_ok);
    lemma_idx(ob.width, ob.height, c);
    assert(b.rid_at(c) == n);
    assert(b.region_at(c).state == state);
    assert forall|p: (usize, usize)|
        #![trigger b.rid_at(p)]
        ob.in_grid(p) && ob.cell(p).is_known() && b.rid_at(p) != b.rid_at(c) implies b.rid_at(p) == ob.rid_at(p)
            && b.regions[b.rid_at(p)] == ob.regions[ob.rid_at(p)] by {
        lemma_idx(ob.width, ob.height, p);
        assert(ob.cells[idx(ob.width, p)].is_known());
    }
    assert forall|p: (usize, usize), q: (usize, usize)|
        #![trigger b.rid_at(p), b.rid_at(q)]
        ob.in_grid(p) && ob.in_grid(q) && ob.cell(p).is_known() && ob.cell(q).is_known() && ob.rid_at(p) == ob.rid_at(q)
            implies b.rid_at(p) == b.rid_at(q) by {
        lemma_idx(ob.width, ob.height, p);
        lemma_idx(ob.width, ob.height, q);
    }
}

#[verifier::rlimit(100)]
proof fn lemma_track_step(ob: Board, pre: Board, post: Board, c: (usize, usize), k: int)
    requires
        ob.consistent(),
        pre.consistent(),
        mark_track(ob, pre, c, k),
        0 <= k < ob.nbrs(c).len(),
        ob.in_grid(c),
        ob.cell(c) is Unknown,
        pre.width == ob.width,
        pre.height == ob.height,
        pre.cells == ob.cells.update(idx(ob.width, c), pre.cell(c)),
        pre.cell(c).is_known(),
        post.width == pre.width,
        post.height == pre.height,
        post.cells == pre.cells,
        post.rid.len() == pre.rid.len(),
        post.regions.len() == pre.regions.len(),
        !pre.fusable(c, ob.nbrs(c)[k]) ==> post.rid == pre.rid && post.regions == pre.regions,
        pre.fusable(c, ob.nbrs(c)[k]) ==> exists|win: usize, lose: usize|
            #![trigger renamed(pre.rid, win, lose)]
            ((win == pre.rid_at(c) && lose == pre.rid_at(ob.nbrs(c)[k])) || (win == pre.rid_at(ob.nbrs(c)[k]) && lose
                == pre.rid_at(c))) && post.rid == renamed(pre.rid, win, lose) && post.regions == merged(pre.regions, win as int, lose as int),
    ensures
        mark_track(ob, post, c, k + 1),
        pre.islands_meet(c, ob.nbrs(c)[k]) ==> two_islands_around(ob, c),
{
    reveal(mark_track);
    reveal(Board::regions_ok);
    lemma_orth_neighbours(ob.width, ob.height, c.0, c.1);
    lemma_idx(ob.width, ob.height, c);
    let m = ob.nbrs(c)[k];
    lemma_idx(ob.width, ob.height, m);
    assert(m != c);
    assert(pre.cell(m) == ob.cell(m));
    if pre.islands_meet(c, m) {
        let j = choose|j: int| 0 <= j < k && #[trigger] ob.island_nbr(c, j) && pre.rid_at(ob.nbrs(c)[j]) == pre.rid_at(c);
        assert(pre.rid_at(m) == ob.rid_at(m));
        assert(ob.island_nbr(c, k));
        if ob.rid_at(ob.nbrs(c)[j]) == ob.rid_at(m) {
            lemma_idx(ob.width, ob.height, ob.nbrs(c)[j]);
            assert(pre.rid_at(ob.nbrs(c)[j]) == pre.rid_at(m));
        }
        assert(two_islands_around(ob, c));
    }
    if pre.fusable(c, m) {
        let (win, lose) = choose|win: usize, lose: usize|
            #![trigger renamed(pre.rid, win, lose)]
            ((win == pre.rid_at(c) && lose == pre.rid_at(m)) || (win == pre.rid_at(m) && lose == pre.rid_at(c)))
                && post.rid == renamed(pre.rid, win, lose) && post.regions == merged(pre.regions, win as int, lose as int);
        assert(pre.rid_at(c) < pre.regions.len());
        assert(pre.cells[idx(ob.width, m)].is_known());
        assert(pre.rid_at(m) < pre.regions.len());
        assert(post.rid_at(c) == win);
        assert(post.rid_at(m) == win);
        if post.region_at(c).state is Island {
            if pre.region_at(c).state is Island {
                let j = choose|j: int| 0 <= j < k && #[trigger] ob.island_nbr(c, j) && pre.rid_at(ob.nbrs(c)[j]) == pre.rid_at(c);
                lemma_idx(ob.width, ob.height, ob.nbrs(c)[j]);
                assert(post.rid_at(ob.nbrs(c)[j]) == post.rid_at(c));
            } else {
                assert(pre.region_at(m).state is Island);
                assert(pre.rid_at(m) == ob.rid_at(m));
                assert(ob.island_nbr(c, k));
            }
        }
        assert forall|p: (usize, usize)|
            #![trigger post.rid_at(p)]
            ob.in_grid(p) && ob.cell(p).is_known() && post.rid_at(p) != post.rid_at(c) implies post.rid_at(p) == ob.rid_at(p)
                && post.regions[post.rid_at(p)] == ob.regions[ob.rid_at(p)] by {
            lemma_idx(ob.width, ob.height, p);
            assert(pre.rid_at(p) != win && pre.rid_at(p) != lose);
            assert(pre.rid_at(p) != pre.rid_at(c));
            assert(p != c);
            assert(pre.cells[idx(ob.width, p)].is_known());
            assert(pre.rid_at(p) < pre.regions.len());
            assert(post.rid_at(p) == pre.rid_at(p));
            assert(post.regions[post.rid_at(p)] == pre.regions[pre.rid_at(p)]);
            assert(pre.rid_at(p) == ob.rid_at(p));
        }
        assert forall|p: (usize, usize), q: (usize, usize)|
            #![trigger post.rid_at(p), post.rid_at(q)]
            ob.in_grid(p) && ob.in_grid(q) && ob.cell(p).is_known() && ob.cell(q).is_known() && ob.rid_at(p) == ob.rid_at(q)
                implies post.rid_at(p) == post.rid_at(q) by {
            lemma_idx(ob.width, ob.height, p);
            lemma_idx(ob.width, ob.height, q);
            assert(pre.rid_at(p) == pre.rid_at(q));
        }
    } else {
        if post.region_at(c).state is Island {
            let j = choose|j: int| 0 <= j < k && #[trigger] ob.island_nbr(c, j) && pre.rid_at(ob.nbrs(c)[j]) == pre.rid_at(c);
        }
        assert forall|p: (usize, usize)|
            #![trigger post.rid_at(p)]
            ob.in_grid(p) && ob.cell(p).is_known() && post.rid_at(p) != post.rid_at(c) implies post.rid_at(p) == ob.rid_at(p)
                && post.regions[post.rid_at(p)] == ob.regions[ob.rid_at(p)] by {
            assert(pre.rid_at(p) != pre.rid_at(c));
        }
        assert forall|p: (usize, usize), q: (usize, usize)|
            #![trigger post.rid_at(p), post.rid_at(q)]
            ob.in_grid(p) && ob.in_grid(q) && ob.cell(p).is_known() && ob.cell(q).is_known() && ob.rid_at(p) == ob.rid_at(q)
                implies post.rid_at(p) == post.rid_at(q) by {
            assert(pre.rid_at(p) == pre.rid_at(q));
        }
    }
}

/// The deductive rule engine.
#[derive(Debug)]
pub struct NaiveSolver {
    width: usize,
    height: usize,
    cells: Vec<State>,
    rid: Vec<usize>,
    regions: Vec<Region>,
    num_black_cells: i128,
    step: Step,
    solved: bool,
    iteration: usize,
    pub explenation: String,
    pub verbose: bool,
}

/// Sum of the clue values of `data` below index `n`.
pub open spec fn clue_total(data: Seq<i32>, n: int) -> int
    decreases n,
{
    if n <= 0 {
        0
    } else {
        clue_total(data, n - 1) + (if data[n - 1] > 0 {
            data[n - 1] as int
        } else {
            0
        })
    }
}

/// The cells that `data` describes: clues, the rest unknown.
pub open spec fn initial_cells(data: Seq<i32>) -> Seq<State> {
    Seq::new(data.len(), |i: int| if data[i] <= 0 { State::Unknown } else { State::Island(data[i]) })
}

/// Display codes of the cells.
pub open spec fn display_codes(cells: Seq<State>) -> Seq<i32> {
    Seq::new(cells.len(), |i: int| state_code(cells[i]))
}

impl NaiveSolver {
    pub closed spec fn board(&self) -> Board {
        Board {
            width: self.width,
            height: self.height,
            cells: self.cells@,
            rid: self.rid@,
            regions: self.regions@,
            budget: self.num_black_cells as int,
        }
    }

    /// A contradiction was found; the solver stays there.
    pub closed spec fn contradicted(&self) -> bool {
        self.step == Step::Contradiction
    }

    pub closed spec fn iteration_spec(&self) -> usize {
        self.iteration
    }

    /// The explanation of the last step where explanations are on, else nothing.
    pub closed spec fn shown_explanation(&self) -> Seq<char> {
        if self.verbose {
            self.explenation@
        } else {
            Seq::<char>::empty()
        }
    }

    pub closed spec fn solved_spec(&self) -> bool {
        self.solved
    }

    pub closed spec fn wf(&self) -> bool {
        &&& self.board().consistent()
        &&& (self.step == Step::Proceed || self.step == Step::Contradiction)
        &&& self.step == Step::Proceed ==> self.board().fused()
    }

    #[verifier::rlimit(60)]
    pub fn new(nurikabe: Nurikabe) -> (r: Self)
        requires
            nurikabe.well_formed(),
        ensures
            r.wf(),
            r.board().width == nurikabe.width,
            r.board().height == nurikabe.height,
            r.board().cells == initial_cells(nurikabe.data@),
            r.board().budget == nurikabe.width * nurikabe.height - clue_total(
                nurikabe.data@,
                nurikabe.data@.len() as int,
            ),
            r.iteration_spec() == 0,
            !r.solved_spec(),

            r.contradicted() <==> exists|p: (usize, usize), q: (usize, usize)|
                r.board().in_grid(p) && r.board().in_grid(q) && adjacent(p, q)
                    && #[trigger] r.board().cell(p) is Island && #[trigger] r.board().cell(q) is Island,
            r.board().rid.len() == nurikabe.data@.len(),
            forall|i: int|
                0 <= i < nurikabe.data@.len() && nurikabe.data@[i] > 0 ==> {
                    &&& r.board().rid[i] < r.board().regions.len()
                    &&& (#[trigger] r.board().regions[r.board().rid[i] as int]).state == State::Island(nurikabe.data@[i])
                    &&& idx(nurikabe.width, r.board().regions[r.board().rid[i] as int].main) == i
                },
            forall|k: int|
                0 <= k < r.board().regions.len() ==> (#[trigger] r.board().regions[k]).state is Island
                    && in_grid(nurikabe.width, nurikabe.height, r.board().regions[k].main)
                    && r.board().rid[idx(nurikabe.width, r.board().regions[k].main)] == k,
    {
        let width = nurikabe.width;
        let height = nurikabe.height;
        let data = nurikabe.data;
        let n = data.len();
        let mut cells: Vec<State> = Vec::new();
        let mut rid: Vec<usize> = Vec::new();
        let mut regions: Vec<Region> = Vec::new();
        let mut total: i128 = 0;
        let mut i: usize = 0;
        let mut x: usize = 0;
        let mut y: usize = 0;
        if n > 0 {
            assert(width > 0 && height > 0) by (nonlinear_arith)
                requires n == width * height, n > 0;
        }
        while i < n
            invariant
                n == data@.len(),
                n == width * height,
                i <= n,
                i == x * width + y,
                i < n ==> x < height && y < width,
                cells@ == initial_cells(data@).subrange(0, i as int),
                rid@.len() == i,
                total == clue_total(data@, i as int),
                0 <= total <= i * 0x8000_0000,
                forall|j: int|
                    0 <= j < i && (#[trigger] cells@[j]).is_known() ==> {
                        &&& rid@[j] < regions@.len()
                        &&& regions@[rid@[j] as int].state == cells@[j]
                        &&& idx(width, regions@[rid@[j] as int].main) == j
                    },
                forall|r: int|
                    0 <= r < regions@.len() ==> {
                        &&& (#[trigger] regions@[r]).state is Island
                        &&& in_grid(width, height, regions@[r].main)
                        &&& idx(width, regions@[r].main) < i
                        &&& cells@[idx(width, regions@[r].main)] == regions@[r].state
                        &&& rid@[idx(width, regions@[r].main)] == r
                    },
            decreases n - i,
        {
            let val = data[i];
            let state = State::new(val);
            proof {
                lemma_idx(width, height, (x, y));
            }
            if val > 0 {
                total = total + val as i128;
                rid.push(regions.len());
                regions.push(Region::new(x, y, state));
            } else {
                rid.push(0);
            }
            cells.push(state);
            assert(cells@ =~= initial_cells(data@).subrange(0, i + 1));
            i = i + 1;
            y = y + 1;
            if y == width {
                y = 0;
                x = x + 1;
                assert(i == x * width) by (nonlinear_arith)
                    requires i == (x - 1) * width + width;
            }
            proof {
                if i < n && x >= height {
                    assert(x * width + y >= width * height) by (nonlinear_arith)
                        requires x >= height, y >= 0, width >= 0;
                    assert(false);
                }
                assert(i < n ==> y < width);
                assert(i < n ==> x < height);
                assert(i * 0x8000_0000 == (i - 1) * 0x8000_0000 + 0x8000_0000) by (nonlinear_arith);
            }
        }
        assert(cells@ =~= initial_cells(data@));
        assert forall|i: int| 0 <= i < n && data@[i] > 0 implies {
            &&& rid@[i] < regions@.len()
            &&& (#[trigger] regions@[rid@[i] as int]).state == State::Island(data@[i])
            &&& idx(width, regions@[rid@[i] as int].main) == i
        } by {
            assert(cells@[i].is_known());
        }
        assert(n * 0x8000_0000 <= 0xffff_ffff_ffff_ffff * 0x8000_0000) by (nonlinear_arith)
            requires n <= 0xffff_ffff_ffff_ffff;
        proof {
            reveal(Board::regions_ok);
        }
        let mut s = NaiveSolver {
            width,
            height,
            cells,
            rid,
            regions,
            num_black_cells: n as i128 - total,
            step: Step::Proceed,
            solved: false,
            iteration: 0,
            explenation: String::new(),
            verbose: false,
        };
        if s.has_adjacent_clues() {
            s.step = Step::Contradiction;
        }
        s
    }

    /// The fields that the marking machinery leaves alone.
    pub closed spec fn same_frame(&self, other: &NaiveSolver) -> bool {
        &&& self.width == other.width
        &&& self.height == other.height
        &&& self.num_black_cells == other.num_black_cells
        &&& self.iteration == other.iteration
        &&& self.solved == other.solved
        &&& self.verbose == other.verbose
    }

    /// Number of known cells of region `r`.
    fn region_size(&self, r: usize) -> (n: usize)
        requires
            self.board().consistent(),
        ensures
            n == self.board().size(r as int),
    {
        let len = self.cells.len();
        let mut n: usize = 0;
        let mut i: usize = 0;
        while i < len
            invariant
                len == self.cells@.len(),
                self.rid@.len() == len,
                i <= len,
                n == count_members(self.cells@, self.rid@, r as int, i as int),
                n <= i,
            decreases len - i,
        {
            let known = match self.cells[i] {
                State::Unknown => false,
                _ => true,
            };
            if known && self.rid[i] == r {
                n = n + 1;
            }
            i = i + 1;
        }
        n
    }

    /// Gives the unknown cell `(x, y)` a new region of its own.
    fn add_region(&mut self, state: State, x: usize, y: usize)
        requires
            old(self).board().consistent(),
            in_grid(old(self).width, old(self).height, (x, y)),
            old(self).board().cell((x, y)) is Unknown,
            state == State::White || state == State::Black,
        ensures
            final(self).board().consistent(),
            final(self).same_frame(old(self)),
            final(self).step == old(self).step,
            final(self).board().cells == old(self).board().cells.update(idx(old(self).width, (x, y)), state),
            final(self).board().rid == old(self).board().rid.update(
                idx(old(self).width, (x, y)),
                old(self).board().regions.len() as usize,
            ),
            final(self).board().regions == old(self).board().regions.push(Region { main: (x, y), state }),
    {
        proof {
            reveal(Board::regions_ok);
        }
        let i = self.index(x, y);
        let n = self.regions.len();
        self.regions.push(Region::new(x, y, state));
        self.rid.set(i, n);
        self.cells.set(i, state);
        proof {
            lemma_idx(self.width, self.height, (x, y));
            let b = self.board();
            assert forall|r: int| 0 <= r < b.regions.len() && (#[trigger] b.regions[r]).state is Island implies {
                &&& b.in_grid(b.regions[r].main)
                &&& b.cell(b.regions[r].main) == b.regions[r].state
                &&& b.rid_at(b.regions[r].main) == r
            } by {
                let o = old(self).board();
                assert(r < n);
                assert(o.regions[r] == b.regions[r]);
                let m = o.regions[r].main;
                lemma_idx(self.width, self.height, m);
                assert(o.cell(m) is Island);
                assert(idx(self.width, m) != idx(self.width, (x, y)));
                assert(b.cell(m) == o.cell(m));
                assert(b.rid_at(m) == o.rid_at(m));
            }
        }
    }

    /// Folds region `lose` into region `win`: its cells are handed over, and an
    /// island's clue with them; the record of `lose` is retired.
    #[verifier::rlimit(50)]
    fn absorb(&mut self, win: usize, lose: usize)
        requires
            old(self).board().consistent(),
            win != lose,
            win < old(self).regions@.len(),
            lose < old(self).regions@.len(),
            old(self).regions@[win as int].state.is_known(),
            old(self).regions@[lose as int].state.is_known(),
            (old(self).regions@[win as int].state is Black) == (old(self).regions@[lose as int].state is Black),
            !(old(self).regions@[win as int].state is Island && old(self).regions@[lose as int].state is Island),
        ensures
            final(self).board().consistent(),
            final(self).same_frame(old(self)),
            final(self).step == old(self).step,
            final(self).cells@ == old(self).cells@,
            final(self).regions@.len() == old(self).regions@.len(),
            final(self).rid@.len() == old(self).rid@.len(),
            forall|j: int| 0 <= j < old(self).rid@.len() ==> #[trigger] final(self).rid@[j] == if old(self).rid@[j] == lose {
                win
            } else {
                old(self).rid@[j]
            },
            final(self).rid@ == renamed(old(self).rid@, win, lose),
            final(self).regions@ == merged(old(self).regions@, win as int, lose as int),
    {
        proof {
            reveal(Board::regions_ok);
        }
        let lost = self.regions[lose];
        if lost.is_island() {
            self.regions.set(win, lost);
        }
        self.regions.set(lose, Region::unknown(lost.main.0, lost.main.1));
        let len = self.rid.len();
        let mut i: usize = 0;
        while i < len
            invariant
                len == self.rid@.len(),
                len == old(self).rid@.len(),
                i <= len,
                forall|j: int| 0 <= j < i ==> #[trigger] self.rid@[j] == if old(self).rid@[j] == lose {
                    win
                } else {
                    old(self).rid@[j]
                },
                forall|j: int| i <= j < len ==> #[trigger] self.rid@[j] == old(self).rid@[j],
                self.cells@ == old(self).cells@,
                self.regions@ == old(self).regions@.update(
                    win as int,
                    if lost.state is Island { lost } else { old(self).regions@[win as int] },
                ).update(lose as int, Region { main: lost.main, state: State::Unknown }),
                self.same_frame(old(self)),
                self.step == old(self).step,
                lost == old(self).regions@[lose as int],
            decreases len - i,
        {
            if self.rid[i] == lose {
                self.rid.set(i, win);
            }
            i = i + 1;
        }
        proof {
            let o = old(self).board();
            let b = self.board();
            assert forall|i: int| 0 <= i < b.cells.len() && (#[trigger] b.cells[i]).is_known() implies {
                &&& b.rid[i] < b.regions.len()
                &&& (b.cells[i] is Black) == (b.regions[b.rid[i] as int].state is Black)
                &&& b.regions[b.rid[i] as int].state.is_known()
            } by {
                assert(o.cells[i] == b.cells[i]);
            }
            assert forall|i: int| 0 <= i < b.cells.len() && (#[trigger] b.cells[i]) is Island implies {
                &&& b.regions[b.rid[i] as int].state == b.cells[i]
                &&& idx(b.width, b.regions[b.rid[i] as int].main) == i
            } by {
                assert(o.cells[i] == b.cells[i]);
                let r = o.rid[i] as int;
                assert(o.regions[r].state == o.cells[i]);
            }
            assert forall|r: int| 0 <= r < b.regions.len() && (#[trigger] b.regions[r]).state is Island implies {
                &&& b.in_grid(b.regions[r].main)
                &&& b.cell(b.regions[r].main) == b.regions[r].state
                &&& b.rid_at(b.regions[r].main) == r
            } by {
                if r == win {
                    if lost.state is Island {
                        assert(o.regions[lose as int].state is Island);
                        let m = lost.main;
                        lemma_idx(b.width, b.height, m);
                        assert(o.rid_at(m) == lose);
                        assert(self.rid@[idx(b.width, m)] == win);
                    } else {
                        assert(o.regions[r].state is Island);
                        let m = o.regions[r].main;
                        lemma_idx(b.width, b.height, m);
                        assert(o.rid_at(m) == r);
                        assert(self.rid@[idx(b.width, m)] == win);
                    }
                } else {
                    assert(o.regions[r] == b.regions[r]);
                    let m = o.regions[r].main;
                    lemma_idx(b.width, b.height, m);
                    assert(o.rid_at(m) == r);
                    assert(self.rid@[idx(b.width, m)] == r);
                }
            }
        }
        assert(self.rid@ =~= renamed(old(self).rid@, win, lose));
        assert(self.regions@ =~= merged(old(self).regions@, win as int, lose as int));
    }

    /// Fuses the region of the known cell `a` with that of its neighbour `b`
    /// where both are sea or both are not. Two islands meeting is a
    /// contradiction.
    fn fuse_region(&mut self, a: (usize, usize), b: (usize, usize))
        requires
            old(self).board().consistent(),
            old(self).step == Step::Proceed || old(self).step == Step::Contradiction,
            old(self).board().in_grid(a),
            old(self).board().in_grid(b),
            old(self).board().cell(a).is_known(),
        ensures
            final(self).board().consistent(),
            final(self).same_frame(old(self)),
            final(self).cells@ == old(self).cells@,
            final(self).regions@.len() == old(self).regions@.len(),
            final(self).step == old(self).step || final(self).step == Step::Contradiction,
            forall|i: int, j: int|
                0 <= i < old(self).cells@.len() && 0 <= j < old(self).cells@.len()
                    && old(self).rid@[i] == old(self).rid@[j] ==> #[trigger] final(self).rid@[i]
                    == #[trigger] final(self).rid@[j],
            final(self).step == Step::Proceed && old(self).board().cell(b).is_known() && (old(self).board().cell(a) is Black) == (old(self).board().cell(b) is Black) ==> final(self).board().rid_at(a) == final(self).board().rid_at(b),
            (final(self).step == Step::Contradiction) == (old(self).step == Step::Contradiction
                || old(self).board().islands_meet(a, b)),
            !old(self).board().fusable(a, b) ==> final(self).rid@ == old(self).rid@ && final(self).regions@
                == old(self).regions@,
            old(self).board().fusable(a, b) ==> exists|win: usize, lose: usize|
                #![trigger renamed(old(self).rid@, win, lose)]
                ((win == old(self).board().rid_at(a) && lose == old(self).board().rid_at(b)) || (win
                    == old(self).board().rid_at(b) && lose == old(self).board().rid_at(a)))
                    && final(self).rid@ == renamed(old(self).rid@, win, lose) && final(self).regions@ == merged(
                    old(self).regions@,
                    win as int,
                    lose as int,
                ),
    {
        proof {
            reveal(Board::regions_ok);
        }
        let ia = self.index(a.0, a.1);
        let ib = self.index(b.0, b.1);
        let known_b = match self.cells[ib] {
            State::Unknown => false,
            _ => true,
        };
        if !known_b {
            return;
        }
        let ra = self.rid[ia];
        let rb = self.rid[ib];
        if ra == rb {
            return;
        }
        let main_region = self.regions[ra];
        let region = self.regions[rb];
        if main_region.is_island() && region.is_island() {
            self.step = Step::Contradiction;
            return;
        }
        if main_region.is_black() != region.is_black() {
            return;
        }
        let sa = self.region_size(ra);
        let sb = self.region_size(rb);
        if sa >= sb {
            self.absorb(ra, rb);
        } else {
            self.absorb(rb, ra);
        }
    }

    /// Classifies the unknown cell `(x, y)` as `state` and fuses it with its
    /// neighbours. Marking a known cell is a contradiction.
    fn mark(&mut self, x: usize, y: usize, state: State)
        requires
            old(self).wf(),
            in_grid(old(self).width, old(self).height, (x, y)),
            state == State::White || state == State::Black,
        ensures
            final(self).wf(),
            final(self).same_frame(old(self)),
            old(self).board().cell((x, y)) is Unknown ==> final(self).board().cells == old(self).board().cells.update(idx(old(self).width, (x, y)), state),
            !(old(self).board().cell((x, y)) is Unknown) ==> final(self).board().cells == old(self).board().cells && final(self).contradicted()
                && final(self).board().rid == old(self).board().rid && final(self).board().regions == old(self).board().regions,
            old(self).contradicted() ==> final(self).contradicted(),
            state == State::Black && old(self).board().cell((x, y)) is Unknown ==> (final(self).contradicted() == old(self).contradicted()),
            old(self).board().cell((x, y)) is Unknown && final(self).contradicted() ==> old(self).contradicted()
                || two_islands_around(old(self).board(), (x, y)),
    {
        let i = self.index(x, y);
        let known = match self.cells[i] {
            State::Unknown => false,
            _ => true,
        };
        if known {
            self.step = Step::Contradiction;
            return;
        }
        let ghost c = (x, y);
        let ghost before = self.board();
        let nreg = self.regions.len();
        self.add_region(state, x, y);
        proof {
            lemma_orth_neighbours(self.width, self.height, x, y);
            lemma_idx(self.width, self.height, c);
            if self.step == Step::Proceed {
                lemma_fused_except_after_add(before, self.board(), c);
            }
            reveal(joined_upto);
            lemma_track_start(before, self.board(), c, state, nreg);
        }
        let nb = for_valid_neighbours(self.width, self.height, x, y);
        let mut k: usize = 0;
        while k < nb.len()
            invariant
                self.board().consistent(),
                self.step == Step::Proceed || self.step == Step::Contradiction,
                old(self).step == Step::Contradiction ==> self.step == Step::Contradiction,
                self.same_frame(old(self)),
                c == (x, y),
                in_grid(self.width, self.height, c),
                self.board().cell(c) == state,
                state == State::White || state == State::Black,
                old(self).board().cells.len() == self.width * self.height,
                self.board().cells == old(self).board().cells.update(idx(self.width, c), state),
                nb@ == orth_neighbours(self.width, self.height, x, y),
                k <= nb@.len(),
                forall|j: int| 0 <= j < nb@.len() ==> in_grid(self.width, self.height, #[trigger] nb@[j]) && adjacent(c, nb@[j]),
                self.step == Step::Proceed ==> fused_except(self.board(), c),
                self.step == Step::Proceed ==> joined_upto(self.board(), c, nb@, k as int),
                state == State::Black ==> self.step == old(self).step,
                before == old(self).board(),
                before.consistent(),
                before.cell(c) is Unknown,
                mark_track(before, self.board(), c, k as int),
                self.step == Step::Contradiction ==> old(self).step == Step::Contradiction || two_islands_around(before, c),
            decreases nb@.len() - k,
        {
            let ghost pre = self.board();
            proof {
                lemma_idx(self.width, self.height, nb@[k as int]);
                reveal(Board::regions_ok);
                lemma_idx(self.width, self.height, c);
                if state == State::Black {
                    assert(self.board().cells[idx(self.width, c)].is_known());
                    assert(!self.board().islands_meet(c, nb@[k as int]));
                }
            }
            self.fuse_region((x, y), nb[k]);
            proof {
                if self.step == Step::Proceed {
                    lemma_fused_keep(pre, self.board(), c, nb@, k as int);
                }
                lemma_track_step(before, pre, self.board(), c, k as int);
            }
            k = k + 1;
        }
        proof {
            if self.step == Step::Proceed {
                lemma_fused_complete(self.board(), c, nb@);
            }
        }
    }

    /// The cells whose flag is set, in row-major order.
    fn collect_marked(&self, flags: &Vec<bool>) -> (r: Vec<(usize, usize)>)
        requires
            self.board().consistent(),
            flags@.len() == self.cells@.len(),
        ensures
            r@.no_duplicates(),
            forall|j: int| 0 <= j < r@.len() ==> self.board().in_grid(#[trigger] r@[j]),
            forall|p: (usize, usize)| #[trigger] r@.contains(p) <==> self.board().in_grid(p) && flags@[idx(self.width, p)],
    {
        let n = flags.len();
        let width = self.width;
        let height = self.height;
        let mut r: Vec<(usize, usize)> = Vec::new();
        let mut i: usize = 0;
        let mut x: usize = 0;
        let mut y: usize = 0;
        if n > 0 {
            assert(width > 0 && height > 0) by (nonlinear_arith)
                requires n == width * height, n > 0;
        }
        while i < n
            invariant
                n == flags@.len(),
                n == width * height,
                width == self.width,
                height == self.height,
                i <= n,
                i == x * width + y,
                i < n ==> x < height && y < width,
                r@.no_duplicates(),
                forall|j: int| 0 <= j < r@.len() ==> in_grid(width, height, #[trigger] r@[j]) && idx(width, r@[j]) < i
                    && flags@[idx(width, r@[j])],
                forall|p: (usize, usize)| in_grid(width, height, p) && idx(width, p) < i && flags@[idx(width, p)] ==> #[trigger] r@.contains(p),
            decreases n - i,
        {
            proof {
                lemma_idx(width, height, (x, y));
            }
            if flags[i] {
                let ghost before = r@;
                r.push((x, y));
                assert forall|p: (usize, usize)| in_grid(width, height, p) && idx(width, p) < i + 1 && flags@[idx(width, p)] implies #[trigger] r@.contains(p) by {
                    if idx(width, p) == i {
                        lemma_idx(width, height, p);
                        assert(r@[r@.len() - 1] == p);
                    } else {
                        assert(before.contains(p));
                        let j = choose|j: int| 0 <= j < before.len() && before[j] == p;
                        assert(r@[j] == p);
                    }
                }
            }
            i = i + 1;
            y = y + 1;
            if y == width {
                y = 0;
                x = x + 1;
                assert(i == x * width) by (nonlinear_arith)
                    requires i == (x - 1) * width + width;
            }
            proof {
                if i < n && x >= height {
                    assert(x * width + y >= width * height) by (nonlinear_arith)
                        requires x >= height, y >= 0, width >= 0;
                    assert(false);
                }
            }
        }
        assert forall|p: (usize, usize)| #[trigger] r@.contains(p) implies self.board().in_grid(p) && flags@[idx(self.width, p)] by {
            let j = choose|j: int| 0 <= j < r@.len() && r@[j] == p;
        }
        assert forall|p: (usize, usize)| self.board().in_grid(p) && flags@[idx(self.width, p)] implies #[trigger] r@.contains(p) by {
            lemma_idx(width, height, p);
        }
        r
    }

    /// Marks the cells of `mark_white` white, then those of `mark_black` black.
    /// Returns whether there was anything to mark.
    fn update_grid(&mut self, mark_white: Vec<(usize, usize)>, mark_black: Vec<(usize, usize)>, explenation: &str) -> (r: bool)
        requires
            old(self).wf(),
            mark_white@.no_duplicates(),
            mark_black@.no_duplicates(),
            forall|j: int| 0 <= j < mark_white@.len() ==> old(self).board().in_grid(#[trigger] mark_white@[j])
                && old(self).board().cell(mark_white@[j]) is Unknown,
            forall|j: int| 0 <= j < mark_black@.len() ==> old(self).board().in_grid(#[trigger] mark_black@[j])
                && old(self).board().cell(mark_black@[j]) is Unknown,
        ensures
            final(self).wf(),
            final(self).same_frame(old(self)),
            r == (mark_white@.len() > 0 || mark_black@.len() > 0),
            !r ==> *final(self) == *old(self),
            final(self).board().cells.len() == old(self).board().cells.len(),
            forall|p: (usize, usize)| old(self).board().in_grid(p) ==> #[trigger] final(self).board().cell(p) == if mark_white@.contains(p) {
                State::White
            } else if mark_black@.contains(p) {
                State::Black
            } else {
                old(self).board().cell(p)
            },
            old(self).contradicted() ==> final(self).contradicted(),
            (exists|p: (usize, usize)| mark_white@.contains(p) && mark_black@.contains(p)) ==> final(self).contradicted(),
    {
        if mark_white.len() == 0 && mark_black.len() == 0 {
            return false;
        }
        let ghost o = self.board();
        let mut k: usize = 0;
        while k < mark_white.len()
            invariant
                self.wf(),
                self.same_frame(old(self)),
                o == old(self).board(),
                old(self).contradicted() ==> self.contradicted(),
                k <= mark_white@.len(),
                mark_white@.no_duplicates(),
                forall|j: int| 0 <= j < mark_white@.len() ==> o.in_grid(#[trigger] mark_white@[j]) && o.cell(mark_white@[j]) is Unknown,
                self.board().cells.len() == o.cells.len(),
                forall|p: (usize, usize)| o.in_grid(p) ==> #[trigger] self.board().cell(p) == if mark_white@.subrange(0, k as int).contains(p) {
                    State::White
                } else {
                    o.cell(p)
                },
            decreases mark_white@.len() - k,
        {
            let (x, y) = mark_white[k];
            let ghost pre = self.board();
            proof {
                let q = mark_white@[k as int];
                if mark_white@.subrange(0, k as int).contains(q) {
                    let j = choose|j: int| 0 <= j < k && mark_white@.subrange(0, k as int)[j] == q;
                    assert(mark_white@[j] == q);
                }
                assert(pre.cell(q) is Unknown);
            }
            self.mark(x, y, State::White);
            proof {
                let q = mark_white@[k as int];
                lemma_idx(o.width, o.height, q);
                assert forall|p: (usize, usize)| o.in_grid(p) implies #[trigger] self.board().cell(p) == if mark_white@.subrange(0, k + 1).contains(p) {
                    State::White
                } else {
                    o.cell(p)
                } by {
                    lemma_idx(o.width, o.height, p);
                    lemma_prefix_contains(mark_white@, k as int, p);
                    if p != q {
                        assert(self.board().cell(p) == pre.cell(p));
                    }
                }
            }
            k = k + 1;
        }
        assert(mark_white@.subrange(0, mark_white@.len() as int) == mark_white@);
        let ghost mid = self.board();
        let mut k: usize = 0;
        while k < mark_black.len()
            invariant
                self.wf(),
                self.same_frame(old(self)),
                o == old(self).board(),
                old(self).contradicted() ==> self.contradicted(),
                k <= mark_black@.len(),
                mark_black@.no_duplicates(),
                forall|j: int| 0 <= j < mark_black@.len() ==> o.in_grid(#[trigger] mark_black@[j]) && o.cell(mark_black@[j]) is Unknown,
                forall|j: int| 0 <= j < k && mark_white@.contains(#[trigger] mark_black@[j]) ==> self.contradicted(),
                self.board().cells.len() == o.cells.len(),
                forall|p: (usize, usize)| o.in_grid(p) ==> #[trigger] self.board().cell(p) == if mark_white@.contains(p) {
                    State::White
                } else if mark_black@.subrange(0, k as int).contains(p) {
                    State::Black
                } else {
                    o.cell(p)
                },
            decreases mark_black@.len() - k,
        {
            let (x, y) = mark_black[k];
            let ghost pre = self.board();
            proof {
                let q = mark_black@[k as int];
                if mark_black@.subrange(0, k as int).contains(q) {
                    let j = choose|j: int| 0 <= j < k && mark_black@.subrange(0, k as int)[j] == q;
                    assert(mark_black@[j] == q);
                }
            }
            self.mark(x, y, State::Black);
            proof {
                let q = mark_black@[k as int];
                lemma_idx(o.width, o.height, q);
                assert forall|p: (usize, usize)| o.in_grid(p) implies #[trigger] self.board().cell(p) == if mark_white@.contains(p) {
                    State::White
                } else if mark_black@.subrange(0, k + 1).contains(p) {
                    State::Black
                } else {
                    o.cell(p)
                } by {
                    lemma_idx(o.width, o.height, p);
                    lemma_prefix_contains(mark_black@, k as int, p);
                    if p != q {
                        assert(self.board().cell(p) == pre.cell(p));
                    }
                }
            }
            k = k + 1;
        }
        assert(mark_black@.subrange(0, mark_black@.len() as int) == mark_black@);
        assert((exists|p: (usize, usize)| mark_white@.contains(p) && mark_black@.contains(p)) ==> self.contradicted()) by {
            if exists|p: (usize, usize)| mark_white@.contains(p) && mark_black@.contains(p) {
                let p = choose|p: (usize, usize)| mark_white@.contains(p) && mark_black@.contains(p);
                let j = choose|j: int| 0 <= j < mark_black@.len() && mark_black@[j] == p;
            }
        }
        if self.verbose {
            self.explenation = explenation.to_owned();
        }
        true
    }

    /// The size of every region, by id.
    fn region_sizes(&self) -> (v: Vec<usize>)
        requires
            self.board().consistent(),
        ensures
            v@.len() == self.regions@.len(),
            forall|r: int| 0 <= r < v@.len() ==> #[trigger] v@[r] == self.board().size(r),
    {
        proof {
            reveal(Board::regions_ok);
        }
        let len = self.cells.len();
        let nr = self.regions.len();
        let mut v: Vec<usize> = Vec::new();
        let mut r: usize = 0;
        while r < nr
            invariant
                nr == self.regions@.len(),
                r <= nr,
                v@.len() == r,
                forall|j: int| 0 <= j < r ==> #[trigger] v@[j] == 0,
            decreases nr - r,
        {
            v.push(0);
            r = r + 1;
        }
        let mut i: usize = 0;
        while i < len
            invariant
                len == self.cells@.len(),
                self.board().consistent(),
                nr == self.regions@.len(),
                v@.len() == nr,
                i <= len,
                forall|j: int| 0 <= j < nr ==> #[trigger] v@[j] == count_members(self.cells@, self.rid@, j, i as int)
                    && v@[j] <= i,
            decreases len - i,
        {
            let known = match self.cells[i] {
                State::Unknown => false,
                _ => true,
            };
            if known {
                proof {
                    reveal(Board::regions_ok);
                    assert(self.cells@[i as int].is_known());
                }
                let r = self.rid[i];
                let c = v[r];
                v.set(r, c + 1);
            }
            i = i + 1;
        }
        v
    }

    /// Flags every cell for which `f` holds.
    fn flag_cells<F: Fn(usize, usize) -> bool>(&self, f: F) -> (v: Vec<bool>)
        requires
            self.board().consistent(),
            forall|x: usize, y: usize| in_grid(self.width, self.height, (x, y)) ==> #[trigger] f.requires((x, y)),
        ensures
            v@.len() == self.cells@.len(),
            forall|p: (usize, usize)| in_grid(self.width, self.height, p) ==> f.ensures((p.0, p.1), #[trigger] v@[idx(self.width, p)]),
    {
        let n = self.cells.len();
        let width = self.width;
        let height = self.height;
        let mut v: Vec<bool> = Vec::new();
        let mut i: usize = 0;
        let mut x: usize = 0;
        let mut y: usize = 0;
        if n > 0 {
            assert(width > 0 && height > 0) by (nonlinear_arith)
                requires n == width * height, n > 0;
        }
        while i < n
            invariant
                n == width * height,
                width == self.width,
                height == self.height,
                i <= n,
                i == x * width + y,
                i < n ==> x < height && y < width,
                v@.len() == i,
                forall|x: usize, y: usize| in_grid(width, height, (x, y)) ==> #[trigger] f.requires((x, y)),
                forall|p: (usize, usize)| in_grid(width, height, p) && idx(width, p) < i ==> f.ensures((p.0, p.1), #[trigger] v@[idx(width, p)]),
            decreases n - i,
        {
            proof {
                lemma_idx(width, height, (x, y));
            }
            let b = f(x, y);
            v.push(b);
            proof {
                assert forall|p: (usize, usize)| in_grid(width, height, p) && idx(width, p) < i + 1 implies f.ensures((p.0, p.1), #[trigger] v@[idx(width, p)]) by {
                    lemma_idx(width, height, p);
                    if idx(width, p) == i {
                        assert(p == (x, y));
                    }
                }
            }
            i = i + 1;
            y = y + 1;
            if y == width {
                y = 0;
                x = x + 1;
                assert(i == x * width) by (nonlinear_arith)
                    requires i == (x - 1) * width + width;
            }
            proof {
                if i < n && x >= height {
                    assert(x * width + y >= width * height) by (nonlinear_arith)
                        requires x >= height, y >= 0, width >= 0;
                    assert(false);
                }
            }
        }
        assert forall|p: (usize, usize)| in_grid(width, height, p) implies f.ensures((p.0, p.1), #[trigger] v@[idx(width, p)]) by {
            lemma_idx(width, height, p);
        }
        v
    }

    /// Whether `(x, y)` is unknown and next to a completed island.
    fn completes_at(&self, sizes: &Vec<usize>, x: usize, y: usize) -> (r: bool)
        requires
            self.board().consistent(),
            in_grid(self.width, self.height, (x, y)),
            sizes@.len() == self.regions@.len(),
            forall|r: int| 0 <= r < sizes@.len() ==> #[trigger] sizes@[r] == self.board().size(r),
        ensures
            r == self.board().completes_island((x, y)),
    {
        proof {
            reveal(Board::regions_ok);
        }
        let i = self.index(x, y);
        match self.cells[i] {
            State::Unknown => {},
            _ => return false,
        }
        let nb = for_valid_neighbours(self.width, self.height, x, y);
        let ghost b = self.board();
        let mut k: usize = 0;
        while k < nb.len()
            invariant
                b == self.board(),
                b.consistent(),
                nb@ == b.nbrs((x, y)),
                in_grid(self.width, self.height, (x, y)),
                b.cell((x, y)) is Unknown,
                k <= nb@.len(),
                sizes@.len() == self.regions@.len(),
                forall|r: int| 0 <= r < sizes@.len() ==> #[trigger] sizes@[r] == b.size(r),
                forall|j: int| 0 <= j < k ==> !((#[trigger] b.cell(nb@[j])).is_known() && b.island_complete(b.rid_at(nb@[j]))),
            decreases nb@.len() - k,
        {
            let (a, c) = nb[k];
            proof {
                lemma_orth_neighbours(self.width, self.height, x, y);
                assert(in_grid(self.width, self.height, nb@[k as int]));
            }
            let j = self.index(a, c);
            let known = match self.cells[j] {
                State::Unknown => false,
                _ => true,
            };
            if known {
                proof {
                    reveal(Board::regions_ok);
                    assert(b.cells[j as int].is_known());
                }
                let r = self.rid[j];
                match self.regions[r].state {
                    State::Island(target) => {
                        if target >= 0 && sizes[r] == target as usize {
                            assert(b.island_complete(b.rid_at(nb@[k as int])));
                            assert(b.cell(nb@[k as int]).is_known());
                            assert(0 <= k < b.nbrs((x, y)).len() && b.cell(b.nbrs((x, y))[k as int]).is_known()
                                && b.island_complete(b.rid_at(b.nbrs((x, y))[k as int])));
                            return true;
                        }
                    },
                    _ => {},
                }
            }
            k = k + 1;
        }
        false
    }

    /// Completed islands: every unknown cell next to an island that has
    /// reached its size becomes sea.
    fn solve_completed_islands(&mut self) -> (r: bool)
        requires
            old(self).wf(),
        ensures
            final(self).wf(),
            !r ==> *final(self) == *old(self),
            final(self).same_frame(old(self)),
            r == exists|p: (usize, usize)| old(self).board().completes_island(p),
            final(self).board().cells.len() == old(self).board().cells.len(),
            forall|p: (usize, usize)| old(self).board().in_grid(p) ==> #[trigger] final(self).board().cell(p) == if old(self).board().completes_island(p) {
                State::Black
            } else {
                old(self).board().cell(p)
            },
            old(self).contradicted() ==> final(self).contradicted(),
    {
        let sizes = self.region_sizes();
        let ghost b = self.board();
        let flags = self.flag_cells(|x: usize, y: usize| -> (r: bool)
            requires
                in_grid(self.width, self.height, (x, y)),
            ensures
                r == b.completes_island((x, y)),
            { self.completes_at(&sizes, x, y) });
        let marks = self.collect_marked(&flags);
        proof {
            assert forall|p: (usize, usize)| marks@.contains(p) <==> b.completes_island(p) by {
                if b.in_grid(p) {
                    assert(flags@[idx(self.width, p)] == b.completes_island(p));
                }
            }
        }
        proof {
            lemma_marks_exist(marks@, |p: (usize, usize)| b.completes_island(p));
        }
        let r = self.update_grid(Vec::new(), marks, "Complete island found.");
        r
    }

    /// Whether the cell `(x, y)` is known.
    fn known_at(&self, x: usize, y: usize) -> (r: bool)
        requires
            self.board().consistent(),
            in_grid(self.width, self.height, (x, y)),
        ensures
            r == self.board().cell((x, y)).is_known(),
    {
        let i = self.index(x, y);
        match self.cells[i] {
            State::Unknown => false,
            _ => true,
        }
    }

    /// Whether `(x, y)` is unknown and next to two distinct islands.
    #[verifier::rlimit(80)]
    fn borders_at(&self, x: usize, y: usize) -> (r: bool)
        requires
            self.board().consistent(),
            in_grid(self.width, self.height, (x, y)),
        ensures
            r == self.board().borders_islands((x, y)),
    {
        proof {
            reveal(Board::regions_ok);
        }
        if self.known_at(x, y) {
            return false;
        }
        let nb = for_valid_neighbours(self.width, self.height, x, y);
        let ghost b = self.board();
        let ghost p = (x, y);
        let mut has_first = false;
        let mut first: usize = 0;
        let mut first_k: usize = 0;
        let mut k: usize = 0;
        while k < nb.len()
            invariant
                b == self.board(),
                b.consistent(),
                p == (x, y),
                nb@ == b.nbrs(p),
                in_grid(self.width, self.height, p),
                b.cell(p) is Unknown,
                k <= nb@.len(),
                !has_first ==> forall|j: int| 0 <= j < k ==> !(#[trigger] b.island_nbr(p, j)),
                has_first ==> first_k < k && b.island_nbr(p, first_k as int) && b.rid_at(nb@[first_k as int]) == first,
                has_first ==> forall|j: int| 0 <= j < k && #[trigger] b.island_nbr(p, j) ==> b.rid_at(nb@[j]) == first,
            decreases nb@.len() - k,
        {
            let (a, c) = nb[k];
            proof {
                lemma_orth_neighbours(self.width, self.height, x, y);
                assert(in_grid(self.width, self.height, nb@[k as int]));
            }
            if self.known_at(a, c) {
                let j = self.index(a, c);
                proof {
                    reveal(Board::regions_ok);
                    assert(b.cells[j as int].is_known());
                }
                let r = self.rid[j];
                if self.regions[r].is_island() {
                    assert(b.island_nbr(p, k as int));
                    if has_first && r != first {
                        assert(b.island_nbr(p, first_k as int));
                        return true;
                    }
                    if !has_first {
                        has_first = true;
                        first = r;
                        first_k = k;
                    }
                }
            }
            k = k + 1;
        }
        proof {
            if b.borders_islands(p) {
                let (k1, k2) = choose|k1: int, k2: int|
                    #[trigger] b.island_nbr(p, k1) && #[trigger] b.island_nbr(p, k2) && b.rid_at(b.nbrs(p)[k1]) != b.rid_at(b.nbrs(p)[k2]);
                assert(b.island_nbr(p, k1));
            }
        }
        false
    }

    /// Whether the 2x2 block at `(x0, y0)` holds `(x, y)`, unknown, and three sea cells.
    fn block_at(&self, x0: usize, y0: usize, x: usize, y: usize) -> (r: bool)
        requires
            self.board().consistent(),
            x0 + 1 < self.height,
            y0 + 1 < self.width,
            x == x0 || x == x0 + 1,
            y == y0 || y == y0 + 1,
        ensures
            r == self.board().block_black_but(x0, y0, (x, y)),
    {
        let ghost b = self.board();
        if self.known_at(x, y) {
            return false;
        }
        let corners: [(usize, usize); 4] = [(x0, y0), (x0 + 1, y0), (x0, y0 + 1), (x0 + 1, y0 + 1)];
        let mut k: usize = 0;
        while k < 4
            invariant
                b == self.board(),
                b.consistent(),
                x0 + 1 < self.height,
                y0 + 1 < self.width,
                corners@ == seq![(x0, y0), ((x0 + 1) as usize, y0), (x0, (y0 + 1) as usize), ((x0 + 1) as usize, (y0 + 1) as usize)],
                k <= 4,
                forall|j: int| 0 <= j < k && corners@[j] != (x, y) ==> #[trigger] b.cell(corners@[j]) is Black,
            decreases 4 - k,
        {
            let (a, c) = corners[k];
            if a != x || c != y {
                let i = self.index(a, c);
                let black = match self.cells[i] {
                    State::Black => true,
                    _ => false,
                };
                if !black {
                    assert(!(b.cell(corners@[k as int]) is Black));
                    return false;
                }
            }
            k = k + 1;
        }
        assert forall|q: (usize, usize)|
            (q.0 == x0 || q.0 == x0 + 1) && (q.1 == y0 || q.1 == y0 + 1) && q != (x, y) implies #[trigger] b.cell(q) is Black by {
            if q == corners@[0] {
            } else if q == corners@[1] {
                assert(b.cell(corners@[1]) is Black);
            } else if q == corners@[2] {
                assert(b.cell(corners@[2]) is Black);
            } else {
                assert(q == corners@[3]);
                assert(b.cell(corners@[3]) is Black);
            }
        }
        true
    }

    /// Whether the unknown cell `(x, y)` would complete an all-sea 2x2 block.
    fn fills_pool_at(&self, x: usize, y: usize) -> (r: bool)
        requires
            self.board().consistent(),
            in_grid(self.width, self.height, (x, y)),
        ensures
            r == self.board().fills_pool((x, y)),
    {
        let ghost b = self.board();
        let ghost p = (x, y);
        if x + 1 < self.height && y + 1 < self.width && self.block_at(x, y, x, y) {
            return true;
        }
        if x > 0 && y + 1 < self.width && self.block_at(x - 1, y, x, y) {
            return true;
        }
        if x + 1 < self.height && y > 0 && self.block_at(x, y - 1, x, y) {
            return true;
        }
        if x > 0 && y > 0 && self.block_at(x - 1, y - 1, x, y) {
            return true;
        }
        assert forall|x0: usize, y0: usize| !(#[trigger] b.block_black_but(x0, y0, p)) by {
            if b.block_black_but(x0, y0, p) {
                if x0 == x && y0 == y {
                } else if x0 + 1 == x && y0 == y {
                } else if x0 == x && y0 + 1 == y {
                } else {
                }
            }
        }
        false
    }

    /// Number of cells that satisfy `f`, for the classifications used by the engine.
    fn count_known(&self) -> (n: usize)
        requires
            self.board().consistent(),
        ensures
            n == self.board().known_count(),
    {
        let len = self.cells.len();
        let mut n: usize = 0;
        let mut i: usize = 0;
        while i < len
            invariant
                len == self.cells@.len(),
                i <= len,
                n == count_cells(self.cells@, |s: State| is_known_state(s), i as int),
                n <= i,
            decreases len - i,
        {
            match self.cells[i] {
                State::Unknown => {},
                _ => {
                    n = n + 1;
                },
            }
            i = i + 1;
        }
        n
    }

    /// Numbers of sea and of non-sea known cells.
    fn count_colours(&self) -> (r: (usize, usize))
        requires
            self.board().consistent(),
        ensures
            r.0 == self.board().black_count(),
            r.1 == self.board().white_count(),
    {
        let len = self.cells.len();
        let mut nb: usize = 0;
        let mut nw: usize = 0;
        let mut i: usize = 0;
        while i < len
            invariant
                len == self.cells@.len(),
                i <= len,
                nb == count_cells(self.cells@, |s: State| is_black_state(s), i as int),
                nw == count_cells(self.cells@, |s: State| is_whiteish_state(s), i as int),
                nb <= i,
                nw <= i,
            decreases len - i,
        {
            match self.cells[i] {
                State::Black => {
                    nb = nb + 1;
                },
                State::White | State::Island(_) => {
                    nw = nw + 1;
                },
                State::Unknown => {},
            }
            i = i + 1;
        }
        (nb, nw)
    }

    /// Whether no island can still take a white region of `size` cells.
    fn is_white_region_to_big(&self, sizes: &Vec<usize>, size: usize) -> (r: bool)
        requires
            self.board().consistent(),
            sizes@.len() == self.regions@.len(),
            forall|r: int| 0 <= r < sizes@.len() ==> #[trigger] sizes@[r] == self.board().size(r),
        ensures
            r == !self.board().white_fits(size as int),
    {
        let ghost b = self.board();
        let mut r: usize = 0;
        while r < self.regions.len()
            invariant
                b == self.board(),
                sizes@.len() == self.regions@.len(),
                forall|r: int| 0 <= r < sizes@.len() ==> #[trigger] sizes@[r] == b.size(r),
                r <= self.regions@.len(),
                forall|j: int| 0 <= j < r && (#[trigger] b.regions[j]).state is Island ==> b.size(j) + size + 1 > island_target(b.regions[j].state),
            decreases self.regions@.len() - r,
        {
            match self.regions[r].state {
                State::Island(max_size) => {
                    if max_size >= 0 && (sizes[r] as u128) + (size as u128) + 1 <= max_size as u128 {
                        assert(b.regions[r as int].state is Island);
                        return false;
                    }
                },
                _ => {},
            }
            r = r + 1;
        }
        true
    }

    /// Whether some 2x2 block is all sea.
    fn find_pool(&self) -> (r: bool)
        requires
            self.board().consistent(),
        ensures
            r == self.board().has_pool(),
    {
        let ghost b = self.board();
        let mut x: usize = 0;
        while x < self.height && x + 1 < self.height
            invariant
                b == self.board(),
                b.consistent(),
                forall|x0: usize, y0: usize| x0 < x ==> !(#[trigger] b.pool_at(x0, y0)),
            decreases self.height - x,
        {
            let mut y: usize = 0;
            while y < self.width && y + 1 < self.width
                invariant
                    b == self.board(),
                    b.consistent(),
                    x + 1 < self.height,
                    forall|x0: usize, y0: usize| x0 < x || (x0 == x && y0 < y) ==> !(#[trigger] b.pool_at(x0, y0)),
                decreases self.width - y,
            {
                let i00 = self.index(x, y);
                let i10 = self.index(x + 1, y);
                let i01 = self.index(x, y + 1);
                let i11 = self.index(x + 1, y + 1);
                let pool = match (self.cells[i00], self.cells[i10], self.cells[i01], self.cells[i11]) {
                    (State::Black, State::Black, State::Black, State::Black) => true,
                    _ => false,
                };
                if pool {
                    assert(b.pool_at(x, y));
                    return true;
                }
                y = y + 1;
            }
            x = x + 1;
        }
        false
    }

    /// The contradiction scan.
    fn contradictions(&self) -> (r: bool)
        requires
            self.board().consistent(),
        ensures
            r == self.board().contradiction(),
    {
        let ghost b = self.board();
        if self.find_pool() {
            return true;
        }
        let sizes = self.region_sizes();
        let mut r: usize = 0;
        while r < self.regions.len()
            invariant
                b == self.board(),
                b.consistent(),
                !b.has_pool(),
                sizes@.len() == self.regions@.len(),
                forall|r: int| 0 <= r < sizes@.len() ==> #[trigger] sizes@[r] == b.size(r),
                r <= self.regions@.len(),
                forall|j: int| 0 <= j < r && (#[trigger] b.regions[j]).state is Island ==> b.size(j) <= island_target(b.regions[j].state),
                forall|j: int| 0 <= j < r && (#[trigger] b.regions[j]).state is White ==> b.white_fits(b.size(j) as int),
            decreases self.regions@.len() - r,
        {
            match self.regions[r].state {
                State::Island(size) => {
                    if size < 0 || sizes[r] > size as usize {
                        assert(b.regions[r as int].state is Island);
                        return true;
                    }
                },
                State::White => {
                    if self.is_white_region_to_big(&sizes, sizes[r]) {
                        assert(b.regions[r as int].state is White);
                        return true;
                    }
                },
                _ => {},
            }
            r = r + 1;
        }
        let (num_black, num_white) = self.count_colours();
        if num_black as i128 > self.num_black_cells {
            return true;
        }
        if num_white as i128 > self.cells.len() as i128 - self.num_black_cells {
            return true;
        }
        false
    }

    /// Bordering islands: every unknown cell next to two distinct islands becomes sea.
    fn solve_bordering(&mut self) -> (r: bool)
        requires
            old(self).wf(),
        ensures
            final(self).wf(),
            !r ==> *final(self) == *old(self),
            final(self).same_frame(old(self)),
            r == exists|p: (usize, usize)| old(self).board().borders_islands(p),
            final(self).board().cells.len() == old(self).board().cells.len(),
            forall|p: (usize, usize)| old(self).board().in_grid(p) ==> #[trigger] final(self).board().cell(p) == if old(self).board().borders_islands(p) {
                State::Black
            } else {
                old(self).board().cell(p)
            },
            old(self).contradicted() ==> final(self).contradicted(),
    {
        let ghost b = self.board();
        let flags = self.flag_cells(|x: usize, y: usize| -> (r: bool)
            requires
                in_grid(self.width, self.height, (x, y)),
            ensures
                r == b.borders_islands((x, y)),
            { self.borders_at(x, y) });
        let marks = self.collect_marked(&flags);
        proof {
            assert forall|p: (usize, usize)| marks@.contains(p) <==> b.borders_islands(p) by {
                if b.in_grid(p) {
                    assert(flags@[idx(self.width, p)] == b.borders_islands(p));
                }
            }
            lemma_marks_exist(marks@, |p: (usize, usize)| b.borders_islands(p));
        }
        self.update_grid(Vec::new(), marks, "Found bordering islands.")
    }

    /// Potential pools: every unknown cell that would complete an all-sea 2x2
    /// block becomes white.
    fn solve_potential_pools(&mut self) -> (r: bool)
        requires
            old(self).wf(),
        ensures
            final(self).wf(),
            !r ==> *final(self) == *old(self),
            final(self).same_frame(old(self)),
            r == exists|p: (usize, usize)| old(self).board().fills_pool(p),
            final(self).board().cells.len() == old(self).board().cells.len(),
            forall|p: (usize, usize)| old(self).board().in_grid(p) ==> #[trigger] final(self).board().cell(p) == if old(self).board().fills_pool(p) {
                State::White
            } else {
                old(self).board().cell(p)
            },
            old(self).contradicted() ==> final(self).contradicted(),
    {
        let ghost b = self.board();
        let flags = self.flag_cells(|x: usize, y: usize| -> (r: bool)
            requires
                in_grid(self.width, self.height, (x, y)),
            ensures
                r == b.fills_pool((x, y)),
            { self.fills_pool_at(x, y) });
        let marks = self.collect_marked(&flags);
        proof {
            assert forall|p: (usize, usize)| marks@.contains(p) <==> b.fills_pool(p) by {
                if b.in_grid(p) {
                    assert(flags@[idx(self.width, p)] == b.fills_pool(p));
                }
            }
            lemma_marks_exist(marks@, |p: (usize, usize)| b.fills_pool(p));
            assert forall|j: int| 0 <= j < marks@.len() implies b.in_grid(#[trigger] marks@[j]) && b.cell(marks@[j]) is Unknown by {
                let p = marks@[j];
                assert(b.fills_pool(p));
                let (x0, y0) = choose|x0: usize, y0: usize| #[trigger] b.block_black_but(x0, y0, p);
            }
        }
        self.update_grid(marks, Vec::new(), "Found potential pool.")
    }

    /// Whether `(x, y)` is an unknown cell next to region `r`.
    fn in_frontier_at(&self, r: usize, x: usize, y: usize) -> (res: bool)
        requires
            self.board().consistent(),
            in_grid(self.width, self.height, (x, y)),
        ensures
            res == self.board().in_frontier(r as int, (x, y)),
    {
        if self.known_at(x, y) {
            return false;
        }
        let nb = for_valid_neighbours(self.width, self.height, x, y);
        let ghost b = self.board();
        let ghost p = (x, y);
        let mut k: usize = 0;
        while k < nb.len()
            invariant
                b == self.board(),
                b.consistent(),
                p == (x, y),
                nb@ == b.nbrs(p),
                in_grid(self.width, self.height, p),
                b.cell(p) is Unknown,
                k <= nb@.len(),
                forall|j: int| 0 <= j < k ==> !((#[trigger] b.cell(b.nbrs(p)[j])).is_known() && b.rid_at(b.nbrs(p)[j]) == r),
            decreases nb@.len() - k,
        {
            let (a, c) = nb[k];
            proof {
                lemma_orth_neighbours(self.width, self.height, x, y);
                assert(in_grid(self.width, self.height, nb@[k as int]));
            }
            if self.known_at(a, c) {
                let j = self.index(a, c);
                if self.rid[j] == r {
                    assert(b.cell(b.nbrs(p)[k as int]).is_known() && b.rid_at(b.nbrs(p)[k as int]) == r);
                    return true;
                }
            }
            k = k + 1;
        }
        false
    }

    /// The frontier of region `r`: its unknown neighbouring cells.
    fn frontier(&self, r: usize) -> (v: Vec<(usize, usize)>)
        requires
            self.board().consistent(),
        ensures
            v@.no_duplicates(),
            forall|p: (usize, usize)| #[trigger] v@.contains(p) <==> self.board().in_frontier(r as int, p),
    {
        let ghost b = self.board();
        let flags = self.flag_cells(|x: usize, y: usize| -> (res: bool)
            requires
                in_grid(self.width, self.height, (x, y)),
            ensures
                res == b.in_frontier(r as int, (x, y)),
            { self.in_frontier_at(r, x, y) });
        let v = self.collect_marked(&flags);
        proof {
            assert forall|p: (usize, usize)| #[trigger] v@.contains(p) <==> b.in_frontier(r as int, p) by {
                if b.in_grid(p) {
                    assert(flags@[idx(self.width, p)] == b.in_frontier(r as int, p));
                }
            }
        }
        v
    }

    /// Single remaining frontier: a region with exactly one frontier cell takes
    /// it: white regions and islands short of their size grow into it, sea
    /// regions below the sea budget extend into it.
    #[verifier::rlimit(80)]
    fn solve_single_unknown(&mut self) -> (res: bool)
        requires
            old(self).wf(),
        ensures
            final(self).wf(),
            !res ==> *final(self) == *old(self),
            final(self).same_frame(old(self)),
            res == exists|p: (usize, usize), r: int| old(self).board().grows_into(r, p) || old(self).board().sea_extends_into(r, p),
            final(self).board().cells.len() == old(self).board().cells.len(),
            forall|p: (usize, usize)| old(self).board().in_grid(p) ==> #[trigger] final(self).board().cell(p) == if exists|r: int| old(self).board().grows_into(r, p) {
                State::White
            } else if exists|r: int| old(self).board().sea_extends_into(r, p) {
                State::Black
            } else {
                old(self).board().cell(p)
            },
            old(self).contradicted() ==> final(self).contradicted(),
            (exists|p: (usize, usize), r1: int, r2: int| old(self).board().grows_into(r1, p) && old(self).board().sea_extends_into(r2, p))
                ==> final(self).contradicted(),
    {
        let ghost b = self.board();
        let sizes = self.region_sizes();
        let n = self.cells.len();
        let mut white: Vec<bool> = Vec::new();
        let mut black: Vec<bool> = Vec::new();
        let mut i: usize = 0;
        while i < n
            invariant
                n == self.cells@.len(),
                i <= n,
                white@.len() == i,
                black@.len() == i,
                forall|j: int| 0 <= j < i ==> !(#[trigger] white@[j]) && !black@[j],
            decreases n - i,
        {
            white.push(false);
            black.push(false);
            i = i + 1;
        }
        proof {
            assert forall|p: (usize, usize)| b.in_grid(p) implies (#[trigger] white@[idx(b.width, p)] <==> exists|j: int| j < 0 && b.grows_into(j, p)) by {
                lemma_idx(b.width, b.height, p);
            }
            assert forall|p: (usize, usize)| b.in_grid(p) implies (#[trigger] black@[idx(b.width, p)] <==> exists|j: int| j < 0 && b.sea_extends_into(j, p)) by {
                lemma_idx(b.width, b.height, p);
                assert(!white@[idx(b.width, p)]);
            }
        }
        let mut r: usize = 0;
        while r < self.regions.len()
            invariant
                b == self.board(),
                b.consistent(),
                sizes@.len() == self.regions@.len(),
                forall|r: int| 0 <= r < sizes@.len() ==> #[trigger] sizes@[r] == b.size(r),
                r <= self.regions@.len(),
                white@.len() == b.cells.len(),
                black@.len() == b.cells.len(),
                forall|p: (usize, usize)| b.in_grid(p) ==> (#[trigger] white@[idx(b.width, p)] <==> exists|j: int| j < r && b.grows_into(j, p)),
                forall|p: (usize, usize)| b.in_grid(p) ==> (#[trigger] black@[idx(b.width, p)] <==> exists|j: int| j < r && b.sea_extends_into(j, p)),
            decreases self.regions@.len() - r,
        {
            let f = self.frontier(r);
            if f.len() == 1 {
                let (x, y) = f[0];
                let ghost p = (x, y);
                proof {
                    assert(f@.contains(p));
                    assert forall|q: (usize, usize)| #[trigger] b.in_frontier(r as int, q) implies q == p by {
                        assert(f@.contains(q));
                    }
                    assert(b.single_frontier(r as int, p));
                    lemma_idx(b.width, b.height, p);
                }
                let i = self.index(x, y);
                let size = sizes[r];
                let grow = match self.regions[r].state {
                    State::White => true,
                    State::Island(target) => target >= 0 && size < target as usize,
                    _ => false,
                };
                let extend = match self.regions[r].state {
                    State::Black => (size as i128) < self.num_black_cells,
                    _ => false,
                };
                let ghost w0 = white@;
                let ghost b0 = black@;
                if grow {
                    white.set(i, true);
                }
                if extend {
                    black.set(i, true);
                }
                proof {
                    assert(grow == b.grows_into(r as int, p));
                    assert(extend == b.sea_extends_into(r as int, p));
                    assert forall|q: (usize, usize)| b.in_grid(q) implies (#[trigger] white@[idx(b.width, q)] <==> exists|j: int| j < r + 1 && b.grows_into(j, q)) by {
                        lemma_idx(b.width, b.height, q);
                        if q != p {
                            assert(white@[idx(b.width, q)] == w0[idx(b.width, q)]);
                            if exists|j: int| j < r + 1 && b.grows_into(j, q) {
                                let j = choose|j: int| j < r + 1 && b.grows_into(j, q);
                                if j == r {
                                    assert(b.in_frontier(r as int, q));
                                }
                            }
                        } else if grow {
                        } else {
                            if exists|j: int| j < r + 1 && b.grows_into(j, q) {
                                let j = choose|j: int| j < r + 1 && b.grows_into(j, q);
                                assert(j < r);
                            }
                        }
                    }
                    assert forall|q: (usize, usize)| b.in_grid(q) implies (#[trigger] black@[idx(b.width, q)] <==> exists|j: int| j < r + 1 && b.sea_extends_into(j, q)) by {
                        lemma_idx(b.width, b.height, q);
                        if q != p {
                            assert(black@[idx(b.width, q)] == b0[idx(b.width, q)]);
                            if exists|j: int| j < r + 1 && b.sea_extends_into(j, q) {
                                let j = choose|j: int| j < r + 1 && b.sea_extends_into(j, q);
                                if j == r {
                                    assert(b.in_frontier(r as int, q));
                                }
                            }
                        } else if extend {
                        } else {
                            if exists|j: int| j < r + 1 && b.sea_extends_into(j, q) {
                                let j = choose|j: int| j < r + 1 && b.sea_extends_into(j, q);
                                assert(j < r);
                            }
                        }
                    }
                }
            } else {
                proof {
                    assert forall|q: (usize, usize)| b.in_grid(q) implies (#[trigger] white@[idx(b.width, q)] <==> exists|j: int| j < r + 1 && b.grows_into(j, q)) by {
                        if exists|j: int| j < r + 1 && b.grows_into(j, q) {
                            let j = choose|j: int| j < r + 1 && b.grows_into(j, q);
                            if j == r {
                                assert(f@.contains(q));
                                if f@.len() == 0 {
                                } else {
                                    assert(f@.contains(f@[0]) && f@.contains(f@[1]));
                                    assert(f@[0] != f@[1]);
                                }
                            }
                        }
                    }
                    assert forall|q: (usize, usize)| b.in_grid(q) implies (#[trigger] black@[idx(b.width, q)] <==> exists|j: int| j < r + 1 && b.sea_extends_into(j, q)) by {
                        if exists|j: int| j < r + 1 && b.sea_extends_into(j, q) {
                            let j = choose|j: int| j < r + 1 && b.sea_extends_into(j, q);
                            if j == r {
                                assert(f@.contains(q));
                                if f@.len() == 0 {
                                } else {
                                    assert(f@.contains(f@[0]) && f@.contains(f@[1]));
                                    assert(f@[0] != f@[1]);
                                }
                            }
                        }
                    }
                }
            }
            r = r + 1;
        }
        let mark_white = self.collect_marked(&white);
        let mark_black = self.collect_marked(&black);
        proof {
            assert forall|p: (usize, usize)| #[trigger] mark_white@.contains(p) <==> exists|j: int| b.grows_into(j, p) by {
                if b.in_grid(p) {
                    assert(white@[idx(b.width, p)] <==> exists|j: int| j < b.regions.len() && b.grows_into(j, p));
                }
                if exists|j: int| b.grows_into(j, p) {
                    let j = choose|j: int| b.grows_into(j, p);
                    assert(b.in_grid(p));
                }
            }
            assert forall|p: (usize, usize)| #[trigger] mark_black@.contains(p) <==> exists|j: int| b.sea_extends_into(j, p) by {
                if b.in_grid(p) {
                    assert(black@[idx(b.width, p)] <==> exists|j: int| j < b.regions.len() && b.sea_extends_into(j, p));
                }
                if exists|j: int| b.sea_extends_into(j, p) {
                    let j = choose|j: int| b.sea_extends_into(j, p);
                    assert(b.in_grid(p));
                }
            }
            lemma_marks_exist(mark_white@, |p: (usize, usize)| exists|j: int| b.grows_into(j, p));
            lemma_marks_exist(mark_black@, |p: (usize, usize)| exists|j: int| b.sea_extends_into(j, p));
            assert forall|j: int| 0 <= j < mark_white@.len() implies b.in_grid(#[trigger] mark_white@[j]) && b.cell(mark_white@[j]) is Unknown by {
                let p = mark_white@[j];
                assert(exists|r: int| b.grows_into(r, p));
            }
            assert forall|j: int| 0 <= j < mark_black@.len() implies b.in_grid(#[trigger] mark_black@[j]) && b.cell(mark_black@[j]) is Unknown by {
                let p = mark_black@[j];
                assert(exists|r: int| b.sea_extends_into(r, p));
            }
            if exists|p: (usize, usize), r: int| b.grows_into(r, p) || b.sea_extends_into(r, p) {
                let (p, r) = choose|p: (usize, usize), r: int| b.grows_into(r, p) || b.sea_extends_into(r, p);
                if b.grows_into(r, p) {
                    assert(mark_white@.contains(p));
                } else {
                    assert(mark_black@.contains(p));
                }
            }
            if mark_white@.len() > 0 {
                let p = mark_white@[0];
                let r = choose|r: int| b.grows_into(r, p);
                assert(b.grows_into(r, p));
            }
            if mark_black@.len() > 0 {
                let p = mark_black@[0];
                let r = choose|r: int| b.sea_extends_into(r, p);
                assert(b.sea_extends_into(r, p));
            }
            if exists|p: (usize, usize), r1: int, r2: int| b.grows_into(r1, p) && b.sea_extends_into(r2, p) {
                let (p, r1, r2) = choose|p: (usize, usize), r1: int, r2: int| b.grows_into(r1, p) && b.sea_extends_into(r2, p);
                assert(mark_white@.contains(p) && mark_black@.contains(p));
            }
        }
        self.update_grid(mark_white, mark_black, "Found single unknown.")
    }

    /// What the search of the unreachable-cell rule learns at the unknown cell
    /// `(x, y)`, reached at distance `dist`. Next to two islands it is
    /// `BLOCKED`. It is `REACHABLE` where a white region around can still be
    /// absorbed (some island can take the regions around, the path and one
    /// more cell), or where the one island around can take the path and the
    /// regions around. Otherwise it is `BLOCKED` next to a white region or an
    /// island, and the search goes on (`EXPAND`) through a cell next to
    /// neither.
    #[verifier::rlimit(80)]
    fn reach_verdict(&self, sizes: &Vec<usize>, x: usize, y: usize, dist: usize) -> (v: u8)
        requires
            self.board().consistent(),
            in_grid(self.width, self.height, (x, y)),
            sizes@.len() == self.regions@.len(),
            forall|r: int| 0 <= r < sizes@.len() ==> #[trigger] sizes@[r] == self.board().size(r),
            dist <= MAX_DIST,
        ensures
            v == self.board().verdict((x, y), dist as int),
    {
        proof {
            reveal(Board::regions_ok);
        }
        let ghost b = self.board();
        let ghost q = (x, y);
        let nb = for_valid_neighbours(self.width, self.height, x, y);
        let mut seen: Vec<usize> = Vec::new();
        let mut cur_size: u128 = 0;
        let mut islands: usize = 0;
        let mut target: i32 = 0;
        let mut has_white = false;
        let mut k: usize = 0;
        while k < nb.len()
            invariant
                b == self.board(),
                b.consistent(),
                q == (x, y),
                sizes@.len() == self.regions@.len(),
                forall|r: int| 0 <= r < sizes@.len() ==> #[trigger] sizes@[r] == b.size(r),
                nb@ == b.nbrs(q),
                in_grid(self.width, self.height, q),
                k <= nb@.len(),
                nb@.len() <= 4,
                seen@.len() <= k,
                forall|r: usize| #[trigger] seen@.contains(r) <==> exists|j: int| 0 <= j < k && b.nbr_whiteish(q, j) && b.rid_at(nb@[j]) == r,
                cur_size == b.nbr_sum(q, k as int),
                cur_size <= k * 0x1_0000_0000_0000_0000,
                islands == b.nbr_islands(q, k as int),
                islands <= k,
                target as int == b.first_island_target(q, k as int),
                has_white == b.nbr_has_white(q, k as int),
            decreases nb@.len() - k,
        {
            let (a, c) = nb[k];
            proof {
                lemma_orth_neighbours(self.width, self.height, x, y);
                assert(in_grid(self.width, self.height, nb@[k as int]));
                lemma_idx(self.width, self.height, nb@[k as int]);
                b.lemma_count_members_bound(b.rid_at(nb@[k as int]));
            }
            let ghost seen0 = seen@;
            if self.known_at(a, c) {
                let j = self.index(a, c);
                proof {
                    reveal(Board::regions_ok);
                    assert(b.cells[j as int].is_known());
                }
                let r = self.rid[j];
                let mut fresh = true;
                let mut m: usize = 0;
                while m < seen.len()
                    invariant
                        m <= seen@.len(),
                        fresh <==> forall|t: int| 0 <= t < m ==> seen@[t] != r,
                    decreases seen@.len() - m,
                {
                    if seen[m] == r {
                        fresh = false;
                    }
                    m = m + 1;
                }
                proof {
                    if !fresh {
                        let t = choose|t: int| 0 <= t < seen@.len() && seen@[t] == r;
                        assert(seen@.contains(r));
                    } else {
                        assert(!seen@.contains(r));
                    }
                }
                let region = self.regions[r];
                proof {
                    assert(b.region_at(nb@[k as int]) == region);
                    assert(fresh && region.state.is_whiteish() ==> b.fresh_nbr(q, k as int));
                    if b.fresh_nbr(q, k as int) {
                        assert(!seen@.contains(r));
                    }
                }
                if fresh && region.is_white() {
                    seen.push(r);
                    cur_size = cur_size + sizes[r] as u128;
                    match region.state {
                        State::Island(t) => {
                            if islands == 0 {
                                target = t;
                            }
                            islands = islands + 1;
                        },
                        _ => {
                            has_white = true;
                        },
                    }
                }
            }
            proof {
                assert forall|r: usize| #[trigger] seen@.contains(r) <==> exists|j: int| 0 <= j < k + 1 && b.nbr_whiteish(q, j) && b.rid_at(nb@[j]) == r by {
                    if seen@.contains(r) && !seen0.contains(r) {
                        assert(seen@[seen@.len() - 1] == r);
                        assert(b.nbr_whiteish(q, k as int) && b.rid_at(nb@[k as int]) == r);
                    }
                    if exists|j: int| 0 <= j < k + 1 && b.nbr_whiteish(q, j) && b.rid_at(nb@[j]) == r {
                        let j = choose|j: int| 0 <= j < k + 1 && b.nbr_whiteish(q, j) && b.rid_at(nb@[j]) == r;
                        if j < k {
                            assert(seen0.contains(r));
                            let t = choose|t: int| 0 <= t < seen0.len() && seen0[t] == r;
                            assert(seen@[t] == r);
                        } else if seen0.contains(r) {
                            let t = choose|t: int| 0 <= t < seen0.len() && seen0[t] == r;
                            assert(seen@[t] == r);
                        } else {
                            assert(seen@[seen@.len() - 1] == r);
                        }
                    }
                }
                if has_white != b.nbr_has_white(q, k + 1) {
                    let j = choose|j: int| 0 <= j < k + 1 && #[trigger] b.nbr_whiteish(q, j) && b.region_at(b.nbrs(q)[j]).state is White;
                    if j < k {
                        assert(b.nbr_has_white(q, k as int));
                    } else {
                        // The first neighbour of this white region is an earlier one.
                        let i = choose|i: int| 0 <= i < k && #[trigger] b.nbr_whiteish(q, i) && b.rid_at(nb@[i]) == b.rid_at(nb@[k as int]);
                        assert(b.nbr_has_white(q, k as int));
                    }
                }
                assert(k * 0x1_0000_0000_0000_0000 + 0x1_0000_0000_0000_0000 == (k + 1) * 0x1_0000_0000_0000_0000) by (nonlinear_arith);
            }
            k = k + 1;
        }
        if islands > 1 {
            return BLOCKED;
        }
        let total = cur_size + dist as u128;
        if has_white && total < usize::MAX as u128 && !self.is_white_region_to_big(sizes, total as usize) {
            return REACHABLE;
        }
        if islands == 1 {
            if target >= 0 && total <= target as u128 {
                return REACHABLE;
            }
            return BLOCKED;
        }
        if has_white {
            return BLOCKED;
        }
        EXPAND
    }

    /// Unreachable cell: a breadth-first search from the unknown cell `(x, y)`
    /// over unknown cells, ring by ring up to `MAX_DIST`, finds no island that
    /// could still grow to it.
    #[verifier::rlimit(80)]
    fn unreachable(&self, sizes: &Vec<usize>, x: usize, y: usize) -> (r: bool)
        requires
            self.board().consistent(),
            in_grid(self.width, self.height, (x, y)),
            sizes@.len() == self.regions@.len(),
            forall|r: int| 0 <= r < sizes@.len() ==> #[trigger] sizes@[r] == self.board().size(r),
        ensures
            r == self.board().unreachable((x, y)),
    {
        if self.known_at(x, y) {
            return false;
        }
        let ghost b = self.board();
        let ghost s = (x, y);
        let n = self.cells.len();
        let width = self.width;
        let height = self.height;
        let mut labels: Vec<usize> = Vec::new();
        let mut i: usize = 0;
        while i < n
            invariant
                i <= n,
                labels@.len() == i,
                forall|j: int| 0 <= j < i ==> #[trigger] labels@[j] == 0,
            decreases n - i,
        {
            labels.push(0);
            i = i + 1;
        }
        let start = self.index(x, y);
        labels.set(start, 1);
        proof {
            assert forall|p: (usize, usize)| b.in_grid(p) implies #[trigger] labels@[idx(width, p)] == b.label(s, p, 1) by {
                lemma_idx(width, height, p);
                lemma_idx(width, height, s);
            }
        }
        let mut dist: usize = 1;
        while dist <= MAX_DIST
            invariant
                b == self.board(),
                b.consistent(),
                s == (x, y),
                b.in_grid(s),
                b.cell(s) is Unknown,
                n == self.cells@.len(),
                width == self.width,
                height == self.height,
                labels@.len() == n,
                sizes@.len() == self.regions@.len(),
                forall|r: int| 0 <= r < sizes@.len() ==> #[trigger] sizes@[r] == b.size(r),
                1 <= dist <= MAX_DIST + 1,
                forall|p: (usize, usize)| b.in_grid(p) ==> #[trigger] labels@[idx(width, p)] == b.label(s, p, dist as nat),
                forall|q: (usize, usize), d: nat|
                    1 <= d < dist && #[trigger] b.label(s, q, d) == d ==> b.verdict(q, d as int) != REACHABLE,
            decreases MAX_DIST + 1 - dist,
        {
            let mut i: usize = 0;
            let mut qx: usize = 0;
            let mut qy: usize = 0;
            if n > 0 {
                assert(width > 0 && height > 0) by (nonlinear_arith)
                    requires n == width * height, n > 0;
            }
            let ghost d = dist as nat;
            proof {
                assert forall|p: (usize, usize)| b.in_grid(p) implies #[trigger] labels@[idx(width, p)] == b.scan_label(s, d, p, 0) by {}
            }
            while i < n
                invariant
                    b == self.board(),
                    b.consistent(),
                    s == (x, y),
                    n == self.cells@.len(),
                    n == width * height,
                    width == self.width,
                    height == self.height,
                    labels@.len() == n,
                    sizes@.len() == self.regions@.len(),
                    forall|r: int| 0 <= r < sizes@.len() ==> #[trigger] sizes@[r] == b.size(r),
                    d == dist,
                    1 <= dist <= MAX_DIST,
                    i <= n,
                    i == qx * width + qy,
                    i < n ==> qx < height && qy < width,
                    forall|p: (usize, usize)| b.in_grid(p) ==> #[trigger] labels@[idx(width, p)] == b.scan_label(s, d, p, i as int),
                    forall|q: (usize, usize), e: nat|
                        1 <= e < d && #[trigger] b.label(s, q, e) == e ==> b.verdict(q, e as int) != REACHABLE,
                    forall|q: (usize, usize)|
                        b.in_grid(q) && idx(width, q) < i && #[trigger] b.label(s, q, d) == d ==> b.verdict(q, d as int) != REACHABLE,
                decreases n - i,
            {
                let ghost q = (qx, qy);
                let ghost before = labels@;
                proof {
                    lemma_idx(width, height, q);
                }
                proof {
                    assert(labels@[i as int] == b.scan_label(s, d, q, i as int));
                }
                if labels[i] == dist {
                    let v = self.reach_verdict(sizes, qx, qy, dist);
                    if v == REACHABLE {
                        return false;
                    }
                    if v == EXPAND {
                        proof {
                            b.lemma_expand_free(q, d as int);
                        }
                        let nb = for_valid_neighbours(width, height, qx, qy);
                        let mut k: usize = 0;
                        while k < nb.len()
                            invariant
                                b == self.board(),
                                b.consistent(),
                                width == self.width,
                                height == self.height,
                                labels@.len() == n,
                                n == self.cells@.len(),
                                qx < height,
                                qy < width,
                                q == (qx, qy),
                                dist <= MAX_DIST,
                                d == dist,
                                nb@ == orth_neighbours(width, height, qx, qy),
                                k <= nb@.len(),
                                before.len() == n,
                                forall|t: int| 0 <= t < n && (forall|j: int| 0 <= j < k ==> t != idx(width, nb@[j])) ==> #[trigger] labels@[t] == before[t],
                                forall|j: int| 0 <= j < k ==> {
                                    let t = idx(width, #[trigger] nb@[j]);
                                    labels@[t] == if before[t] != 0 { before[t] } else if b.cell(nb@[j]) is Unknown { (d + 1) as usize } else { 0 }
                                },
                            decreases nb@.len() - k,
                        {
                            let (a, c) = nb[k];
                            proof {
                                lemma_orth_neighbours(width, height, qx, qy);
                                assert(in_grid(width, height, nb@[k as int]));
                                lemma_idx(width, height, nb@[k as int]);
                            }
                            let ghost pre = labels@;
                            let ghost tk = idx(width, nb@[k as int]);
                            proof {
                                lemma_orth_neighbours_distinct(width, height, qx, qy);
                                assert forall|j: int| 0 <= j < k implies idx(width, #[trigger] nb@[j]) != tk by {
                                    lemma_orth_neighbours(width, height, qx, qy);
                                    lemma_idx(width, height, nb@[j]);
                                    assert(nb@[j] != nb@[k as int]);
                                }
                                assert(pre[tk] == before[tk]);
                            }
                            assert((a, c) == nb@[k as int]);
                            if !self.known_at(a, c) {
                                let j = self.index(a, c);
                                assert(j == tk);
                                if labels[j] == 0 {
                                    labels.set(j, dist + 1);
                                    assert(labels@ == pre.update(tk, (d + 1) as usize));
                                }
                            }
                            proof {
                                assert(labels@[tk] == if before[tk] != 0 { before[tk] } else if b.cell(nb@[k as int]) is Unknown { (d + 1) as usize } else { 0 });
                                assert forall|j: int| 0 <= j < k implies labels@[idx(width, #[trigger] nb@[j])] == pre[idx(width, nb@[j])] by {
                                    assert(idx(width, nb@[j]) != tk);
                                    lemma_orth_neighbours(width, height, qx, qy);
                                    lemma_idx(width, height, nb@[j]);
                                }
                            }
                            k = k + 1;
                        }
                        proof {
                            lemma_scan_expand(b, s, d, q, before, labels@, i as int);
                        }
                    } else {
                        proof {
                            b.lemma_expand_free(q, d as int);
                            lemma_scan_same(b, s, d, q, labels@, i as int);
                        }
                    }
                } else {
                    proof {
                        lemma_scan_same(b, s, d, q, labels@, i as int);
                    }
                }
                i = i + 1;
                qy = qy + 1;
                if qy == width {
                    qy = 0;
                    qx = qx + 1;
                    assert(i == qx * width) by (nonlinear_arith)
                        requires i == (qx - 1) * width + width;
                }
                proof {
                    if i < n && qx >= height {
                        assert(qx * width + qy >= width * height) by (nonlinear_arith)
                            requires qx >= height, qy >= 0, width >= 0;
                        assert(false);
                    }
                }
            }
            proof {
                assert forall|p: (usize, usize)| b.in_grid(p) implies #[trigger] labels@[idx(width, p)] == b.label(s, p, d + 1) by {
                    lemma_scan_done(b, s, d, p);
                    lemma_idx(width, height, p);
                }
                assert forall|q: (usize, usize), e: nat|
                    1 <= e < dist + 1 && #[trigger] b.label(s, q, e) == e implies b.verdict(q, e as int) != REACHABLE by {
                    b.lemma_label_in_grid(s, q, e);
                    if e == d {
                        lemma_idx(width, height, q);
                    }
                }
            }
            dist = dist + 1;
        }
        true
    }

    /// Unreachable cells: every unknown cell that no island can still reach
    /// becomes sea.
    fn solve_unrechable(&mut self) -> (r: bool)
        requires
            old(self).wf(),
        ensures
            final(self).wf(),
            !r ==> *final(self) == *old(self),
            final(self).same_frame(old(self)),
            r == exists|p: (usize, usize)| old(self).board().unreachable(p),
            final(self).board().cells.len() == old(self).board().cells.len(),
            forall|p: (usize, usize)| old(self).board().in_grid(p) ==> #[trigger] final(self).board().cell(p) == if old(self).board().unreachable(p) {
                State::Black
            } else {
                old(self).board().cell(p)
            },
            old(self).contradicted() ==> final(self).contradicted(),
    {
        let sizes = self.region_sizes();
        let ghost b = self.board();
        let flags = self.flag_cells(|x: usize, y: usize| -> (r: bool)
            requires
                in_grid(self.width, self.height, (x, y)),
            ensures
                r == b.unreachable((x, y)),
            { self.unreachable(&sizes, x, y) });
        let marks = self.collect_marked(&flags);
        proof {
            assert forall|p: (usize, usize)| marks@.contains(p) <==> b.unreachable(p) by {
                if b.in_grid(p) {
                    assert(flags@[idx(self.width, p)] == b.unreachable(p));
                }
            }
            lemma_marks_exist(marks@, |p: (usize, usize)| b.unreachable(p));
        }
        self.update_grid(Vec::new(), marks, "Solve unreachable.")
    }

    /// Reserved for a rule on regions with two frontier cells left; it
    /// deduces nothing yet.
    fn solve_two_unknown(&mut self) -> (r: bool)
        ensures
            !r,
            *final(self) == *old(self),
    {
        false
    }

    /// One solving step: the first rule that changes something is applied.
    #[verifier::rlimit(80)]
    pub fn solve(&mut self) -> (r: Step)
        requires
            old(self).wf(),
        ensures
            final(self).wf(),
            final(self).board().width == old(self).board().width,
            final(self).board().height == old(self).board().height,
            final(self).board().budget == old(self).board().budget,
            final(self).board().cells.len() == old(self).board().cells.len(),
            final(self).iteration_spec() == if old(self).iteration_spec() < usize::MAX {
                (old(self).iteration_spec() + 1) as usize
            } else {
                old(self).iteration_spec()
            },
            forall|p: (usize, usize)| old(self).board().in_grid(p) && old(self).board().cell(p).is_known()
                ==> #[trigger] final(self).board().cell(p) == old(self).board().cell(p),
            final(self).board().known_count() >= old(self).board().known_count(),
            (r == Step::Contradiction) == final(self).contradicted(),
            old(self).contradicted() ==> r == Step::Contradiction && final(self).board().cells == old(self).board().cells,
            !old(self).contradicted() && old(self).board().known_count() == old(self).board().cells.len() ==> {
                &&& final(self).board().cells == old(self).board().cells
                &&& r == if old(self).board().contradiction() { Step::Contradiction } else { Step::SolutionFound }
            },
            r == Step::SolutionFound ==> {
                &&& final(self).board().known_count() == final(self).board().cells.len()
                &&& !final(self).board().contradiction()
                &&& final(self).board().fused()
                &&& final(self).solved_spec()
            },
            r == Step::CannotProceed ==> {
                &&& final(self).board().cells == old(self).board().cells
                &&& !old(self).board().contradiction()
                &&& forall|p: (usize, usize)| !old(self).board().completes_island(p) && !old(self).board().borders_islands(p)
                    && !old(self).board().fills_pool(p) && !old(self).board().unreachable(p)
                &&& forall|p: (usize, usize), q: int| !old(self).board().grows_into(q, p) && !old(self).board().sea_extends_into(q, p)
            },
            r == Step::Proceed ==> final(self).board().known_count() > old(self).board().known_count(),
            r == Step::Contradiction ==> old(self).contradicted() || old(self).board().contradiction()
                || final(self).board().known_count() > old(self).board().known_count(),
            !old(self).contradicted() && old(self).board().known_count() < old(self).board().cells.len()
                && !old(self).board().completes_any() && old(self).board().single_any() ==> {
                &&& r == Step::Proceed || r == Step::Contradiction
                &&& forall|p: (usize, usize)| old(self).board().in_grid(p) ==> #[trigger] final(self).board().cell(p) == if exists|q: int| old(self).board().grows_into(q, p) {
                    State::White
                } else if exists|q: int| old(self).board().sea_extends_into(q, p) {
                    State::Black
                } else {
                    old(self).board().cell(p)
                }
            },
            !old(self).contradicted() && old(self).board().known_count() < old(self).board().cells.len()
                && !old(self).board().completes_any() && !old(self).board().single_any() && old(self).board().borders_any() ==> {
                &&& r == Step::Proceed || r == Step::Contradiction
                &&& forall|p: (usize, usize)| old(self).board().in_grid(p) ==> #[trigger] final(self).board().cell(p) == if old(self).board().borders_islands(p) {
                    State::Black
                } else {
                    old(self).board().cell(p)
                }
            },
            !old(self).contradicted() && old(self).board().known_count() < old(self).board().cells.len()
                && !old(self).board().completes_any() && !old(self).board().single_any() && !old(self).board().borders_any()
                && old(self).board().pool_any() ==> {
                &&& r == Step::Proceed || r == Step::Contradiction
                &&& forall|p: (usize, usize)| old(self).board().in_grid(p) ==> #[trigger] final(self).board().cell(p) == if old(self).board().fills_pool(p) {
                    State::White
                } else {
                    old(self).board().cell(p)
                }
            },
            !old(self).contradicted() && old(self).board().known_count() < old(self).board().cells.len()
                && !old(self).board().completes_any() && !old(self).board().single_any() && !old(self).board().borders_any()
                && !old(self).board().pool_any() && old(self).board().contradiction() ==> r == Step::Contradiction && final(self).board().cells == old(self).board().cells,
            !old(self).contradicted() && old(self).board().known_count() < old(self).board().cells.len()
                && !old(self).board().completes_any() && !old(self).board().single_any() && !old(self).board().borders_any()
                && !old(self).board().pool_any() && !old(self).board().contradiction() ==> {
                &&& forall|p: (usize, usize)| old(self).board().in_grid(p) ==> #[trigger] final(self).board().cell(p) == if old(self).board().unreachable(p) {
                    State::Black
                } else {
                    old(self).board().cell(p)
                }
                &&& (r == Step::CannotProceed) == !old(self).board().unreachable_any()
            },
            !old(self).contradicted() && old(self).board().known_count() < old(self).board().cells.len()
                && old(self).board().completes_any() ==> {
                &&& r == Step::Proceed || r == Step::Contradiction
                &&& forall|p: (usize, usize)| old(self).board().in_grid(p) ==> #[trigger] final(self).board().cell(p) == if old(self).board().completes_island(p) {
                    State::Black
                } else {
                    old(self).board().cell(p)
                }
            },
    {
        let ghost o0 = self.board();
        if self.iteration < usize::MAX {
            self.iteration = self.iteration + 1;
        }
        if self.step == Step::Contradiction {
            return Step::Contradiction;
        }
        if self.count_known() == self.cells.len() {
            if self.contradictions() {
                self.step = Step::Contradiction;
                return Step::Contradiction;
            }
            self.solved = true;
            if self.verbose {
                self.explenation = "Solved.".to_owned();
            }
            return Step::SolutionFound;
        }
        let ghost o = self.board();
        if self.solve_completed_islands() {
            proof {
                let p = choose|p: (usize, usize)| o.completes_island(p);
                lemma_known_strict(o0, self.board(), p);
            }
            return self.step;
        }
        if self.solve_single_unknown() {
            proof {
                let (p, q) = choose|p: (usize, usize), q: int| o.grows_into(q, p) || o.sea_extends_into(q, p);
                lemma_known_strict(o0, self.board(), p);
            }
            return self.step;
        }
        if self.solve_two_unknown() {
            proof {
                lemma_known_monotone(o0, self.board());
            }
            return self.step;
        }
        if self.solve_bordering() {
            proof {
                let p = choose|p: (usize, usize)| o.borders_islands(p);
                lemma_known_strict(o0, self.board(), p);
            }
            return self.step;
        }
        if self.solve_potential_pools() {
            proof {
                let p = choose|p: (usize, usize)| o.fills_pool(p);
                let (x0, y0) = choose|x0: usize, y0: usize| #[trigger] o.block_black_but(x0, y0, p);
                lemma_known_strict(o0, self.board(), p);
            }
            return self.step;
        }
        if self.contradictions() {
            self.step = Step::Contradiction;
            proof {
                lemma_known_monotone(o0, self.board());
            }
            return Step::Contradiction;
        }
        if self.solve_unrechable() {
            proof {
                let p = choose|p: (usize, usize)| o.unreachable(p);
                lemma_known_strict(o0, self.board(), p);
            }
            return self.step;
        }
        proof {
            assert(self.board().cells == o.cells);
        }
        if self.verbose {
            self.explenation = "No rule applies.".to_owned();
        }
        proof {
            lemma_known_monotone(o0, self.board());
        }
        Step::CannotProceed
    }

    /// The state of the solver for presentation: the display code of every cell.
    pub fn get_state(&self) -> (r: Nurikabe)
        requires
            self.wf(),
        ensures
            r.width == self.board().width,
            r.height == self.board().height,
            r.data@ == display_codes(self.board().cells),
            r.solved == self.solved_spec(),
            r.iteration == self.iteration_spec(),
            r.well_formed(),
            r.path@ == Seq::<char>::empty(),
            r.duration == 0,
            r.verbose@ == self.shown_explanation(),
    {
        let n = self.cells.len();
        let mut data: Vec<i32> = Vec::new();
        let mut i: usize = 0;
        while i < n
            invariant
                n == self.cells@.len(),
                i <= n,
                data@ =~= display_codes(self.cells@).subrange(0, i as int),
            decreases n - i,
        {
            let code: i32 = i32::from(self.cells[i]);
            data.push(code);
            i = i + 1;
        }
        assert(data@ =~= display_codes(self.cells@));
        let verbose = if self.verbose {
            self.explenation.clone()
        } else {
            String::new()
        };
        Nurikabe {
            path: String::new(),
            width: self.width,
            height: self.height,
            solved: self.solved,
            iteration: self.iteration,
            data,
            duration: 0,
            verbose,
        }
    }

    /// Current solving iteration.
    pub fn get_iteration(&self) -> (r: usize)
        ensures
            r == self.iteration_spec(),
    {
        self.iteration
    }

    /// The classification of the cell `(x, y)`.
    pub fn sample(&self, x: usize, y: usize) -> (r: State)
        requires
            self.wf(),
            in_grid(self.board().width, self.board().height, (x, y)),
        ensures
            r == self.board().cell((x, y)),
    {
        let i = self.index(x, y);
        self.cells[i]
    }

    /// The region record of the known cell `(x, y)`.
    pub fn sample_reg(&self, x: usize, y: usize) -> (r: Region)
        requires
            self.wf(),
            in_grid(self.board().width, self.board().height, (x, y)),
            self.board().cell((x, y)).is_known(),
        ensures
            r == self.board().region_at((x, y)),
    {
        proof {
            reveal(Board::regions_ok);
        }
        let i = self.index(x, y);
        self.regions[self.rid[i]]
    }

    /// The display code of the cell `(x, y)`.
    pub fn sample_value(&self, x: usize, y: usize) -> (r: i32)
        requires
            self.wf(),
            in_grid(self.board().width, self.board().height, (x, y)),
        ensures
            r == state_code(self.board().cell((x, y))),
    {
        i32::from(self.sample(x, y))
    }

    /// Total number of known cells.
    pub fn known(&self) -> (r: usize)
        requires
            self.wf(),
        ensures
            r == self.board().known_count(),
    {
        self.count_known()
    }

    /// Row-major index of a cell.
    fn index(&self, x: usize, y: usize) -> (r: usize)
        requires
            self.board().consistent(),
            in_grid(self.width, self.height, (x, y)),
        ensures
            r == idx(self.width, (x, y)),
            r < self.cells@.len(),
    {
        let n = self.cells.len();
        proof {
            lemma_idx(self.width, self.height, (x, y));
            assert(x * self.width <= x * self.width + y);
        }
        x * self.width + y
    }

    /// Whether two clue cells share an edge.
    fn has_adjacent_clues(&self) -> (r: bool)
        requires
            self.board().consistent(),
            forall|i: int| 0 <= i < self.cells@.len() && (#[trigger] self.cells@[i]).is_known()
                ==> self.cells@[i] is Island,
        ensures
            r <==> exists|p: (usize, usize), q: (usize, usize)|
                self.board().in_grid(p) && self.board().in_grid(q) && adjacent(p, q)
                    && #[trigger] self.board().cell(p) is Island && #[trigger] self.board().cell(q) is Island,
            !r ==> self.board().fused(),
    {
        let mut x: usize = 0;
        while x < self.height
            invariant
                self.board().consistent(),
                forall|p: (usize, usize), q: (usize, usize)|
                    self.board().in_grid(p) && self.board().in_grid(q) && adjacent(p, q) && p.0 < x
                        ==> !(#[trigger] self.board().cell(p) is Island && #[trigger] self.board().cell(q) is Island),
            decreases self.height - x,
        {
            let mut y: usize = 0;
            while y < self.width
                invariant
                    self.board().consistent(),
                    x < self.height,
                    forall|p: (usize, usize), q: (usize, usize)|
                        self.board().in_grid(p) && self.board().in_grid(q) && adjacent(p, q) && (p.0 < x
                            || (p.0 == x && p.1 < y))
                            ==> !(#[trigger] self.board().cell(p) is Island && #[trigger] self.board().cell(q) is Island),
                decreases self.width - y,
            {
                proof {
                    lemma_idx(self.width, self.height, (x, y));
                    lemma_orth_neighbours(self.width, self.height, x, y);
                }
                let nb = for_valid_neighbours(self.width, self.height, x, y);
                let mut k: usize = 0;
                while k < nb.len()
                    invariant
                        self.board().consistent(),
                        x < self.height,
                        y < self.width,
                        nb@ == orth_neighbours(self.width, self.height, x, y),
                        k <= nb@.len(),
                        forall|j: int| 0 <= j < k ==> !(self.board().cell((x, y)) is Island
                            && #[trigger] self.board().cell(nb@[j]) is Island),
                    decreases nb@.len() - k,
                {
                    let (a, b) = nb[k];
                    proof {
                        lemma_idx(self.width, self.height, (a, b));
                    }
                    let here = self.cells[self.index(x, y)];
                    let there = self.cells[self.index(a, b)];
                    if matches!(here, State::Island(_)) && matches!(there, State::Island(_)) {
                        assert(self.board().cell((a, b)) is Island);
                        assert(self.board().in_grid((x, y)) && self.board().in_grid((a, b)) && adjacent((x, y), (a, b)));
                        return true;
                    }
                    k += 1;
                }
                assert forall|q: (usize, usize)| self.board().in_grid(q) && adjacent((x, y), q)
                    implies !(self.board().cell((x, y)) is Island && #[trigger] self.board().cell(q) is Island) by {
                    assert(nb@.contains(q));
                }
                y += 1;
            }
            x += 1;
        }
        assert forall|p: (usize, usize), q: (usize, usize)|
            #![trigger self.board().cell(p), self.board().cell(q), adjacent(p, q)]
            self.board().in_grid(p) && self.board().in_grid(q) && adjacent(p, q) && self.board().cell(p).is_known()
                && self.board().cell(q).is_known() && (self.board().cell(p) is Black) == (self.board().cell(q) is Black)
                implies self.board().rid_at(p) == self.board().rid_at(q) by {
            lemma_idx(self.width, self.height, p);
            lemma_idx(self.width, self.height, q);
        }
        false
    }
}

} // verus!

verus! {

impl Solver for NaiveSolver {
    open spec fn inv(&self) -> bool {
        self.wf()
    }

    fn solve(&mut self) -> (r: Step) {
        NaiveSolver::solve(self)
    }

    fn get_state(&self) -> Nurikabe {
        NaiveSolver::get_state(self)
    }

    fn get_iteration(&self) -> usize {
        NaiveSolver::get_iteration(self)
    }
}

} // verus!

verus! {

proof fn lemma_counts_upto(cells: Seq<State>, n: int)
    requires
        0 <= n <= cells.len(),
    ensures
        count_cells(cells, |s: State| is_black_state(s), n) + count_cells(cells, |s: State| is_whiteish_state(s), n)
            + count_cells(cells, |s: State| is_unknown_state(s), n) == n,
    decreases n,
{
    if n > 0 {
        lemma_counts_upto(cells, n - 1);
    }
}

/// Every cell is sea, not sea, or unknown: the three counts always add up to
/// the number of cells.
pub proof fn lemma_cell_counts(b: Board)
    ensures
        b.black_count() + b.white_count() + b.unknown_count() == b.cells.len(),
{
    lemma_counts_upto(b.cells, b.cells.len() as int);
}

proof fn lemma_known_upto(before: Seq<State>, after: Seq<State>, n: int)
    requires
        0 <= n <= before.len(),
        before.len() == after.len(),
        forall|i: int| 0 <= i < before.len() && before[i].is_known() ==> #[trigger] after[i] == before[i],
    ensures
        count_cells(before, |s: State| is_known_state(s), n) <= count_cells(after, |s: State| is_known_state(s), n),
    decreases n,
{
    if n > 0 {
        lemma_known_upto(before, after, n - 1);
    }
}

proof fn lemma_known_strict_upto(before: Seq<State>, after: Seq<State>, n: int, j: int)
    requires
        0 <= j < n <= before.len(),
        before.len() == after.len(),
        forall|i: int| 0 <= i < before.len() && before[i].is_known() ==> #[trigger] after[i] == before[i],
        !before[j].is_known(),
        after[j].is_known(),
    ensures
        count_cells(before, |s: State| is_known_state(s), n) < count_cells(after, |s: State| is_known_state(s), n),
    decreases n,
{
    if n > j + 1 {
        lemma_known_strict_upto(before, after, n - 1, j);
    } else {
        lemma_known_upto(before, after, n - 1);
    }
}

/// A step that keeps every known cell and classifies some unknown cell
/// raises the number of known cells.
pub proof fn lemma_known_strict(before: Board, after: Board, p: (usize, usize))
    requires
        before.cells.len() == before.width * before.height,
        after.width == before.width,
        after.height == before.height,
        after.cells.len() == before.cells.len(),
        forall|q: (usize, usize)| before.in_grid(q) && before.cell(q).is_known() ==> #[trigger] after.cell(q) == before.cell(q),
        before.in_grid(p),
        before.cell(p) is Unknown,
        after.cell(p).is_known(),
    ensures
        before.known_count() < after.known_count(),
{
    assert forall|i: int| 0 <= i < before.cells.len() && before.cells[i].is_known() implies #[trigger] after.cells[i] == before.cells[i] by {
        lemma_pos(before.width, before.height, i);
        let q = ((i / before.width as int) as usize, (i % before.width as int) as usize);
        assert(before.cell(q) == before.cells[i]);
        assert(after.cell(q) == before.cell(q));
    }
    lemma_idx(before.width, before.height, p);
    lemma_known_strict_upto(before.cells, after.cells, before.cells.len() as int, idx(before.width, p));
}

/// A step that keeps every known cell as it was (as `NaiveSolver::solve`
/// does) never lowers the number of known cells.
pub proof fn lemma_known_monotone(before: Board, after: Board)
    requires
        before.cells.len() == before.width * before.height,
        after.width == before.width,
        after.height == before.height,
        after.cells.len() == before.cells.len(),
        forall|p: (usize, usize)| before.in_grid(p) && before.cell(p).is_known() ==> #[trigger] after.cell(p) == before.cell(p),
    ensures
        before.known_count() <= after.known_count(),
{
    assert forall|i: int| 0 <= i < before.cells.len() && before.cells[i].is_known() implies #[trigger] after.cells[i] == before.cells[i] by {
        lemma_pos(before.width, before.height, i);
        let p = ((i / before.width as int) as usize, (i % before.width as int) as usize);
        assert(before.cell(p) == before.cells[i]);
        assert(after.cell(p) == before.cell(p));
    }
    lemma_known_upto(before.cells, after.cells, before.cells.len() as int);
}

} // verus!

verus! {

/// Reading the state twice with no step in between gives the same grid: the
/// state is a function of the solver.
pub proof fn lemma_state_idempotent(s: NaiveSolver, a: Nurikabe, b: Nurikabe)
    requires
        a.width == s.board().width && a.height == s.board().height,
        b.width == s.board().width && b.height == s.board().height,
        a.data@ == display_codes(s.board().cells),
        b.data@ == display_codes(s.board().cells),
        a.solved == s.solved_spec() && b.solved == s.solved_spec(),
        a.iteration == s.iteration_spec() && b.iteration == s.iteration_spec(),
        a.path@ == Seq::<char>::empty() && b.path@ == Seq::<char>::empty(),
        a.duration == 0 && b.duration == 0,
        a.verbose@ == s.shown_explanation(),
        b.verbose@ == s.shown_explanation(),
    ensures
        a.data@ == b.data@,
        a.width == b.width,
        a.height == b.height,
        a.solved == b.solved,
        a.iteration == b.iteration,
        a.path@ == b.path@,
        a.duration == b.duration,
        a.verbose@ == b.verbose@,
{
}

} // verus!
