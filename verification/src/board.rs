//! The board: a row-major grid of cells, mine layout, adjacency counts,
//! and the reveal / flag primitives.
use vstd::arithmetic::div_mod::lemma_fundamental_div_mod_converse;
use vstd::pervasive::VecAdditionalExecFns;
use vstd::prelude::*;

verus! {

/// What the player can see of a cell. A flag is only ever placed on a
/// closed cell; an opened cell can never be flagged again.
#[derive(Clone, Copy, PartialEq, Eq, Structural, Debug)]
pub enum CellVis {
    Closed,
    Flagged,
    Opened,
}

/// What a cell holds: a mine, or a safe cell carrying the exact number
/// of adjacent mines (0 through 8).
#[derive(Clone, Copy, PartialEq, Eq, Structural, Debug)]
pub enum CellContent {
    Mine,
    Safe(u8),
}

/// One cell of the grid: visibility crossed with content.
#[derive(Clone, Copy, PartialEq, Eq, Structural, Debug)]
pub struct Cell {
    pub vis: CellVis,
    pub content: CellContent,
}

/// Construction failures: a zero dimension, or too many mines to leave
/// at least one safe cell.
#[derive(Clone, Copy, PartialEq, Eq, Structural, Debug)]
pub enum NewBoardError {
    InvalidDimensions,
    TooManyMines,
}

/// The full game grid. `cells` is row-major: the cell at `(x, y)` sits
/// at index `y * width + x`. When `mines_pending` is set, mine placement
/// is deferred until the first open play (first-move safety) and every
/// cell still holds the `Safe(0)` placeholder.
pub struct Board {
    pub width: usize,
    pub height: usize,
    pub cells: Vec<Cell>,
    pub mines_pending: bool,
    pub mine_count: usize,
    pub seed: u64,
}

/// The row-major index of the cell at `(x, y)`.
pub open spec fn board_idx(b: Board, x: int, y: int) -> int {
    y * (b.width as int) + x
}

/// Whether `(x, y)` lies on the grid.
pub open spec fn in_bounds(b: Board, x: int, y: int) -> bool {
    0 <= x < b.width as int && 0 <= y < b.height as int
}

/// The cell at `(x, y)`; meaningful only in bounds.
pub open spec fn cell_at(b: Board, x: int, y: int) -> Cell {
    b.cells@[board_idx(b, x, y)]
}

pub open spec fn is_mine(c: Cell) -> bool {
    c.content == CellContent::Mine
}

/// 1 if `(x, y)` is an on-grid mine, else 0; out-of-grid coordinates
/// never count as mines.
pub open spec fn mine_ind(b: Board, x: int, y: int) -> nat {
    if in_bounds(b, x, y) && is_mine(cell_at(b, x, y)) {
        1
    } else {
        0
    }
}

/// Whether `(ax, ay)` and `(bx, by)` are distinct 8-connected neighbors.
pub open spec fn is_adjacent(ax: int, ay: int, bx: int, by: int) -> bool {
    &&& -1 <= bx - ax <= 1
    &&& -1 <= by - ay <= 1
    &&& !(bx == ax && by == ay)
}

/// The exact number of mines among the up-to-8 neighbors of `(x, y)`,
/// clipped at the grid edges.
pub open spec fn adjacent_mines(b: Board, x: int, y: int) -> nat {
    mine_ind(b, x - 1, y - 1) + mine_ind(b, x, y - 1) + mine_ind(b, x + 1, y - 1) + mine_ind(
        b,
        x - 1,
        y,
    ) + mine_ind(b, x + 1, y) + mine_ind(b, x - 1, y + 1) + mine_ind(b, x, y + 1) + mine_ind(
        b,
        x + 1,
        y + 1,
    )
}

/// Every safe cell's stored count equals the true count of its mine
/// neighbors.
pub open spec fn counts_correct(b: Board) -> bool {
    forall|x: int, y: int|
        in_bounds(b, x, y) ==> match (#[trigger] cell_at(b, x, y)).content {
            CellContent::Safe(n) => n as nat == adjacent_mines(b, x, y),
            CellContent::Mine => true,
        }
}

/// The number of mine cells in a cell sequence.
pub open spec fn count_mines(s: Seq<Cell>) -> nat
    decreases s.len(),
{
    if s.len() == 0 {
        0
    } else {
        count_mines(s.drop_last()) + if is_mine(s.last()) {
            1nat
        } else {
            0nat
        }
    }
}

/// The number of closed cells in a cell sequence (the flood-fill
/// termination measure: opening only ever shrinks it).
pub open spec fn count_closed(s: Seq<Cell>) -> nat
    decreases s.len(),
{
    if s.len() == 0 {
        0
    } else {
        count_closed(s.drop_last()) + if s.last().vis == CellVis::Closed {
            1nat
        } else {
            0nat
        }
    }
}

/// Before deferred placement runs: no cell opened yet and every content
/// still the `Safe(0)` placeholder.
pub open spec fn pending_ok(b: Board) -> bool {
    forall|i: int|
        0 <= i < b.cells@.len() ==> (#[trigger] b.cells@[i]).content == CellContent::Safe(0)
            && b.cells@[i].vis != CellVis::Opened
}

impl Board {
    /// The board invariant: positive dimensions, a full row-major grid,
    /// at least one safe cell, exact adjacency counts, and the mine
    /// tally matching `mine_count` once mines are placed.
    pub open spec fn wf(self) -> bool {
        &&& 1 <= self.width
        &&& 1 <= self.height
        &&& self.cells@.len() == (self.width as int) * (self.height as int)
        &&& (self.mine_count as int) < (self.width as int) * (self.height as int)
        &&& counts_correct(self)
        &&& if self.mines_pending {
            pending_ok(self)
        } else {
            count_mines(self.cells@) == self.mine_count
        }
    }
}

proof fn lemma_count_mines_update(s: Seq<Cell>, j: int, c: Cell)
    requires
        0 <= j < s.len(),
    ensures
        count_mines(s.update(j, c)) == count_mines(s) - (if is_mine(s[j]) {
            1int
        } else {
            0int
        }) + (if is_mine(c) {
            1int
        } else {
            0int
        }),
    decreases s.len(),
{
    if j == s.len() - 1 {
        assert(s.update(j, c).drop_last() =~= s.drop_last());
    } else {
        assert(s.update(j, c).drop_last() =~= s.drop_last().update(j, c));
        lemma_count_mines_update(s.drop_last(), j, c);
    }
}

proof fn lemma_count_closed_update(s: Seq<Cell>, j: int, c: Cell)
    requires
        0 <= j < s.len(),
    ensures
        count_closed(s.update(j, c)) == count_closed(s) - (if s[j].vis == CellVis::Closed {
            1int
        } else {
            0int
        }) + (if c.vis == CellVis::Closed {
            1int
        } else {
            0int
        }),
    decreases s.len(),
{
    if j == s.len() - 1 {
        assert(s.update(j, c).drop_last() =~= s.drop_last());
    } else {
        assert(s.update(j, c).drop_last() =~= s.drop_last().update(j, c));
        lemma_count_closed_update(s.drop_last(), j, c);
    }
}

/// A sequence of all-placeholder cells has no mines.
proof fn lemma_count_mines_zero(s: Seq<Cell>)
    requires
        forall|i: int| 0 <= i < s.len() ==> !is_mine(#[trigger] s[i]),
    ensures
        count_mines(s) == 0,
    decreases s.len(),
{
    if s.len() > 0 {
        lemma_count_mines_zero(s.drop_last());
    }
}

/// Row-major indexing stays on the grid and can be inverted by
/// division and remainder.
pub proof fn lemma_idx(w: int, h: int, x: int, y: int)
    requires
        1 <= w,
        0 <= x < w,
        0 <= y < h,
    ensures
        0 <= y * w + x < w * h,
        (y * w + x) / w == y,
        (y * w + x) % w == x,
{
    assert(0 <= y * w + x < w * h) by (nonlinear_arith)
        requires
            1 <= w,
            0 <= x < w,
            0 <= y < h,
    ;
    lemma_fundamental_div_mod_converse(y * w + x, w, y, x);
}

/// Distinct coordinates have distinct row-major indices.
pub proof fn lemma_idx_injective(w: int, h: int, x1: int, y1: int, x2: int, y2: int)
    requires
        1 <= w,
        0 <= x1 < w,
        0 <= y1 < h,
        0 <= x2 < w,
        0 <= y2 < h,
        y1 * w + x1 == y2 * w + x2,
    ensures
        x1 == x2,
        y1 == y2,
{
    lemma_idx(w, h, x1, y1);
    lemma_idx(w, h, x2, y2);
}

impl Board {
    /// Read the cell at `(x, y)`.
    pub fn cell(&self, x: usize, y: usize) -> (c: Cell)
        requires
            self.cells@.len() == (self.width as int) * (self.height as int),
            1 <= self.width,
            x < self.width,
            y < self.height,
        ensures
            c == cell_at(*self, x as int, y as int),
    {
        proof {
            lemma_idx(self.width as int, self.height as int, x as int, y as int);
        }
        let n = self.cells.len();
        assert(y * self.width + x < n);
        self.cells[y * self.width + x]
    }

    /// Overwrite the cell at `(x, y)`.
    fn set_cell(&mut self, x: usize, y: usize, c: Cell)
        requires
            old(self).cells@.len() == (old(self).width as int) * (old(self).height as int),
            1 <= old(self).width,
            x < old(self).width,
            y < old(self).height,
        ensures
            final(self).cells@ == old(self).cells@.update(
                board_idx(*old(self), x as int, y as int),
                c,
            ),
            final(self).width == old(self).width,
            final(self).height == old(self).height,
            final(self).mines_pending == old(self).mines_pending,
            final(self).mine_count == old(self).mine_count,
            final(self).seed == old(self).seed,
    {
        proof {
            lemma_idx(self.width as int, self.height as int, x as int, y as int);
        }
        let n = self.cells.len();
        assert(y * self.width + x < n);
        let i = y * self.width + x;
        self.cells.set(i, c);
    }

    /// Count the mines among the up-to-8 neighbors of `(x, y)`.
    pub fn count_adjacent_mines(&self, x: usize, y: usize) -> (n: u8)
        requires
            self.cells@.len() == (self.width as int) * (self.height as int),
            1 <= self.width,
            x < self.width,
            y < self.height,
        ensures
            n as nat == adjacent_mines(*self, x as int, y as int),
            n <= 8,
    {
        let mut n: u8 = 0;
        let w = self.width;
        let h = self.height;
        if x > 0 && y > 0 && is_mine_exec(self.cell(x - 1, y - 1)) {
            n = n + 1;
        }
        if y > 0 && is_mine_exec(self.cell(x, y - 1)) {
            n = n + 1;
        }
        if x + 1 < w && y > 0 && is_mine_exec(self.cell(x + 1, y - 1)) {
            n = n + 1;
        }
        if x > 0 && is_mine_exec(self.cell(x - 1, y)) {
            n = n + 1;
        }
        if x + 1 < w && is_mine_exec(self.cell(x + 1, y)) {
            n = n + 1;
        }
        if x > 0 && y + 1 < h && is_mine_exec(self.cell(x - 1, y + 1)) {
            n = n + 1;
        }
        if y + 1 < h && is_mine_exec(self.cell(x, y + 1)) {
            n = n + 1;
        }
        if x + 1 < w && y + 1 < h && is_mine_exec(self.cell(x + 1, y + 1)) {
            n = n + 1;
        }
        n
    }
}

/// Whether the cell holds a mine.
pub fn is_mine_exec(c: Cell) -> (r: bool)
    ensures
        r == is_mine(c),
{
    match c.content {
        CellContent::Mine => true,
        CellContent::Safe(_) => false,
    }
}

/// The parts of a board that the play primitives never touch.
pub open spec fn same_frame(a: Board, b: Board) -> bool {
    &&& b.width == a.width
    &&& b.height == a.height
    &&& b.mines_pending == a.mines_pending
    &&& b.mine_count == a.mine_count
    &&& b.seed == a.seed
    &&& b.cells@.len() == a.cells@.len()
}

/// Two boards of the same shape with mines in exactly the same cells.
pub open spec fn same_mine_layout(a: Board, b: Board) -> bool {
    &&& b.width == a.width
    &&& b.height == a.height
    &&& b.cells@.len() == a.cells@.len()
    &&& forall|i: int|
        #![trigger a.cells@[i]]
        #![trigger b.cells@[i]]
        0 <= i < a.cells@.len() ==> is_mine(b.cells@[i]) == is_mine(a.cells@[i])
}

proof fn lemma_mine_ind_stable(a: Board, b: Board, x: int, y: int)
    requires
        same_mine_layout(a, b),
        a.cells@.len() == (a.width as int) * (a.height as int),
        1 <= a.width,
    ensures
        mine_ind(b, x, y) == mine_ind(a, x, y),
{
    if in_bounds(a, x, y) {
        lemma_idx(a.width as int, a.height as int, x, y);
    }
}

/// Adjacency counts depend only on the mine layout, so they survive any
/// edit that moves no mine.
pub proof fn lemma_adjacent_mines_stable(a: Board, b: Board, x: int, y: int)
    requires
        same_mine_layout(a, b),
        a.cells@.len() == (a.width as int) * (a.height as int),
        1 <= a.width,
    ensures
        adjacent_mines(b, x, y) == adjacent_mines(a, x, y),
{
    lemma_mine_ind_stable(a, b, x - 1, y - 1);
    lemma_mine_ind_stable(a, b, x, y - 1);
    lemma_mine_ind_stable(a, b, x + 1, y - 1);
    lemma_mine_ind_stable(a, b, x - 1, y);
    lemma_mine_ind_stable(a, b, x + 1, y);
    lemma_mine_ind_stable(a, b, x - 1, y + 1);
    lemma_mine_ind_stable(a, b, x, y + 1);
    lemma_mine_ind_stable(a, b, x + 1, y + 1);
}

impl Board {
    /// Rewrite every safe cell's stored count with the true number of
    /// adjacent mines; mines and visibility are untouched.
    pub fn recompute_counts(&mut self)
        requires
            old(self).cells@.len() == (old(self).width as int) * (old(self).height as int),
            1 <= old(self).width,
            1 <= old(self).height,
        ensures
            same_frame(*old(self), *final(self)),
            forall|j: int|
                0 <= j < old(self).cells@.len() ==> (#[trigger] final(self).cells@[j]).vis == old(
                    self,
                ).cells@[j].vis && is_mine(final(self).cells@[j]) == is_mine(old(self).cells@[j]),
            counts_correct(*final(self)),
    {
        let w = self.width;
        let h = self.height;
        let n = self.cells.len();
        let mut x: usize = 0;
        let mut y: usize = 0;
        let mut i: usize = 0;
        while i < n
            invariant
                i == y * w + x,
                x < w,
                y <= h,
                y == h ==> x == 0,
                i <= n,
                self.width == w,
                self.height == h,
                self.mines_pending == old(self).mines_pending,
                self.mine_count == old(self).mine_count,
                self.seed == old(self).seed,
                self.cells@.len() == n,
                forall|j: int|
                    0 <= j < n ==> (#[trigger] self.cells@[j]).vis == old(self).cells@[j].vis
                        && is_mine(self.cells@[j]) == is_mine(old(self).cells@[j]),
                forall|j: int|
                    0 <= j < i ==> match (#[trigger] self.cells@[j]).content {
                        CellContent::Safe(m) => m as nat == adjacent_mines(
                            *old(self),
                            j % (w as int),
                            j / (w as int),
                        ),
                        CellContent::Mine => true,
                    },
            decreases n - i,
        {
            proof {
                assert(y < h) by {
                    if y == h {
                        assert((h as int) * (w as int) == (w as int) * (h as int))
                            by (nonlinear_arith);
                    }
                }
                lemma_idx(w as int, h as int, x as int, y as int);
                assert((y + 1) * (w as int) == y * (w as int) + w) by (nonlinear_arith);
            }
            let c = self.cell(x, y);
            match c.content {
                CellContent::Safe(_) => {
                    let m = self.count_adjacent_mines(x, y);
                    proof {
                        lemma_adjacent_mines_stable(*old(self), *self, x as int, y as int);
                    }
                    self.set_cell(x, y, Cell { vis: c.vis, content: CellContent::Safe(m) });
                },
                CellContent::Mine => {},
            }
            i = i + 1;
            x = x + 1;
            if x == w {
                x = 0;
                y = y + 1;
            }
        }
        proof {
            assert forall|a: int, b: int|
                in_bounds(*self, a, b) implies match (#[trigger] cell_at(*self, a, b)).content {
                CellContent::Safe(m) => m as nat == adjacent_mines(*self, a, b),
                CellContent::Mine => true,
            } by {
                lemma_idx(w as int, h as int, a, b);
                lemma_adjacent_mines_stable(*old(self), *self, a, b);
            }
        }
    }
}

/// Pointwise-equal mine layouts have equal mine tallies.
pub proof fn lemma_count_mines_pointwise(s1: Seq<Cell>, s2: Seq<Cell>)
    requires
        s1.len() == s2.len(),
        forall|i: int|
            #![trigger s1[i]]
            #![trigger s2[i]]
            0 <= i < s1.len() ==> is_mine(s1[i]) == is_mine(s2[i]),
    ensures
        count_mines(s1) == count_mines(s2),
    decreases s1.len(),
{
    if s1.len() > 0 {
        lemma_count_mines_pointwise(s1.drop_last(), s2.drop_last());
    }
}

impl Board {
    /// Put a mine into each of the given (distinct, in-range) cells of a
    /// mine-free board. Visibility is untouched; counts are stale until
    /// `recompute_counts` runs.
    fn place_mines_at(&mut self, mines: &Vec<usize>)
        requires
            old(self).cells@.len() == (old(self).width as int) * (old(self).height as int),
            1 <= old(self).width,
            1 <= old(self).height,
            forall|i: int| 0 <= i < old(self).cells@.len() ==> !is_mine(#[trigger] old(self).cells@[i]),
            mines@.no_duplicates(),
            forall|j: int| 0 <= j < mines@.len() ==> #[trigger] mines@[j] < old(self).cells@.len(),
        ensures
            same_frame(*old(self), *final(self)),
            forall|i: int|
                0 <= i < old(self).cells@.len() ==> (#[trigger] final(self).cells@[i]).vis == old(
                    self,
                ).cells@[i].vis,
            forall|i: int|
                0 <= i < old(self).cells@.len() ==> (is_mine(#[trigger] final(self).cells@[i])
                    <==> mines@.contains(i as usize)),
            count_mines(final(self).cells@) == mines@.len(),
    {
        let n = self.cells.len();
        let m = mines.len();
        proof {
            lemma_count_mines_zero(self.cells@);
        }
        let mut t: usize = 0;
        while t < m
            invariant
                t <= m,
                self.width == old(self).width,
                self.height == old(self).height,
                self.mines_pending == old(self).mines_pending,
                self.mine_count == old(self).mine_count,
                self.seed == old(self).seed,
                self.cells@.len() == n,
                forall|i: int|
                    0 <= i < n ==> (#[trigger] self.cells@[i]).vis == old(self).cells@[i].vis,
                forall|i: int|
                    0 <= i < n ==> (is_mine(#[trigger] self.cells@[i]) <==> (exists|j: int|
                        0 <= j < t && mines@[j] == i as usize)),
                count_mines(self.cells@) == t,
            decreases m - t,
        {
            let idx = mines[t];
            let old_cell = self.cells[idx];
            proof {
                assert(!is_mine(self.cells@[idx as int])) by {
                    if is_mine(self.cells@[idx as int]) {
                        let j = choose|j: int| 0 <= j < t && mines@[j] == idx;
                        assert(mines@[j] == mines@[t as int]);
                    }
                }
                lemma_count_mines_update(
                    self.cells@,
                    idx as int,
                    Cell { vis: old_cell.vis, content: CellContent::Mine },
                );
            }
            let ghost before: Seq<Cell> = self.cells@;
            self.cells.set(idx, Cell { vis: old_cell.vis, content: CellContent::Mine });
            proof {
                assert forall|i: int|
                    0 <= i < n implies (is_mine(#[trigger] self.cells@[i]) <==> (exists|j: int|
                    0 <= j < t + 1 && mines@[j] == i as usize)) by {
                    if i == idx as int {
                        assert(0 <= t < t + 1 && mines@[t as int] == i as usize);
                    } else {
                        assert(self.cells@[i] == before[i]);
                        if exists|j: int| 0 <= j < t + 1 && mines@[j] == i as usize {
                            let j = choose|j: int| 0 <= j < t + 1 && mines@[j] == i as usize;
                            assert(j != t);
                            assert(0 <= j < t && mines@[j] == i as usize);
                        }
                    }
                }
            }
            t = t + 1;
        }
        proof {
            assert forall|i: int|
                0 <= i < n implies (is_mine(#[trigger] self.cells@[i]) <==> mines@.contains(
                i as usize,
            )) by {
                if mines@.contains(i as usize) {
                    let j = choose|j: int| 0 <= j < mines@.len() && mines@[j] == i as usize;
                    assert(0 <= j < m && mines@[j] == i as usize);
                }
            }
        }
    }

    /// Sample `mine_count` distinct mine cells from the whole grid --
    /// leaving out `avoid`, when given -- place them, and refresh every
    /// adjacency count.
    fn place_random(&mut self, avoid: Option<usize>)
        requires
            old(self).cells@.len() == (old(self).width as int) * (old(self).height as int),
            1 <= old(self).width,
            1 <= old(self).height,
            (old(self).mine_count as int) < (old(self).width as int) * (old(self).height as int),
            forall|i: int|
                0 <= i < old(self).cells@.len() ==> (#[trigger] old(self).cells@[i]).content
                    == CellContent::Safe(0),
        ensures
            final(self).width == old(self).width,
            final(self).height == old(self).height,
            final(self).mine_count == old(self).mine_count,
            final(self).seed == old(self).seed,
            final(self).mines_pending == false,
            final(self).cells@.len() == old(self).cells@.len(),
            forall|i: int|
                0 <= i < old(self).cells@.len() ==> (#[trigger] final(self).cells@[i]).vis == old(
                    self,
                ).cells@[i].vis,
            count_mines(final(self).cells@) == old(self).mine_count,
            counts_correct(*final(self)),
            match avoid {
                Some(t) => t < old(self).cells@.len() ==> !is_mine(
                    final(self).cells@[t as int],
                ),
                None => true,
            },
    {
        let n = self.cells.len();
        let mut pool = crate::rng::index_pool(n, avoid);
        let k = self.mine_count;
        assert(k <= pool@.len());
        let picks = crate::rng::sample_distinct(&mut pool, k, self.seed);
        proof {
            assert forall|j: int| 0 <= j < picks@.len() implies #[trigger] picks@[j] < n by {}
        }
        self.place_mines_at(&picks);
        self.mines_pending = false;
        let ghost placed: Seq<Cell> = self.cells@;
        self.recompute_counts();
        proof {
            lemma_count_mines_pointwise(self.cells@, placed);
            match avoid {
                Some(t) => {
                    if t < n {
                        assert(!picks@.contains(t));
                    }
                },
                None => {},
            }
        }
    }
}

proof fn lemma_mine_ind_zero(b: Board, u: int, v: int)
    requires
        b.cells@.len() == (b.width as int) * (b.height as int),
        1 <= b.width,
        forall|i: int|
            0 <= i < b.cells@.len() ==> (#[trigger] b.cells@[i]).content == CellContent::Safe(0),
    ensures
        mine_ind(b, u, v) == 0,
{
    if in_bounds(b, u, v) {
        lemma_idx(b.width as int, b.height as int, u, v);
    }
}

/// A board whose cells are all the `Safe(0)` placeholder has correct
/// adjacency counts.
pub proof fn lemma_no_mines_counts_correct(b: Board)
    requires
        b.cells@.len() == (b.width as int) * (b.height as int),
        1 <= b.width,
        1 <= b.height,
        forall|i: int|
            0 <= i < b.cells@.len() ==> (#[trigger] b.cells@[i]).content == CellContent::Safe(0),
    ensures
        counts_correct(b),
{
    assert forall|x: int, y: int|
        in_bounds(b, x, y) implies match (#[trigger] cell_at(b, x, y)).content {
        CellContent::Safe(n) => n as nat == adjacent_mines(b, x, y),
        CellContent::Mine => true,
    } by {
        lemma_idx(b.width as int, b.height as int, x, y);
        lemma_mine_ind_zero(b, x - 1, y - 1);
        lemma_mine_ind_zero(b, x, y - 1);
        lemma_mine_ind_zero(b, x + 1, y - 1);
        lemma_mine_ind_zero(b, x - 1, y);
        lemma_mine_ind_zero(b, x + 1, y);
        lemma_mine_ind_zero(b, x - 1, y + 1);
        lemma_mine_ind_zero(b, x, y + 1);
        lemma_mine_ind_zero(b, x + 1, y + 1);
    }
}

/// Build a board of the given size with exactly `mine_count` mines.
///
/// With `first_move_safe` set, mine placement is deferred until the
/// first open play, which is then guaranteed never to hit a mine; the
/// pseudo-random placement is driven by `seed` either way. Fails with
/// `InvalidDimensions` exactly when a dimension is zero, and with
/// `TooManyMines` exactly when no safe cell would remain.
pub fn new_board(
    width: usize,
    height: usize,
    mine_count: usize,
    first_move_safe: bool,
    seed: u64,
) -> (r: Result<Board, NewBoardError>)
    requires
        (width as int) * (height as int) <= usize::MAX as int,
    ensures
        match r {
            Ok(b) => {
                &&& 1 <= width
                &&& 1 <= height
                &&& (mine_count as int) < (width as int) * (height as int)
                &&& b.wf()
                &&& b.width == width
                &&& b.height == height
                &&& b.mine_count == mine_count
                &&& b.seed == seed
                &&& b.mines_pending == first_move_safe
                &&& forall|i: int|
                    0 <= i < b.cells@.len() ==> (#[trigger] b.cells@[i]).vis == CellVis::Closed
                &&& (!first_move_safe ==> count_mines(b.cells@) == mine_count)
            },
            Err(NewBoardError::InvalidDimensions) => width == 0 || height == 0,
            Err(NewBoardError::TooManyMines) => 1 <= width && 1 <= height && (mine_count as int)
                >= (width as int) * (height as int),
        },
{
    if width == 0 || height == 0 {
        return Err(NewBoardError::InvalidDimensions);
    }
    let n = width * height;
    if mine_count >= n {
        return Err(NewBoardError::TooManyMines);
    }
    let cells = fresh_cells(n);
    let mut b = Board { width, height, cells, mines_pending: first_move_safe, mine_count, seed };
    if !first_move_safe {
        b.place_random(None);
    } else {
        proof {
            lemma_no_mines_counts_correct(b);
        }
    }
    Ok(b)
}

/// What one flag toggle does to a cell's visibility: closed and flagged
/// swap, an opened cell is left alone.
pub open spec fn toggled_vis(v: CellVis) -> CellVis {
    match v {
        CellVis::Closed => CellVis::Flagged,
        CellVis::Flagged => CellVis::Closed,
        CellVis::Opened => CellVis::Opened,
    }
}

/// Toggling a flag twice returns any cell to where it started; in
/// particular a closed cell is closed again.
pub proof fn lemma_toggle_flag_involution(v: CellVis)
    ensures
        toggled_vis(toggled_vis(v)) == v,
{
}

/// The classic win condition: every safe cell has been opened. Flags --
/// on mines or anywhere else -- play no part in it.
pub open spec fn spec_won(b: Board) -> bool {
    forall|i: int|
        0 <= i < b.cells@.len() && !is_mine(#[trigger] b.cells@[i]) ==> b.cells@[i].vis
            == CellVis::Opened
}

/// Winning is decided by the safe cells alone: two boards with the same
/// contents that agree on the visibility of every safe cell agree on
/// winning, whatever flags sit on their mines.
pub proof fn lemma_won_ignores_flags(a: Board, b: Board)
    requires
        b.cells@.len() == a.cells@.len(),
        forall|i: int|
            #![trigger a.cells@[i]]
            #![trigger b.cells@[i]]
            0 <= i < a.cells@.len() ==> b.cells@[i].content == a.cells@[i].content,
        forall|i: int|
            #![trigger a.cells@[i]]
            #![trigger b.cells@[i]]
            0 <= i < a.cells@.len() && !is_mine(a.cells@[i]) ==> b.cells@[i].vis
                == a.cells@[i].vis,
    ensures
        spec_won(a) == spec_won(b),
{
}

/// A well-formed board stays well-formed under any edit that changes
/// only visibility -- and, while mines are pending, opens nothing.
proof fn lemma_wf_vis_change(a: Board, b: Board)
    requires
        a.wf(),
        b.width == a.width,
        b.height == a.height,
        b.mines_pending == a.mines_pending,
        b.mine_count == a.mine_count,
        b.cells@.len() == a.cells@.len(),
        forall|i: int|
            #![trigger a.cells@[i]]
            #![trigger b.cells@[i]]
            0 <= i < a.cells@.len() ==> b.cells@[i].content == a.cells@[i].content,
        a.mines_pending ==> forall|i: int|
            0 <= i < b.cells@.len() ==> (#[trigger] b.cells@[i]).vis != CellVis::Opened,
    ensures
        b.wf(),
{
    assert forall|x: int, y: int|
        in_bounds(b, x, y) implies match (#[trigger] cell_at(b, x, y)).content {
        CellContent::Safe(n) => n as nat == adjacent_mines(b, x, y),
        CellContent::Mine => true,
    } by {
        lemma_idx(a.width as int, a.height as int, x, y);
        assert(in_bounds(a, x, y));
        assert(cell_at(b, x, y).content == cell_at(a, x, y).content);
        lemma_adjacent_mines_stable(a, b, x, y);
    }
    if !a.mines_pending {
        lemma_count_mines_pointwise(a.cells@, b.cells@);
    }
}

impl Board {
    /// Flip the flag on `(x, y)`: a closed cell becomes flagged, a
    /// flagged cell closed; an opened cell is left untouched.
    pub fn toggle_flag(&mut self, x: usize, y: usize)
        requires
            old(self).wf(),
            x < old(self).width,
            y < old(self).height,
        ensures
            same_frame(*old(self), *final(self)),
            final(self).wf(),
            final(self).cells@ == old(self).cells@.update(
                board_idx(*old(self), x as int, y as int),
                Cell {
                    vis: toggled_vis(cell_at(*old(self), x as int, y as int).vis),
                    content: cell_at(*old(self), x as int, y as int).content,
                },
            ),
    {
        proof {
            lemma_idx(self.width as int, self.height as int, x as int, y as int);
        }
        let c = self.cell(x, y);
        let flipped = match c.vis {
            CellVis::Closed => CellVis::Flagged,
            CellVis::Flagged => CellVis::Closed,
            CellVis::Opened => CellVis::Opened,
        };
        self.set_cell(x, y, Cell { vis: flipped, content: c.content });
        proof {
            lemma_wf_vis_change(*old(self), *self);
        }
    }

    /// Whether every safe cell has been opened.
    pub fn is_won(&self) -> (r: bool)
        ensures
            r == spec_won(*self),
    {
        let n = self.cells.len();
        let mut i: usize = 0;
        while i < n
            invariant
                i <= n,
                n == self.cells@.len(),
                forall|j: int|
                    0 <= j < i && !is_mine(#[trigger] self.cells@[j]) ==> self.cells@[j].vis
                        == CellVis::Opened,
            decreases n - i,
        {
            let c = self.cells[i];
            match c.content {
                CellContent::Safe(_) => {
                    match c.vis {
                        CellVis::Opened => {},
                        _ => {
                            return false;
                        },
                    }
                },
                CellContent::Mine => {},
            }
            i = i + 1;
        }
        true
    }
}

/// Both boards hold the same content in every cell.
pub open spec fn same_contents(a: Board, b: Board) -> bool {
    forall|i: int|
        #![trigger a.cells@[i]]
        #![trigger b.cells@[i]]
        0 <= i < a.cells@.len() ==> b.cells@[i].content == a.cells@[i].content
}

/// Visibility only ever moves from closed to opened; flags and already
/// opened cells are left alone.
pub open spec fn vis_monotone(a: Board, b: Board) -> bool {
    forall|i: int|
        #![trigger a.cells@[i]]
        #![trigger b.cells@[i]]
        0 <= i < a.cells@.len() ==> (b.cells@[i].vis == a.cells@[i].vis || (a.cells@[i].vis
            == CellVis::Closed && b.cells@[i].vis == CellVis::Opened))
}

/// The cell at `(x, y)` went from closed in `a` to opened in `b`.
pub open spec fn newly_opened(a: Board, b: Board, x: int, y: int) -> bool {
    &&& in_bounds(a, x, y)
    &&& cell_at(a, x, y).vis == CellVis::Closed
    &&& cell_at(b, x, y).vis == CellVis::Opened
}

/// No on-grid neighbor of `(x, y)` is still closed.
pub open spec fn no_closed_neighbors(b: Board, x: int, y: int) -> bool {
    forall|u: int, v: int|
        #![trigger is_adjacent(x, y, u, v)]
        is_adjacent(x, y, u, v) && in_bounds(b, u, v) ==> cell_at(b, u, v).vis != CellVis::Closed
}

/// `(x, y)` can be reached from the origin `(ox, oy)` in at most `k`
/// hops, each hop leaving a closed zero-count safe cell.
pub open spec fn reaches(a: Board, ox: int, oy: int, x: int, y: int, k: nat) -> bool
    decreases k,
{
    if x == ox && y == oy {
        true
    } else if k == 0 {
        false
    } else {
        exists|px: int, py: int|
            {
                &&& #[trigger] is_adjacent(px, py, x, y)
                &&& in_bounds(a, px, py)
                &&& cell_at(a, px, py).vis == CellVis::Closed
                &&& cell_at(a, px, py).content == CellContent::Safe(0)
                &&& reaches(a, ox, oy, px, py, (k - 1) as nat)
            }
    }
}

/// The flood-fill component of origin `(ox, oy)` in board `a`: the
/// origin itself plus every closed cell reachable from it through
/// closed `Safe(0)` cells. Boundary cells with a positive count belong
/// to it; flagged cells and cells beyond the boundary do not.
pub open spec fn in_component(a: Board, ox: int, oy: int, x: int, y: int) -> bool {
    &&& in_bounds(a, x, y)
    &&& cell_at(a, x, y).vis == CellVis::Closed
    &&& exists|k: nat| reaches(a, ox, oy, x, y, k)
}

/// Once a cell is no longer closed it never becomes closed again.
pub open spec fn resolved_preserved(a: Board, b: Board) -> bool {
    forall|u: int, v: int|
        #![trigger cell_at(b, u, v)]
        in_bounds(a, u, v) && cell_at(a, u, v).vis != CellVis::Closed ==> cell_at(b, u, v).vis
            != CellVis::Closed
}

/// The running state of a flood fill from `(ox, oy)`: `pre` is the
/// board as the fill found it, `cur` the board so far, and `opened`
/// lists exactly the cells opened so far, each a member of the
/// component of the origin.
pub open spec fn fill_inv(pre: Board, cur: Board, opened: Seq<(usize, usize)>, ox: int, oy: int) -> bool {
    &&& cur.width == pre.width
    &&& cur.height == pre.height
    &&& cur.mines_pending == pre.mines_pending
    &&& cur.mine_count == pre.mine_count
    &&& cur.seed == pre.seed
    &&& cur.cells@.len() == pre.cells@.len()
    &&& same_contents(pre, cur)
    &&& vis_monotone(pre, cur)
    &&& opened.no_duplicates()
    &&& forall|a: usize, b: usize| #[trigger]
        opened.contains((a, b)) <==> newly_opened(pre, cur, a as int, b as int)
    &&& forall|a: int, b: int|
        newly_opened(pre, cur, a, b) ==> #[trigger] in_component(pre, ox, oy, a, b)
}

/// Every opened zero cell still waiting on the stack, and each stack
/// entry a zero cell the fill has opened.
pub open spec fn stack_inv(pre: Board, cur: Board, stack: Seq<(usize, usize)>) -> bool {
    forall|j: int|
        0 <= j < stack.len() ==> {
            &&& in_bounds(pre, (#[trigger] stack[j]).0 as int, stack[j].1 as int)
            &&& cell_at(pre, stack[j].0 as int, stack[j].1 as int).content == CellContent::Safe(0)
            &&& newly_opened(pre, cur, stack[j].0 as int, stack[j].1 as int)
        }
}

/// Every opened zero cell is either still on the stack or fully
/// processed, except possibly the cell `(cx, cy)` now being processed.
pub open spec fn closure_except(
    pre: Board,
    cur: Board,
    stack: Seq<(usize, usize)>,
    cx: int,
    cy: int,
) -> bool {
    forall|a: usize, b: usize|
        newly_opened(pre, cur, a as int, b as int) && cell_at(pre, a as int, b as int).content
            == CellContent::Safe(0) && !(a as int == cx && b as int == cy) ==> (#[trigger] stack.contains(
            (a, b),
        ) || no_closed_neighbors(cur, a as int, b as int))
}

/// The heart of one flood-fill step, as a fact about boards: opening
/// the still-closed neighbor `(nx, ny)` of an opened zero cell
/// `(cx, cy)`, recording it, and queueing it when it is itself a zero
/// cell, preserves every flood-fill invariant.
#[verifier::rlimit(100)]
proof fn lemma_fill_step(
    pre: Board,
    prev: Board,
    cur: Board,
    opened0: Seq<(usize, usize)>,
    opened1: Seq<(usize, usize)>,
    stack0: Seq<(usize, usize)>,
    stack1: Seq<(usize, usize)>,
    ox: int,
    oy: int,
    cx: usize,
    cy: usize,
    nx: usize,
    ny: usize,
)
    requires
        pre.wf(),
        fill_inv(pre, prev, opened0, ox, oy),
        stack_inv(pre, prev, stack0),
        closure_except(pre, prev, stack0, cx as int, cy as int),
        in_bounds(pre, cx as int, cy as int),
        cell_at(pre, cx as int, cy as int).content == CellContent::Safe(0),
        newly_opened(pre, prev, cx as int, cy as int),
        nx < pre.width,
        ny < pre.height,
        is_adjacent(cx as int, cy as int, nx as int, ny as int),
        cell_at(prev, nx as int, ny as int).vis == CellVis::Closed,
        cur.width == prev.width,
        cur.height == prev.height,
        cur.mines_pending == prev.mines_pending,
        cur.mine_count == prev.mine_count,
        cur.seed == prev.seed,
        cur.cells@ == prev.cells@.update(
            board_idx(prev, nx as int, ny as int),
            Cell {
                vis: CellVis::Opened,
                content: cell_at(prev, nx as int, ny as int).content,
            },
        ),
        opened1 == opened0.push((nx, ny)),
        cell_at(prev, nx as int, ny as int).content == CellContent::Safe(0) ==> stack1
            == stack0.push((nx, ny)),
        cell_at(prev, nx as int, ny as int).content != CellContent::Safe(0) ==> stack1 == stack0,
        newly_opened(pre, prev, ox, oy),
    ensures
        fill_inv(pre, cur, opened1, ox, oy),
        stack_inv(pre, cur, stack1),
        closure_except(pre, cur, stack1, cx as int, cy as int),
        stack0.is_prefix_of(stack1),
        vis_monotone(prev, cur),
        cell_at(cur, nx as int, ny as int).vis != CellVis::Closed,
        resolved_preserved(prev, cur),
        newly_opened(pre, cur, cx as int, cy as int),
        newly_opened(pre, cur, ox, oy),
        count_closed(cur.cells@) < count_closed(prev.cells@),
        stack1.len() <= stack0.len() + 1,
        cell_at(pre, nx as int, ny as int).content != CellContent::Mine,
{
    let w = pre.width as int;
    let h = pre.height as int;
    lemma_idx(w, h, nx as int, ny as int);
    lemma_idx(w, h, cx as int, cy as int);
    // A zero cell never borders a mine: its stored zero is the exact
    // neighbor-mine tally, so every neighbor's mine indicator is zero.
    assert(cell_at(pre, nx as int, ny as int).content != CellContent::Mine) by {
        assert(adjacent_mines(pre, cx as int, cy as int) == 0);
        assert(mine_ind(pre, nx as int, ny as int) == 0);
    }
    assert(cell_at(pre, nx as int, ny as int).content == cell_at(
        prev,
        nx as int,
        ny as int,
    ).content);
    lemma_count_closed_update(
        prev.cells@,
        board_idx(prev, nx as int, ny as int),
        Cell { vis: CellVis::Opened, content: cell_at(prev, nx as int, ny as int).content },
    );
    // The change set grows by exactly this neighbor.
    assert forall|a: int, b: int|
        newly_opened(pre, cur, a, b) && !(a == nx as int && b == ny as int) implies newly_opened(
        pre,
        prev,
        a,
        b,
    ) by {
        lemma_idx(w, h, a, b);
        if b * w + a == (ny as int) * w + (nx as int) {
            lemma_idx_injective(w, h, a, b, nx as int, ny as int);
        }
    }
    assert(newly_opened(pre, cur, nx as int, ny as int));
    assert(newly_opened(pre, cur, cx as int, cy as int)) by {
        if (cy as int) * w + (cx as int) == (ny as int) * w + (nx as int) {
            lemma_idx_injective(w, h, cx as int, cy as int, nx as int, ny as int);
        }
    }
    assert(newly_opened(pre, cur, ox, oy)) by {
        lemma_idx(w, h, ox, oy);
        if oy * w + ox == (ny as int) * w + (nx as int) {
            lemma_idx_injective(w, h, ox, oy, nx as int, ny as int);
        }
    }
    assert(!opened0.contains((nx, ny)));
    // The neighbor belongs to the component: one more hop through the
    // zero cell being processed.
    assert(in_component(pre, ox, oy, nx as int, ny as int)) by {
        assert(in_component(pre, ox, oy, cx as int, cy as int));
        let k = choose|k: nat| reaches(pre, ox, oy, cx as int, cy as int, k);
        assert(reaches(pre, ox, oy, nx as int, ny as int, k + 1));
    }
    // The recorded list tracks the change set exactly.
    assert forall|a: usize, b: usize| #[trigger]
        opened1.contains((a, b)) implies newly_opened(pre, cur, a as int, b as int) by {
        let j = choose|j: int| 0 <= j < opened1.len() && opened1[j] == (a, b);
        if j < opened1.len() - 1 {
            assert(opened0[j] == (a, b));
            assert(opened0.contains((a, b)));
            assert(newly_opened(pre, prev, a as int, b as int));
            lemma_idx(w, h, a as int, b as int);
        } else {
            assert((a, b) == (nx, ny));
        }
    }
    assert forall|a: usize, b: usize|
        newly_opened(pre, cur, a as int, b as int) implies #[trigger] opened1.contains(
        (a, b),
    ) by {
        if a == nx && b == ny {
            assert(opened1[opened1.len() - 1] == (nx, ny));
        } else {
            assert(newly_opened(pre, prev, a as int, b as int));
            assert(opened0.contains((a, b)));
            let j = choose|j: int| 0 <= j < opened0.len() && opened0[j] == (a, b);
            assert(opened1[j] == (a, b));
        }
    }
    assert forall|u: int, v: int|
        in_bounds(prev, u, v) && cell_at(prev, u, v).vis != CellVis::Closed implies cell_at(
        cur,
        u,
        v,
    ).vis != CellVis::Closed by {
        lemma_idx(w, h, u, v);
    }
    // Every stack entry is still an opened zero cell.
    assert forall|j: int| 0 <= j < stack1.len() implies {
        &&& in_bounds(pre, (#[trigger] stack1[j]).0 as int, stack1[j].1 as int)
        &&& cell_at(pre, stack1[j].0 as int, stack1[j].1 as int).content == CellContent::Safe(0)
        &&& newly_opened(pre, cur, stack1[j].0 as int, stack1[j].1 as int)
    } by {
        if j < stack0.len() {
            assert(stack1[j] == stack0[j]);
            let pa = stack0[j].0 as int;
            let pb = stack0[j].1 as int;
            assert(newly_opened(pre, prev, pa, pb));
            lemma_idx(w, h, pa, pb);
            if pb * w + pa == (ny as int) * w + (nx as int) {
                lemma_idx_injective(w, h, pa, pb, nx as int, ny as int);
            }
        } else {
            assert(stack1[j] == (nx, ny));
        }
    }
    // Every opened zero cell other than the one being processed is
    // still queued or already fully resolved.
    assert forall|a: usize, b: usize|
        newly_opened(pre, cur, a as int, b as int) && cell_at(
            pre,
            a as int,
            b as int,
        ).content == CellContent::Safe(0) && !(a as int == cx as int && b as int
            == cy as int) implies (#[trigger] stack1.contains((a, b)) || no_closed_neighbors(
        cur,
        a as int,
        b as int,
    )) by {
        if a == nx && b == ny {
            assert(stack1[stack1.len() - 1] == (nx, ny));
        } else {
            assert(newly_opened(pre, prev, a as int, b as int));
            if stack0.contains((a, b)) {
                let j = choose|j: int| 0 <= j < stack0.len() && stack0[j] == (a, b);
                assert(stack1[j] == (a, b));
            } else {
                assert(no_closed_neighbors(prev, a as int, b as int));
                assert forall|u: int, v: int|
                    is_adjacent(a as int, b as int, u, v) && in_bounds(
                        cur,
                        u,
                        v,
                    ) implies cell_at(cur, u, v).vis != CellVis::Closed by {
                    lemma_idx(w, h, u, v);
                }
            }
        }
    }
}

impl Board {
    /// One flood-fill step: resolve the neighbor `(nx, ny)` of the zero
    /// cell `(cx, cy)`. A still-closed neighbor is opened, recorded,
    /// and, when itself a zero cell, queued; anything else is left
    /// alone.
    fn open_neighbor(
        &mut self,
        opened: &mut Vec<(usize, usize)>,
        stack: &mut Vec<(usize, usize)>,
        Ghost(pre): Ghost<Board>,
        Ghost(ox): Ghost<int>,
        Ghost(oy): Ghost<int>,
        cx: usize,
        cy: usize,
        nx: usize,
        ny: usize,
    )
        requires
            pre.wf(),
            fill_inv(pre, *old(self), old(opened)@, ox, oy),
            stack_inv(pre, *old(self), old(stack)@),
            closure_except(pre, *old(self), old(stack)@, cx as int, cy as int),
            in_bounds(pre, cx as int, cy as int),
            cell_at(pre, cx as int, cy as int).content == CellContent::Safe(0),
            newly_opened(pre, *old(self), cx as int, cy as int),
            newly_opened(pre, *old(self), ox, oy),
            nx < pre.width,
            ny < pre.height,
            is_adjacent(cx as int, cy as int, nx as int, ny as int),
        ensures
            fill_inv(pre, *final(self), final(opened)@, ox, oy),
            stack_inv(pre, *final(self), final(stack)@),
            closure_except(pre, *final(self), final(stack)@, cx as int, cy as int),
            old(stack)@.is_prefix_of(final(stack)@),
            vis_monotone(*old(self), *final(self)),
            cell_at(*final(self), nx as int, ny as int).vis != CellVis::Closed,
            resolved_preserved(*old(self), *final(self)),
            newly_opened(pre, *final(self), cx as int, cy as int),
            newly_opened(pre, *final(self), ox, oy),
            cell_at(*old(self), nx as int, ny as int).vis == CellVis::Closed
                ==> count_closed(final(self).cells@) < count_closed(old(self).cells@)
                && final(stack)@.len() <= old(stack)@.len() + 1,
            cell_at(*old(self), nx as int, ny as int).vis != CellVis::Closed
                ==> final(self).cells@ == old(self).cells@
                && final(stack)@ == old(stack)@
                && final(opened)@ == old(opened)@,
    {
        proof {
            lemma_idx(pre.width as int, pre.height as int, nx as int, ny as int);
        }
        let c = self.cell(nx, ny);
        match c.vis {
            CellVis::Closed => {
                let ghost prev: Board = *self;
                self.set_cell(nx, ny, Cell { vis: CellVis::Opened, content: c.content });
                opened.push((nx, ny));
                let push_zero = match c.content {
                    CellContent::Safe(n) => n == 0,
                    CellContent::Mine => false,
                };
                if push_zero {
                    stack.push((nx, ny));
                }
                proof {
                    lemma_fill_step(
                        pre,
                        prev,
                        *self,
                        old(opened)@,
                        opened@,
                        old(stack)@,
                        stack@,
                        ox,
                        oy,
                        cx,
                        cy,
                        nx,
                        ny,
                    );
                }
            },
            _ => {
                proof {
                    assert(cell_at(*self, nx as int, ny as int).vis != CellVis::Closed);
                }
            },
        }
    }
}


/// A grid of `n` placeholder cells: closed, safe, count zero.
fn fresh_cells(n: usize) -> (v: Vec<Cell>)
    ensures
        v@.len() == n,
        forall|i: int|
            0 <= i < n ==> #[trigger] v@[i] == (Cell {
                vis: CellVis::Closed,
                content: CellContent::Safe(0),
            }),
{
    let mut v: Vec<Cell> = Vec::new();
    let mut i: usize = 0;
    while i < n
        invariant
            i <= n,
            v@.len() == i,
            forall|j: int|
                0 <= j < i ==> #[trigger] v@[j] == (Cell {
                    vis: CellVis::Closed,
                    content: CellContent::Safe(0),
                }),
        decreases n - i,
    {
        v.push(Cell { vis: CellVis::Closed, content: CellContent::Safe(0) });
        i = i + 1;
    }
    v
}

impl Board {
    /// Process one popped zero cell of the flood fill: resolve all of
    /// its up-to-8 neighbors, so that afterwards every opened zero cell
    /// is either still queued or has no closed neighbor left.
    #[verifier::rlimit(100)]
    fn process_cell(
        &mut self,
        opened: &mut Vec<(usize, usize)>,
        stack: &mut Vec<(usize, usize)>,
        Ghost(pre): Ghost<Board>,
        Ghost(ox): Ghost<int>,
        Ghost(oy): Ghost<int>,
        cx: usize,
        cy: usize,
    )
        requires
            pre.wf(),
            fill_inv(pre, *old(self), old(opened)@, ox, oy),
            stack_inv(pre, *old(self), old(stack)@),
            closure_except(pre, *old(self), old(stack)@, cx as int, cy as int),
            in_bounds(pre, cx as int, cy as int),
            cell_at(pre, cx as int, cy as int).content == CellContent::Safe(0),
            newly_opened(pre, *old(self), cx as int, cy as int),
            newly_opened(pre, *old(self), ox, oy),
        ensures
            fill_inv(pre, *final(self), final(opened)@, ox, oy),
            stack_inv(pre, *final(self), final(stack)@),
            closure_except(pre, *final(self), final(stack)@, -1, -1),
            newly_opened(pre, *final(self), ox, oy),
            count_closed(final(self).cells@) <= count_closed(old(self).cells@),
            count_closed(final(self).cells@) == count_closed(old(self).cells@) ==> final(stack)@
                == old(stack)@,
    {
        let ghost w = pre.width as int;
        let ghost h = pre.height as int;
        let w_ = self.width;
        let h_ = self.height;
        if cx > 0 && cy > 0 {
            self.open_neighbor(
                opened,
                stack,
                Ghost(pre),
                Ghost(ox),
                Ghost(oy),
                cx,
                cy,
                cx - 1,
                cy - 1,
            );
        }
        if cy > 0 {
            self.open_neighbor(
                opened,
                stack,
                Ghost(pre),
                Ghost(ox),
                Ghost(oy),
                cx,
                cy,
                cx,
                cy - 1,
            );
        }
        if cx + 1 < w_ && cy > 0 {
            self.open_neighbor(
                opened,
                stack,
                Ghost(pre),
                Ghost(ox),
                Ghost(oy),
                cx,
                cy,
                cx + 1,
                cy - 1,
            );
        }
        if cx > 0 {
            self.open_neighbor(
                opened,
                stack,
                Ghost(pre),
                Ghost(ox),
                Ghost(oy),
                cx,
                cy,
                cx - 1,
                cy,
            );
        }
        if cx + 1 < w_ {
            self.open_neighbor(
                opened,
                stack,
                Ghost(pre),
                Ghost(ox),
                Ghost(oy),
                cx,
                cy,
                cx + 1,
                cy,
            );
        }
        if cx > 0 && cy + 1 < h_ {
            self.open_neighbor(
                opened,
                stack,
                Ghost(pre),
                Ghost(ox),
                Ghost(oy),
                cx,
                cy,
                cx - 1,
                cy + 1,
            );
        }
        if cy + 1 < h_ {
            self.open_neighbor(
                opened,
                stack,
                Ghost(pre),
                Ghost(ox),
                Ghost(oy),
                cx,
                cy,
                cx,
                cy + 1,
            );
        }
        if cx + 1 < w_ && cy + 1 < h_ {
            self.open_neighbor(
                opened,
                stack,
                Ghost(pre),
                Ghost(ox),
                Ghost(oy),
                cx,
                cy,
                cx + 1,
                cy + 1,
            );
        }
        proof {
            assert(no_closed_neighbors(*self, cx as int, cy as int)) by {
                assert forall|u: int, v: int|
                    is_adjacent(cx as int, cy as int, u, v) && in_bounds(
                        *self,
                        u,
                        v,
                    ) implies cell_at(*self, u, v).vis != CellVis::Closed by {
                    lemma_idx(w, h, u, v);
                }
            }
            assert forall|a: usize, b: usize|
                newly_opened(pre, *self, a as int, b as int) && cell_at(
                    pre,
                    a as int,
                    b as int,
                ).content == CellContent::Safe(0) && !(a as int == -1 && b as int
                    == -1) implies (#[trigger] stack@.contains((a, b)) || no_closed_neighbors(
                *self,
                a as int,
                b as int,
            )) by {
                if a == cx && b == cy {
                    assert(no_closed_neighbors(*self, cx as int, cy as int));
                }
            }
        }
    }
}

impl Board {
    /// Open every mine on the board (the full reveal after a loss).
    /// Safe cells keep their visibility, wrong flags included.
    pub fn reveal_all_mines(&mut self)
        requires
            old(self).wf(),
            !old(self).mines_pending,
        ensures
            same_frame(*old(self), *final(self)),
            final(self).wf(),
            same_contents(*old(self), *final(self)),
            forall|i: int|
                0 <= i < old(self).cells@.len() && is_mine(#[trigger] old(self).cells@[i])
                    ==> final(self).cells@[i].vis == CellVis::Opened,
            forall|i: int|
                0 <= i < old(self).cells@.len() && !is_mine(#[trigger] old(self).cells@[i])
                    ==> final(self).cells@[i].vis == old(self).cells@[i].vis,
    {
        let n = self.cells.len();
        let mut i: usize = 0;
        while i < n
            invariant
                i <= n,
                self.width == old(self).width,
                self.height == old(self).height,
                self.mines_pending == old(self).mines_pending,
                self.mine_count == old(self).mine_count,
                self.seed == old(self).seed,
                self.cells@.len() == n,
                forall|j: int|
                    0 <= j < n ==> (#[trigger] self.cells@[j]).content == old(
                        self,
                    ).cells@[j].content,
                forall|j: int|
                    0 <= j < i && is_mine(#[trigger] old(self).cells@[j]) ==> self.cells@[j].vis
                        == CellVis::Opened,
                forall|j: int|
                    (i <= j < n || !is_mine(old(self).cells@[j])) && 0 <= j < n
                        ==> (#[trigger] self.cells@[j]).vis == old(self).cells@[j].vis,
            decreases n - i,
        {
            let c = self.cells[i];
            match c.content {
                CellContent::Mine => {
                    self.cells.set(i, Cell { vis: CellVis::Opened, content: c.content });
                },
                CellContent::Safe(_) => {},
            }
            i = i + 1;
        }
        proof {
            lemma_wf_vis_change(*old(self), *self);
        }
    }

    /// Run the deferred mine placement triggered by the first open
    /// play: sample the mines now, keeping `(avoid_x, avoid_y)` -- the
    /// cell the player is opening -- mine-free, and compute all counts.
    pub fn place_deferred(&mut self, avoid_x: usize, avoid_y: usize)
        requires
            old(self).wf(),
            old(self).mines_pending,
            avoid_x < old(self).width,
            avoid_y < old(self).height,
        ensures
            final(self).width == old(self).width,
            final(self).height == old(self).height,
            final(self).mine_count == old(self).mine_count,
            final(self).seed == old(self).seed,
            final(self).mines_pending == false,
            final(self).wf(),
            final(self).cells@.len() == old(self).cells@.len(),
            forall|i: int|
                0 <= i < old(self).cells@.len() ==> (#[trigger] final(self).cells@[i]).vis == old(
                    self,
                ).cells@[i].vis,
            count_mines(final(self).cells@) == old(self).mine_count,
            !is_mine(cell_at(*final(self), avoid_x as int, avoid_y as int)),
    {
        proof {
            lemma_idx(self.width as int, self.height as int, avoid_x as int, avoid_y as int);
        }
        let n = self.cells.len();
        let idx = avoid_y * self.width + avoid_x;
        self.place_random(Some(idx));
    }
}

/// Build a board with its mines at exactly the given (distinct,
/// in-range) cell indices, every cell closed and every count exact.
pub fn new_board_with_mines(width: usize, height: usize, mines: &Vec<usize>, seed: u64) -> (r:
    Result<Board, NewBoardError>)
    requires
        (width as int) * (height as int) <= usize::MAX as int,
        mines@.no_duplicates(),
        forall|j: int| 0 <= j < mines@.len() ==> #[trigger] mines@[j] < width * height,
    ensures
        match r {
            Ok(b) => {
                &&& 1 <= width
                &&& 1 <= height
                &&& mines@.len() < width * height
                &&& b.wf()
                &&& b.width == width
                &&& b.height == height
                &&& b.mine_count == mines@.len()
                &&& b.seed == seed
                &&& b.mines_pending == false
                &&& forall|i: int|
                    0 <= i < b.cells@.len() ==> (#[trigger] b.cells@[i]).vis == CellVis::Closed
                &&& forall|i: int|
                    0 <= i < b.cells@.len() ==> (is_mine(#[trigger] b.cells@[i])
                        <==> mines@.contains(i as usize))
            },
            Err(NewBoardError::InvalidDimensions) => width == 0 || height == 0,
            Err(NewBoardError::TooManyMines) => 1 <= width && 1 <= height && mines@.len() >= (
            width as int) * (height as int),
        },
{
    if width == 0 || height == 0 {
        return Err(NewBoardError::InvalidDimensions);
    }
    let n = width * height;
    if mines.len() >= n {
        return Err(NewBoardError::TooManyMines);
    }
    let cells = fresh_cells(n);
    let mut b = Board {
        width,
        height,
        cells,
        mines_pending: false,
        mine_count: mines.len(),
        seed,
    };
    b.place_mines_at(mines);
    let ghost placed: Seq<Cell> = b.cells@;
    b.recompute_counts();
    proof {
        lemma_count_mines_pointwise(b.cells@, placed);
        assert forall|i: int|
            0 <= i < b.cells@.len() implies (is_mine(#[trigger] b.cells@[i]) <==> mines@.contains(
            i as usize,
        )) by {
            assert(is_mine(b.cells@[i]) == is_mine(placed[i]));
        }
    }
    Ok(b)
}

/// Linear cell index `i` names the on-grid cell at column `i % width`,
/// row `i / width`.
pub proof fn lemma_cell_index_coords(b: Board, i: int)
    requires
        1 <= b.width,
        1 <= b.height,
        b.cells@.len() == (b.width as int) * (b.height as int),
        0 <= i < b.cells@.len(),
    ensures
        in_bounds(b, i % (b.width as int), i / (b.width as int)),
        cell_at(b, i % (b.width as int), i / (b.width as int)) == b.cells@[i],
{
    let w = b.width as int;
    let h = b.height as int;
    vstd::arithmetic::div_mod::lemma_fundamental_div_mod(i, w);
    let x = i % w;
    let y = i / w;
    assert(0 <= x < w && 0 <= y < h && y * w + x == i) by (nonlinear_arith)
        requires
            1 <= w,
            1 <= h,
            0 <= i < w * h,
            i == w * y + x,
            x == i % w,
            0 <= i % w < w,
    ;
    lemma_idx(w, h, x, y);
}

/// Completeness of the flood fill: once the fill has stopped -- the
/// origin is opened and every opened zero cell has no closed neighbor
/// left -- every cell the origin reaches through closed zero cells has
/// been opened.
proof fn lemma_component_opened(pre: Board, cur: Board, ox: int, oy: int, x: int, y: int, k: nat)
    requires
        pre.wf(),
        cur.width == pre.width,
        cur.height == pre.height,
        cur.cells@.len() == pre.cells@.len(),
        vis_monotone(pre, cur),
        newly_opened(pre, cur, ox, oy),
        forall|a: int, b: int|
            #[trigger] newly_opened(pre, cur, a, b) && cell_at(pre, a, b).content
                == CellContent::Safe(0) ==> no_closed_neighbors(cur, a, b),
        reaches(pre, ox, oy, x, y, k),
        in_bounds(pre, x, y),
        cell_at(pre, x, y).vis == CellVis::Closed,
    ensures
        cell_at(cur, x, y).vis == CellVis::Opened,
    decreases k,
{
    let w = pre.width as int;
    let h = pre.height as int;
    lemma_idx(w, h, x, y);
    if x == ox && y == oy {
    } else {
        let (px, py) = choose|px: int, py: int|
            {
                &&& #[trigger] is_adjacent(px, py, x, y)
                &&& in_bounds(pre, px, py)
                &&& cell_at(pre, px, py).vis == CellVis::Closed
                &&& cell_at(pre, px, py).content == CellContent::Safe(0)
                &&& reaches(pre, ox, oy, px, py, (k - 1) as nat)
            };
        lemma_idx(w, h, px, py);
        lemma_component_opened(pre, cur, ox, oy, px, py, (k - 1) as nat);
        assert(newly_opened(pre, cur, px, py));
        assert(no_closed_neighbors(cur, px, py));
        assert(cell_at(cur, x, y).vis != CellVis::Closed);
    }
}

impl Board {
    /// Open the cell at `(x, y)` and return exactly the cells this call
    /// opened.
    ///
    /// A flagged or already opened target is a no-op (the flag protects
    /// the cell). A closed mine or numbered cell opens alone. A closed
    /// zero cell starts a flood fill that opens precisely the connected
    /// component reachable from it through closed zero cells, numbered
    /// boundary included, flagged cells excluded; no other cell
    /// changes, and no content ever changes.
    #[verifier::rlimit(100)]
    pub fn open(&mut self, x: usize, y: usize) -> (opened: Vec<(usize, usize)>)
        requires
            old(self).wf(),
            !old(self).mines_pending,
            x < old(self).width,
            y < old(self).height,
        ensures
            same_frame(*old(self), *final(self)),
            final(self).wf(),
            same_contents(*old(self), *final(self)),
            vis_monotone(*old(self), *final(self)),
            opened@.no_duplicates(),
            forall|a: usize, b: usize| #[trigger]
                opened@.contains((a, b)) <==> newly_opened(
                    *old(self),
                    *final(self),
                    a as int,
                    b as int,
                ),
            cell_at(*old(self), x as int, y as int).vis != CellVis::Closed ==> final(self).cells@
                == old(self).cells@ && opened@.len() == 0,
            cell_at(*old(self), x as int, y as int).vis == CellVis::Closed ==> cell_at(
                *final(self),
                x as int,
                y as int,
            ).vis == CellVis::Opened,
            cell_at(*old(self), x as int, y as int).vis == CellVis::Closed && cell_at(
                *old(self),
                x as int,
                y as int,
            ).content != CellContent::Safe(0) ==> final(self).cells@ == old(self).cells@.update(
                board_idx(*old(self), x as int, y as int),
                Cell {
                    vis: CellVis::Opened,
                    content: cell_at(*old(self), x as int, y as int).content,
                },
            ),
            cell_at(*old(self), x as int, y as int).vis == CellVis::Closed && cell_at(
                *old(self),
                x as int,
                y as int,
            ).content == CellContent::Safe(0) ==> forall|a: int, b: int| #[trigger]
                newly_opened(*old(self), *final(self), a, b) <==> in_component(
                    *old(self),
                    x as int,
                    y as int,
                    a,
                    b,
                ),
    {
        let ghost pre: Board = *old(self);
        let ghost w = pre.width as int;
        let ghost h = pre.height as int;
        proof {
            lemma_idx(w, h, x as int, y as int);
        }
        let mut opened: Vec<(usize, usize)> = Vec::new();
        let c = self.cell(x, y);
        match c.vis {
            CellVis::Closed => {},
            _ => {
                return opened;
            },
        }
        self.set_cell(x, y, Cell { vis: CellVis::Opened, content: c.content });
        opened.push((x, y));
        proof {
            assert forall|a: int, b: int|
                newly_opened(pre, *self, a, b) implies (a == x as int && b == y as int) by {
                lemma_idx(w, h, a, b);
                if b * w + a == (y as int) * w + (x as int) {
                    lemma_idx_injective(w, h, a, b, x as int, y as int);
                }
            }
            assert(newly_opened(pre, *self, x as int, y as int));
            assert forall|a: usize, b: usize| #[trigger]
                opened@.contains((a, b)) implies newly_opened(pre, *self, a as int, b as int) by {
                assert(opened@[0] == (x, y));
                assert((a, b) == (x, y));
            }
            assert forall|a: usize, b: usize|
                newly_opened(pre, *self, a as int, b as int) implies #[trigger] opened@.contains(
                (a, b),
            ) by {
                assert(a == x && b == y);
                assert(opened@[0] == (x, y));
            }
            assert(reaches(pre, x as int, y as int, x as int, y as int, 0));
            lemma_wf_vis_change(pre, *self);
        }
        let cascade = match c.content {
            CellContent::Safe(n) => n == 0,
            CellContent::Mine => false,
        };
        if !cascade {
            return opened;
        }
        let mut stack: Vec<(usize, usize)> = Vec::new();
        stack.push((x, y));
        while stack.len() > 0
            invariant
                fill_inv(pre, *self, opened@, x as int, y as int),
                stack_inv(pre, *self, stack@),
                closure_except(pre, *self, stack@, -1, -1),
                newly_opened(pre, *self, x as int, y as int),
                cell_at(pre, x as int, y as int).vis == CellVis::Closed,
                cell_at(pre, x as int, y as int).content == CellContent::Safe(0),
            decreases count_closed(self.cells@), stack@.len(),
        {
            let ghost stack_before: Seq<(usize, usize)> = stack@;
            let p = stack.pop().unwrap();
            let cx = p.0;
            let cy = p.1;
            proof {
                assert(stack_before =~= stack@.push((cx, cy)));
                assert(in_bounds(pre, cx as int, cy as int));
                assert(cell_at(pre, cx as int, cy as int).content == CellContent::Safe(0));
                assert(newly_opened(pre, *self, cx as int, cy as int));
                assert forall|a: usize, b: usize|
                    newly_opened(pre, *self, a as int, b as int) && cell_at(
                        pre,
                        a as int,
                        b as int,
                    ).content == CellContent::Safe(0) && !(a as int == cx as int && b as int
                        == cy as int) implies (#[trigger] stack@.contains((a, b))
                    || no_closed_neighbors(*self, a as int, b as int)) by {
                    if stack_before.contains((a, b)) {
                        let j = choose|j: int|
                            0 <= j < stack_before.len() && stack_before[j] == (a, b);
                        if j < stack_before.len() - 1 {
                            assert(stack@[j] == (a, b));
                        } else {
                            assert((a, b) == (cx, cy));
                        }
                    }
                }
            }
            self.process_cell(
                &mut opened,
                &mut stack,
                Ghost(pre),
                Ghost(x as int),
                Ghost(y as int),
                cx,
                cy,
            );
        }
        proof {
            lemma_wf_vis_change(pre, *self);
            assert forall|a: int, b: int|
                in_component(pre, x as int, y as int, a, b) implies #[trigger] newly_opened(
                pre,
                *self,
                a,
                b,
            ) by {
                assert forall|aa: int, bb: int|
                    #[trigger] newly_opened(pre, *self, aa, bb) && cell_at(
                        pre,
                        aa,
                        bb,
                    ).content == CellContent::Safe(0) implies no_closed_neighbors(
                    *self,
                    aa,
                    bb,
                ) by {
                    assert(in_bounds(pre, aa, bb));
                    let au = aa as usize;
                    let bu = bb as usize;
                    assert(newly_opened(pre, *self, au as int, bu as int));
                    assert(!stack@.contains((au, bu)));
                }
                let k = choose|k: nat| reaches(pre, x as int, y as int, a, b, k);
                lemma_component_opened(pre, *self, x as int, y as int, a, b, k);
            }
        }
        opened
    }
}

} // verus!
