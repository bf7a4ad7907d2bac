//! The grid: its cells, mine placement, flags and queries.
use vstd::prelude::*;
use crate::cell::{Cell, CellChange, Coordinate, GameError};
use crate::layout::{
    count_true, eligible, eligible_from, lemma_narrow_eligible, mine_layout, picked, rng_next,
    sample_state, wide_zone,
};

verus! {

/// `(x, y)` lies on a `w` by `h` grid.
pub open spec fn in_grid(w: int, h: int, x: int, y: int) -> bool {
    0 <= x < w && 0 <= y < h
}

/// Row-major position of `(x, y)` in the flat cell sequence.
pub open spec fn index_of(w: int, x: int, y: int) -> int {
    y * w + x
}

/// Which cells hold a mine, by index.
pub open spec fn mine_seq(cells: Seq<Cell>) -> Seq<bool> {
    cells.map_values(|c: Cell| c.is_mine)
}

/// 1 when `(x, y)` is on the grid and mined, else 0.
pub open spec fn mine_at(mines: Seq<bool>, w: int, h: int, x: int, y: int) -> nat {
    if in_grid(w, h, x, y) && mines[index_of(w, x, y)] {
        1
    } else {
        0
    }
}

/// Number of mined cells among the eight neighbours of `(x, y)`.
pub open spec fn adjacent_mines(mines: Seq<bool>, w: int, h: int, x: int, y: int) -> nat {
    mine_at(mines, w, h, x - 1, y - 1) + mine_at(mines, w, h, x, y - 1)
        + mine_at(mines, w, h, x + 1, y - 1) + mine_at(mines, w, h, x - 1, y)
        + mine_at(mines, w, h, x + 1, y) + mine_at(mines, w, h, x - 1, y + 1)
        + mine_at(mines, w, h, x, y + 1) + mine_at(mines, w, h, x + 1, y + 1)
}

/// The cells with the flag of cell `i` flipped.
pub open spec fn flag_toggled(cells: Seq<Cell>, i: int) -> Seq<Cell> {
    cells.update(i, Cell { is_flagged: !cells[i].is_flagged, ..cells[i] })
}

/// Every non-mine cell is uncovered.
pub open spec fn all_safe_revealed(cells: Seq<Cell>) -> bool {
    forall|i: int| 0 <= i < cells.len() && !(#[trigger] cells[i]).is_mine ==> !cells[i].is_covered
}

/// Number of flagged cells among the first `k`.
pub open spec fn flagged_prefix(cells: Seq<Cell>, k: int) -> nat
    decreases k,
{
    if k <= 0 {
        0
    } else {
        flagged_prefix(cells, k - 1) + if cells[k - 1].is_flagged {
            1nat
        } else {
            0nat
        }
    }
}

/// Number of covered cells among the first `k`.
pub open spec fn covered_prefix(cells: Seq<Cell>, k: int) -> nat
    decreases k,
{
    if k <= 0 {
        0
    } else {
        covered_prefix(cells, k - 1) + if cells[k - 1].is_covered {
            1nat
        } else {
            0nat
        }
    }
}

/// A grid position's index lies inside the flat sequence.
pub proof fn lemma_index_in_grid(w: int, h: int, x: int, y: int)
    requires
        in_grid(w, h, x, y),
    ensures
        0 <= index_of(w, x, y) < w * h,
{
    assert(0 <= y * w + x < w * h) by (nonlinear_arith)
        requires
            0 <= x < w,
            0 <= y < h,
    ;
}

/// Every grid position has its index inside the flat sequence.
pub proof fn lemma_grid_indices(w: int, h: int)
    ensures
        forall|x: int, y: int| in_grid(w, h, x, y) ==> 0 <= #[trigger] index_of(w, x, y) < w * h,
{
    assert forall|x: int, y: int| in_grid(w, h, x, y) implies 0 <= #[trigger] index_of(w, x, y) < w
        * h by {
        lemma_index_in_grid(w, h, x, y);
    }
}

/// Distinct grid positions have distinct indices.
pub proof fn lemma_index_injective(w: int, h: int)
    ensures
        forall|x1: int, y1: int, x2: int, y2: int|
            in_grid(w, h, x1, y1) && in_grid(w, h, x2, y2) && #[trigger] index_of(w, x1, y1)
                == #[trigger] index_of(w, x2, y2) ==> x1 == x2 && y1 == y2,
{
    assert forall|x1: int, y1: int, x2: int, y2: int|
        in_grid(w, h, x1, y1) && in_grid(w, h, x2, y2) && #[trigger] index_of(w, x1, y1)
            == #[trigger] index_of(w, x2, y2) implies x1 == x2 && y1 == y2 by {
        let i = index_of(w, x1, y1);
        vstd::arithmetic::div_mod::lemma_fundamental_div_mod_converse(i, w, y1, x1);
        vstd::arithmetic::div_mod::lemma_fundamental_div_mod_converse(i, w, y2, x2);
    }
}

/// An index splits into the column `i % w` and the row `i / w`.
pub proof fn lemma_index_split(w: int, h: int, i: int)
    requires
        0 <= i < w * h,
        w > 0,
    ensures
        in_grid(w, h, i % w, i / w),
        index_of(w, i % w, i / w) == i,
{
    vstd::arithmetic::div_mod::lemma_fundamental_div_mod(i, w);
    vstd::arithmetic::div_mod::lemma_div_pos_is_pos(i, w);
    let q = i / w;
    let r = i % w;
    assert(0 <= r < w);
    assert(q < h) by (nonlinear_arith)
        requires
            i == w * q + r,
            0 <= r,
            i < w * h,
            w > 0,
    ;
    assert(q * w == w * q) by (nonlinear_arith);
}

/// Uncovering one covered cell lowers the covered count by one.
pub proof fn lemma_covered_prefix_uncover(cells: Seq<Cell>, i: int, c: Cell, k: int)
    requires
        0 <= i < cells.len(),
        0 <= k <= cells.len(),
        cells[i].is_covered,
        !c.is_covered,
    ensures
        covered_prefix(cells.update(i, c), k) + (if i < k {
            1int
        } else {
            0int
        }) == covered_prefix(cells, k),
    decreases k,
{
    if k > 0 {
        lemma_covered_prefix_uncover(cells, i, c, k - 1);
    }
}

fn next_state(s: u64) -> (r: u64)
    ensures
        r == rng_next(s),
{
    let a = s ^ (s << 13u64);
    let b = a ^ (a >> 7u64);
    b ^ (b << 17u64)
}

fn is_eligible(w: usize, wide: bool, p: Coordinate, i: usize) -> (r: bool)
    requires
        w > 0,
        p.x < w,
    ensures
        r == eligible(w as int, wide, p, i as int),
{
    let x = i % w;
    let y = i / w;
    if wide {
        let near_x = x + 1 >= p.x && x <= p.x + 1;
        let near_y = if y >= p.y { y - p.y <= 1 } else { p.y - y <= 1 };
        !(near_x && near_y)
    } else {
        !(x == p.x && y == p.y)
    }
}

fn count_eligible(w: usize, n: usize, wide: bool, p: Coordinate) -> (r: usize)
    requires
        w > 0,
        p.x < w,
    ensures
        r == eligible_from(w as int, n as int, wide, p, 0),
        r <= n,
{
    let mut i: usize = n;
    let mut cnt: usize = 0;
    while i > 0
        invariant
            i <= n,
            w > 0,
            p.x < w,
            cnt == eligible_from(w as int, n as int, wide, p, i as int),
            cnt <= n - i,
        decreases i,
    {
        i = i - 1;
        if is_eligible(w, wide, p, i) {
            cnt = cnt + 1;
        }
    }
    cnt
}

/// On every well-formed board a flagged cell is covered.
pub proof fn lemma_flag_implies_covered(b: Board)
    requires
        b.wf(),
    ensures
        forall|i: int|
            0 <= i < b.cells@.len() && (#[trigger] b.cells@[i]).is_flagged ==> b.cells@[i].is_covered,
{
}

/// Toggling the flag of the same cell twice restores the cells exactly.
pub proof fn lemma_toggle_twice(cells: Seq<Cell>, i: int)
    requires
        0 <= i < cells.len(),
    ensures
        flag_toggled(flag_toggled(cells, i), i) == cells,
{
    assert(flag_toggled(flag_toggled(cells, i), i) =~= cells);
}

/// Two boards of the same dimensions whose mines were placed with the same
/// count, protected cell and seed hold the same mines.
pub proof fn lemma_same_seed_same_mines(
    b1: Board,
    b2: Board,
    mine_count: usize,
    protected: Coordinate,
    seed: u64,
)
    requires
        b1.width == b2.width,
        b1.height == b2.height,
        b1.mines() == mine_layout(b1.width as int, b1.len(), protected, seed, mine_count as int),
        b2.mines() == mine_layout(b2.width as int, b2.len(), protected, seed, mine_count as int),
    ensures
        b1.mines() == b2.mines(),
{
}

/// The grid of cells.
pub struct Board {
    pub width: usize,
    pub height: usize,
    /// Row-major: the cell at `(x, y)` is at index `y * width + x`.
    pub cells: Vec<Cell>,
    pub mines_placed: bool,
}

impl Board {
    pub open spec fn len(self) -> int {
        self.width * self.height
    }

    pub open spec fn contains(self, c: Coordinate) -> bool {
        in_grid(self.width as int, self.height as int, c.x as int, c.y as int)
    }

    pub open spec fn idx(self, c: Coordinate) -> int {
        index_of(self.width as int, c.x as int, c.y as int)
    }

    pub open spec fn mines(self) -> Seq<bool> {
        mine_seq(self.cells@)
    }

    /// The count stored at `(x, y)` is the number of mined neighbours.
    pub open spec fn count_exact(self, x: int, y: int) -> bool {
        self.cells@[index_of(self.width as int, x, y)].adjacent_mine_count as nat == adjacent_mines(
            self.mines(),
            self.width as int,
            self.height as int,
            x,
            y,
        )
    }

    pub open spec fn wf(self) -> bool {
        &&& self.width > 0
        &&& self.height > 0
        &&& self.width * self.height <= usize::MAX
        &&& self.cells@.len() == self.width * self.height
        &&& forall|i: int|
            0 <= i < self.cells@.len() && (#[trigger] self.cells@[i]).is_flagged
                ==> self.cells@[i].is_covered
        &&& forall|x: int, y: int|
            in_grid(self.width as int, self.height as int, x, y) ==> #[trigger] self.count_exact(
                x,
                y,
            )
        &&& !self.mines_placed ==> forall|i: int|
            0 <= i < self.cells@.len() ==> !(#[trigger] self.cells@[i]).is_mine
    }

    /// Every non-mine cell is revealed.
    pub open spec fn cleared(self) -> bool {
        all_safe_revealed(self.cells@)
    }

    pub open spec fn flagged_count(self) -> nat {
        flagged_prefix(self.cells@, self.cells@.len() as int)
    }

    /// A board of `width` by `height` fresh cells, no mines placed.
    pub fn new(width: usize, height: usize) -> (r: Result<Board, GameError>)
        requires
            width * height <= usize::MAX,
        ensures
            r is Err <==> (width == 0 || height == 0),
            r is Err ==> r == Err::<Board, GameError>(GameError::InvalidDimensions),
            r matches Ok(b) ==> {
                &&& b.wf()
                &&& b.width == width
                &&& b.height == height
                &&& !b.mines_placed
                &&& forall|i: int| 0 <= i < b.cells@.len() ==> b.cells@[i] == Cell::fresh()
            },
    {
        if width == 0 || height == 0 {
            return Err(GameError::InvalidDimensions);
        }
        let n: usize = width * height;
        let mut cells: Vec<Cell> = Vec::new();
        let mut i: usize = 0;
        while i < n
            invariant
                i <= n,
                cells@.len() == i,
                forall|j: int| 0 <= j < i ==> cells@[j] == Cell::fresh(),
            decreases n - i,
        {
            cells.push(Cell { is_mine: false, is_covered: true, is_flagged: false, adjacent_mine_count: 0 });
            i = i + 1;
        }
        let b = Board { width, height, cells, mines_placed: false };
        proof {
            lemma_grid_indices(width as int, height as int);
            assert forall|j: int| 0 <= j < b.cells@.len() implies !#[trigger] b.mines()[j] by {}
        }
        Ok(b)
    }

    /// 1 when the neighbour `(x + dx - 1, y + dy - 1)` is on the grid and mined.
    fn mine_at_offset(&self, x: usize, y: usize, dx: usize, dy: usize) -> (r: u8)
        requires
            self.cells@.len() == self.width * self.height,
            self.width * self.height <= usize::MAX,
            x < self.width,
            y < self.height,
            dx <= 2,
            dy <= 2,
        ensures
            r as nat == mine_at(
                self.mines(),
                self.width as int,
                self.height as int,
                x + dx - 1,
                y + dy - 1,
            ),
    {
        if (dx == 0 && x == 0) || (dy == 0 && y == 0) {
            return 0;
        }
        let nx = if dx == 0 {
            x - 1
        } else if dx == 1 {
            x
        } else {
            x + 1
        };
        let ny = if dy == 0 {
            y - 1
        } else if dy == 1 {
            y
        } else {
            y + 1
        };
        if nx >= self.width || ny >= self.height {
            return 0;
        }
        proof {
            lemma_index_in_grid(self.width as int, self.height as int, nx as int, ny as int);
        }
        if self.cells[ny * self.width + nx].is_mine {
            1
        } else {
            0
        }
    }

    fn count_adjacent(&self, x: usize, y: usize) -> (r: u8)
        requires
            self.cells@.len() == self.width * self.height,
            self.width * self.height <= usize::MAX,
            x < self.width,
            y < self.height,
        ensures
            r as nat == adjacent_mines(
                self.mines(),
                self.width as int,
                self.height as int,
                x as int,
                y as int,
            ),
    {
        self.mine_at_offset(x, y, 0, 0) + self.mine_at_offset(x, y, 1, 0) + self.mine_at_offset(
            x,
            y,
            2,
            0,
        ) + self.mine_at_offset(x, y, 0, 1) + self.mine_at_offset(x, y, 2, 1)
            + self.mine_at_offset(x, y, 0, 2) + self.mine_at_offset(x, y, 1, 2)
            + self.mine_at_offset(x, y, 2, 2)
    }

    /// Places `mine_count` mines, chosen by a generator seeded with `seed`,
    /// away from `protected` (and from its neighbours where the mines fit
    /// elsewhere), then fills in every cell's adjacent-mine count.
    pub fn place_mines(&mut self, mine_count: usize, protected: Coordinate, seed: u64) -> (r: Result<(), GameError>)
        requires
            old(self).wf(),
        ensures
            final(self).wf(),
            final(self).width == old(self).width,
            final(self).height == old(self).height,
            r == Err::<(), GameError>(GameError::MinesAlreadyPlaced) <==> old(self).mines_placed,
            r == Err::<(), GameError>(GameError::TooManyMines) <==> !old(self).mines_placed
                && mine_count >= old(self).len(),
            r == Err::<(), GameError>(GameError::OutOfBounds) <==> !old(self).mines_placed
                && mine_count < old(self).len() && !old(self).contains(protected),
            r matches Err(e) ==> e == GameError::MinesAlreadyPlaced || e == GameError::TooManyMines
                || e == GameError::OutOfBounds,
            r is Err ==> *final(self) == *old(self),
            r is Ok ==> {
                &&& final(self).mines_placed
                &&& final(self).mines() == mine_layout(
                    old(self).width as int,
                    old(self).len(),
                    protected,
                    seed,
                    mine_count as int,
                )
                &&& count_true(final(self).mines(), old(self).len()) == mine_count
                &&& !final(self).mines()[old(self).idx(protected)]
                &&& forall|i: int|
                    0 <= i < old(self).len() ==> {
                        &&& (#[trigger] final(self).cells@[i]).is_covered == old(self).cells@[i].is_covered
                        &&& final(self).cells@[i].is_flagged == old(self).cells@[i].is_flagged
                    }
            },
    {
        if self.mines_placed {
            return Err(GameError::MinesAlreadyPlaced);
        }
        let w = self.width;
        let n = self.cells.len();
        if mine_count >= n {
            return Err(GameError::TooManyMines);
        }
        if !self.in_bounds(protected) {
            return Err(GameError::OutOfBounds);
        }
        let ghost wi = w as int;
        let ghost ni = n as int;
        let ghost pi = self.idx(protected);
        let ghost old_cells = self.cells@;
        let wide_count = count_eligible(w, n, true, protected);
        let wide = mine_count <= wide_count;
        let mut remaining = if wide {
            wide_count
        } else {
            proof {
                lemma_narrow_eligible(wi, self.height as int, protected, 0);
                lemma_index_in_grid(wi, self.height as int, protected.x as int, protected.y as int);
            }
            count_eligible(w, n, false, protected)
        };
        assert(wide == wide_zone(wi, ni, protected, mine_count as int));
        let mut needed: usize = mine_count;
        let mut state: u64 = seed ^ 0x9E37_79B9_7F4A_7C15u64;
        let mut i: usize = 0;
        while i < n
            invariant
                n == self.cells@.len(),
                n == old_cells.len(),
                self.width == old(self).width,
                self.height == old(self).height,
                !self.mines_placed,
                n == ni,
                w == wi,
                wi == self.width,
                ni == wi * self.height,
                protected.x < w,
                wide == wide_zone(wi, ni, protected, mine_count as int),
                i <= n,
                (state, needed as int, remaining as int) == sample_state(wi, ni, protected, seed, mine_count as int, i as int),
                remaining == eligible_from(wi, ni, wide, protected, i as int),
                needed <= remaining,
                count_true(mine_layout(wi, ni, protected, seed, mine_count as int), i as int) + needed == mine_count,
                forall|j: int| 0 <= j < i ==> (#[trigger] self.cells@[j]).is_mine == picked(wi, ni, protected, seed, mine_count as int, j),
                forall|j: int| 0 <= j < n ==> {
                    &&& (#[trigger] self.cells@[j]).is_covered == old_cells[j].is_covered
                    &&& self.cells@[j].is_flagged == old_cells[j].is_flagged
                    &&& self.cells@[j].adjacent_mine_count == old_cells[j].adjacent_mine_count
                },
            decreases n - i,
        {
            if is_eligible(w, wide, protected, i) {
                state = next_state(state);
                let draw: u64 = (state >> 11u64) % (remaining as u64);
                let mut cell = self.cells[i];
                if draw < needed as u64 {
                    cell.is_mine = true;
                    needed = needed - 1;
                } else {
                    cell.is_mine = false;
                }
                self.cells.set(i, cell);
                remaining = remaining - 1;
            } else {
                let mut cell = self.cells[i];
                cell.is_mine = false;
                self.cells.set(i, cell);
            }
            i = i + 1;
        }
        let ghost layout = mine_layout(wi, ni, protected, seed, mine_count as int);
        assert(self.mines() =~= layout);
        let mut k: usize = 0;
        while k < n
            invariant
                n == self.cells@.len(),
                n == old_cells.len(),
                self.width == old(self).width,
                self.height == old(self).height,
                n == wi * self.height,
                w == self.width,
                w == wi,
                w > 0,
                self.height > 0,
                k <= n,
                self.mines() == layout,
                forall|j: int| 0 <= j < k ==> (#[trigger] self.cells@[j]).adjacent_mine_count as nat
                    == adjacent_mines(layout, wi, self.height as int, j % wi, j / wi),
                forall|j: int| 0 <= j < n ==> {
                    &&& (#[trigger] self.cells@[j]).is_covered == old_cells[j].is_covered
                    &&& self.cells@[j].is_flagged == old_cells[j].is_flagged
                },
            decreases n - k,
        {
            proof {
                lemma_index_split(wi, self.height as int, k as int);
            }
            let c = self.count_adjacent(k % w, k / w);
            let mut cell = self.cells[k];
            cell.adjacent_mine_count = c;
            self.cells.set(k, cell);
            assert(self.mines() =~= layout);
            k = k + 1;
        }
        self.mines_placed = true;
        proof {
            let hi = self.height as int;
            assert forall|x: int, y: int| in_grid(wi, hi, x, y) implies #[trigger] self.count_exact(x, y) by {
                let j = index_of(wi, x, y);
                lemma_index_in_grid(wi, hi, x, y);
                vstd::arithmetic::div_mod::lemma_fundamental_div_mod_converse(j, wi, y, x);
            }
            lemma_index_in_grid(wi, hi, protected.x as int, protected.y as int);
            vstd::arithmetic::div_mod::lemma_fundamental_div_mod_converse(pi, wi, protected.y as int, protected.x as int);
            assert(!eligible(wi, wide, protected, pi));
        }
        Ok(())
    }

    /// Every mined coordinate, in row-major order.
    pub fn mine_coordinates(&self) -> (r: Vec<Coordinate>)
        requires
            self.wf(),
        ensures
            forall|j: int|
                0 <= j < r@.len() ==> self.contains(#[trigger] r@[j]) && self.cells@[self.idx(
                    r@[j],
                )].is_mine,
            forall|x: int, y: int|
                in_grid(self.width as int, self.height as int, x, y) && (#[trigger] self.cells@[index_of(
                    self.width as int,
                    x,
                    y,
                )]).is_mine ==> exists|j: int|
                    0 <= j < r@.len() && (#[trigger] r@[j]).x == x && r@[j].y == y,
            forall|j1: int, j2: int|
                0 <= j1 < j2 < r@.len() ==> self.idx(#[trigger] r@[j1]) < self.idx(#[trigger] r@[j2]),
    {
        let w = self.width;
        let n = self.cells.len();
        let ghost wi = w as int;
        let ghost hi = self.height as int;
        let mut r: Vec<Coordinate> = Vec::new();
        let mut i: usize = 0;
        proof {
            lemma_grid_indices(wi, hi);
            lemma_index_injective(wi, hi);
        }
        while i < n
            invariant
                self.wf(),
                wi == w,
                w == self.width,
                hi == self.height,
                n == self.cells@.len(),
                i <= n,
                forall|j: int|
                    0 <= j < r@.len() ==> self.contains(#[trigger] r@[j]) && self.cells@[self.idx(
                        r@[j],
                    )].is_mine && self.idx(r@[j]) < i,
                forall|x: int, y: int|
                    in_grid(wi, hi, x, y) && index_of(wi, x, y) < i && (#[trigger] self.cells@[index_of(
                        wi,
                        x,
                        y,
                    )]).is_mine ==> exists|j: int|
                        0 <= j < r@.len() && (#[trigger] r@[j]).x == x && r@[j].y == y,
                forall|j1: int, j2: int|
                    0 <= j1 < j2 < r@.len() ==> self.idx(#[trigger] r@[j1]) < self.idx(#[trigger] r@[j2]),
                forall|x: int, y: int|
                    in_grid(wi, hi, x, y) ==> 0 <= #[trigger] index_of(wi, x, y) < wi * hi,
                forall|x1: int, y1: int, x2: int, y2: int|
                    in_grid(wi, hi, x1, y1) && in_grid(wi, hi, x2, y2) && #[trigger] index_of(wi, x1, y1)
                        == #[trigger] index_of(wi, x2, y2) ==> x1 == x2 && y1 == y2,
            decreases n - i,
        {
            if self.cells[i].is_mine {
                proof {
                    lemma_index_split(wi, hi, i as int);
                }
                let ghost pre = r@;
                r.push(Coordinate { x: i % w, y: i / w });
                proof {
                    assert forall|x: int, y: int|
                        in_grid(wi, hi, x, y) && index_of(wi, x, y) < i + 1 && (#[trigger] self.cells@[index_of(
                            wi,
                            x,
                            y,
                        )]).is_mine implies exists|j: int|
                            0 <= j < r@.len() && (#[trigger] r@[j]).x == x && r@[j].y == y by {
                        if index_of(wi, x, y) == i {
                            assert(index_of(wi, x, y) == index_of(wi, (i % w) as int, (i / w) as int));
                            assert(r@[r@.len() - 1].x == x);
                        } else {
                            let j = choose|j: int| 0 <= j < pre.len() && (#[trigger] pre[j]).x == x && pre[j].y == y;
                            assert(r@[j] == pre[j]);
                        }
                    }
                }
            }
            i = i + 1;
        }
        r
    }

    /// Checks `c` against the grid's bounds.
    pub fn in_bounds(&self, c: Coordinate) -> (r: bool)
        ensures
            r == self.contains(c),
    {
        c.x < self.width && c.y < self.height
    }

    pub(crate) fn index(&self, c: Coordinate) -> (r: usize)
        requires
            self.wf(),
            self.contains(c),
        ensures
            r as int == self.idx(c),
            r < self.cells@.len(),
    {
        proof {
            lemma_index_in_grid(self.width as int, self.height as int, c.x as int, c.y as int);
        }
        c.y * self.width + c.x
    }

    /// True iff every non-mine cell is uncovered.
    pub fn is_cleared(&self) -> (r: bool)
        ensures
            r == self.cleared(),
    {
        let mut i: usize = 0;
        while i < self.cells.len()
            invariant
                i <= self.cells@.len(),
                forall|j: int| 0 <= j < i && !(#[trigger] self.cells@[j]).is_mine ==> !self.cells@[j].is_covered,
            decreases self.cells@.len() - i,
        {
            if !self.cells[i].is_mine && self.cells[i].is_covered {
                return false;
            }
            i = i + 1;
        }
        true
    }

    /// Number of flagged cells.
    pub fn count_flagged(&self) -> (r: usize)
        ensures
            r == self.flagged_count(),
            r <= self.cells@.len(),
    {
        let mut i: usize = 0;
        let mut n: usize = 0;
        while i < self.cells.len()
            invariant
                i <= self.cells@.len(),
                n == flagged_prefix(self.cells@, i as int),
                n <= i,
            decreases self.cells@.len() - i,
        {
            if self.cells[i].is_flagged {
                n = n + 1;
            }
            i = i + 1;
        }
        n
    }

    /// The number of mined neighbours of `c`.
    pub fn mine_count_adjacent(&self, c: Coordinate) -> (r: Result<u8, GameError>)
        requires
            self.wf(),
        ensures
            r is Err <==> !self.contains(c),
            r is Err ==> r == Err::<u8, GameError>(GameError::OutOfBounds),
            r matches Ok(n) ==> n as nat == adjacent_mines(
                self.mines(),
                self.width as int,
                self.height as int,
                c.x as int,
                c.y as int,
            ),
    {
        if !self.in_bounds(c) {
            return Err(GameError::OutOfBounds);
        }
        let i = self.index(c);
        assert(self.count_exact(c.x as int, c.y as int));
        Ok(self.cells[i].adjacent_mine_count)
    }

    /// Flips the flag of a covered cell; a revealed cell is left as it is.
    pub fn toggle_flag(&mut self, c: Coordinate) -> (r: Result<Vec<CellChange>, GameError>)
        requires
            old(self).wf(),
        ensures
            final(self).wf(),
            r is Err <==> !old(self).contains(c),
            r is Err ==> r == Err::<Vec<CellChange>, GameError>(GameError::OutOfBounds),
            final(self).width == old(self).width,
            final(self).height == old(self).height,
            final(self).mines_placed == old(self).mines_placed,
            r is Err || !old(self).cells@[old(self).idx(c)].is_covered ==> final(self).cells@
                == old(self).cells@,
            r matches Ok(v) ==> (!old(self).cells@[old(self).idx(c)].is_covered ==> v@.len() == 0),
            r matches Ok(v) ==> (old(self).cells@[old(self).idx(c)].is_covered ==> {
                &&& final(self).cells@ == flag_toggled(old(self).cells@, old(self).idx(c))
                &&& v@ == seq![
                    CellChange { coord: c, view: final(self).cells@[old(self).idx(c)].view_of() },
                ]
            }),
    {
        if !self.in_bounds(c) {
            return Err(GameError::OutOfBounds);
        }
        let i = self.index(c);
        let mut changes: Vec<CellChange> = Vec::new();
        if !self.cells[i].is_covered {
            return Ok(changes);
        }
        let mut cell = self.cells[i];
        cell.is_flagged = !cell.is_flagged;
        self.cells.set(i, cell);
        proof {
            assert(self.mines() =~= old(self).mines());
            assert forall|x: int, y: int| in_grid(self.width as int, self.height as int, x, y) implies #[trigger] self.count_exact(x, y) by {
                assert(old(self).count_exact(x, y));
                lemma_index_in_grid(self.width as int, self.height as int, x, y);
            }
        }
        changes.push(CellChange { coord: c, view: cell.view() });
        Ok(changes)
    }
}

} // verus!
