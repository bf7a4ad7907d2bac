//! Uncovering cells, with the flood-fill cascade over zero-count cells.
use vstd::prelude::*;
use crate::board::{
    covered_prefix, in_grid, index_of, lemma_covered_prefix_uncover, lemma_grid_indices,
    lemma_index_in_grid, lemma_index_injective, lemma_index_split, Board,
};
use crate::cell::{Cell, CellChange, Coordinate, GameError};

verus! {

/// What a reveal did: whether it uncovered a mine, and every cell it
/// uncovered, in the order of uncovering.
pub struct RevealOutcome {
    pub hit_mine: bool,
    pub changes: Vec<CellChange>,
}

/// Two starting states that cover the same cells give the same newly
/// uncovered cells, and so accept the same change lists.
pub proof fn lemma_same_cover(b: Board, s1: Seq<Cell>, s2: Seq<Cell>, changes: Seq<CellChange>)
    requires
        b.wf(),
        s1.len() == b.cells@.len(),
        s2.len() == b.cells@.len(),
        forall|i: int| 0 <= i < s1.len() ==> (#[trigger] s1[i]).is_covered == s2[i].is_covered,
    ensures
        forall|x: int, y: int| #[trigger] b.newly_at(s1, x, y) == b.newly_at(s2, x, y),
        b.changes_match(s2, changes) ==> b.changes_match(s1, changes),
{
    lemma_grid_indices(b.width as int, b.height as int);
    assert forall|x: int, y: int| #[trigger] b.newly_at(s1, x, y) == b.newly_at(s2, x, y) by {
        if in_grid(b.width as int, b.height as int, x, y) {
            assert(s1[index_of(b.width as int, x, y)].is_covered == s2[index_of(b.width as int, x, y)].is_covered);
        }
    }
}

/// Uncovering a covered neighbour `(nx, ny)` of an uncovered zero-count cell
/// `q` keeps every uncovered cell next to the origin or an uncovered zero.
proof fn lemma_origin_kept(
    pre: Board,
    post: Board,
    start: Seq<Cell>,
    origin: Coordinate,
    q: Coordinate,
    nx: int,
    ny: int,
    opened: Cell,
)
    requires
        pre.wf(),
        post.width == pre.width,
        post.height == pre.height,
        start.len() == pre.cells@.len(),
        in_grid(pre.width as int, pre.height as int, nx, ny),
        post.cells@ == pre.cells@.update(index_of(pre.width as int, nx, ny), opened),
        pre.cell_at(nx, ny).is_covered,
        !opened.is_covered,
        opened.adjacent_mine_count == pre.cell_at(nx, ny).adjacent_mine_count,
        pre.opened_from_origin(start, origin),
        pre.zero_newly_at(start, q.x as int, q.y as int),
        nx - 1 <= q.x <= nx + 1,
        ny - 1 <= q.y <= ny + 1,
    ensures
        post.opened_from_origin(start, origin),
{
    let w = pre.width as int;
    let h = pre.height as int;
    lemma_grid_indices(w, h);
    lemma_index_injective(w, h);
    assert forall|x: int, y: int| #[trigger] pre.zero_newly_at(start, x, y) implies post.zero_newly_at(
        start,
        x,
        y,
    ) by {}
    assert(post.zero_newly_at(start, q.x as int, q.y as int));
    assert forall|x: int, y: int| #[trigger] post.newly_at(start, x, y) implies (x == origin.x
        && y == origin.y) || post.next_to_opened_zero(start, x, y) by {
        if x != nx || y != ny {
            assert(pre.newly_at(start, x, y));
        }
    }
}

/// With no mines anywhere every cell has count zero.
proof fn lemma_mine_free_counts(b: Board, x: int, y: int)
    requires
        b.wf(),
        forall|i: int| 0 <= i < b.cells@.len() ==> !(#[trigger] b.cells@[i]).is_mine,
        in_grid(b.width as int, b.height as int, x, y),
    ensures
        b.cell_at(x, y).adjacent_mine_count == 0,
{
    lemma_grid_indices(b.width as int, b.height as int);
    assert(b.count_exact(x, y));
    assert forall|j: int| 0 <= j < b.cells@.len() implies !#[trigger] b.mines()[j] by {}
}

/// An uncovered cell of a mine-free, flag-free board passes the opening on
/// to its neighbour `(x2, y2)`.
proof fn lemma_spread(b: Board, start: Seq<Cell>, x1: int, y1: int, x2: int, y2: int)
    requires
        b.wf(),
        start.len() == b.cells@.len(),
        forall|i: int| 0 <= i < start.len() ==> (#[trigger] start[i]).is_covered,
        forall|i: int|
            0 <= i < b.cells@.len() ==> !(#[trigger] b.cells@[i]).is_mine && !b.cells@[i].is_flagged,
        forall|x: int, y: int|
            #[trigger] b.newly_at(start, x, y) && b.cell_at(x, y).adjacent_mine_count == 0
                ==> b.neighbours_open(x, y),
        in_grid(b.width as int, b.height as int, x1, y1),
        in_grid(b.width as int, b.height as int, x2, y2),
        x1 - 1 <= x2 <= x1 + 1,
        y1 - 1 <= y2 <= y1 + 1,
        !b.cell_at(x1, y1).is_covered,
    ensures
        !b.cell_at(x2, y2).is_covered,
{
    lemma_grid_indices(b.width as int, b.height as int);
    lemma_mine_free_counts(b, x1, y1);
    assert(b.newly_at(start, x1, y1));
    if x2 != x1 || y2 != y1 {
        assert(b.neighbours_open(x1, y1));
    }
}

/// Cells of row `y` within `d` columns of an uncovered `(x0, y)` are uncovered.
proof fn lemma_spread_row(b: Board, start: Seq<Cell>, x0: int, y: int, x: int, d: int)
    requires
        b.wf(),
        start.len() == b.cells@.len(),
        forall|i: int| 0 <= i < start.len() ==> (#[trigger] start[i]).is_covered,
        forall|i: int|
            0 <= i < b.cells@.len() ==> !(#[trigger] b.cells@[i]).is_mine && !b.cells@[i].is_flagged,
        forall|x: int, y: int|
            #[trigger] b.newly_at(start, x, y) && b.cell_at(x, y).adjacent_mine_count == 0
                ==> b.neighbours_open(x, y),
        in_grid(b.width as int, b.height as int, x0, y),
        in_grid(b.width as int, b.height as int, x, y),
        !b.cell_at(x0, y).is_covered,
        d >= 0,
        x0 - d <= x <= x0 + d,
    ensures
        !b.cell_at(x, y).is_covered,
    decreases d,
{
    if x < x0 {
        lemma_spread_row(b, start, x0, y, x + 1, d - 1);
        lemma_spread(b, start, x + 1, y, x, y);
    } else if x > x0 {
        lemma_spread_row(b, start, x0, y, x - 1, d - 1);
        lemma_spread(b, start, x - 1, y, x, y);
    }
}

/// Cells of column `x` within `d` rows of row `y0` are uncovered, when row
/// `y0` is.
proof fn lemma_spread_column(b: Board, start: Seq<Cell>, c: Coordinate, x: int, y: int, d: int)
    requires
        b.wf(),
        start.len() == b.cells@.len(),
        forall|i: int| 0 <= i < start.len() ==> (#[trigger] start[i]).is_covered,
        forall|i: int|
            0 <= i < b.cells@.len() ==> !(#[trigger] b.cells@[i]).is_mine && !b.cells@[i].is_flagged,
        forall|x: int, y: int|
            #[trigger] b.newly_at(start, x, y) && b.cell_at(x, y).adjacent_mine_count == 0
                ==> b.neighbours_open(x, y),
        b.contains(c),
        !b.cell_at(c.x as int, c.y as int).is_covered,
        in_grid(b.width as int, b.height as int, x, y),
        d >= 0,
        c.y - d <= y <= c.y + d,
    ensures
        !b.cell_at(x, y).is_covered,
    decreases d,
{
    if y == c.y {
        lemma_spread_row(b, start, c.x as int, y, x, b.width as int);
    } else if y < c.y {
        lemma_spread_column(b, start, c, x, y + 1, d - 1);
        lemma_spread(b, start, x, y + 1, x, y);
    } else {
        lemma_spread_column(b, start, c, x, y - 1, d - 1);
        lemma_spread(b, start, x, y - 1, x, y);
    }
}

/// On a board with every cell covered and no mine or flag, an uncover at `c`
/// whose result meets the contract of `uncover` leaves no cell covered.
pub proof fn lemma_mine_free_uncover_opens_all(before: Board, after: Board, c: Coordinate)
    requires
        before.wf(),
        after.wf(),
        after.width == before.width,
        after.height == before.height,
        before.contains(c),
        forall|i: int|
            0 <= i < before.cells@.len() ==> {
                &&& !(#[trigger] before.cells@[i]).is_mine
                &&& before.cells@[i].is_covered
                &&& !before.cells@[i].is_flagged
            },
        after.opened_from(before.cells@),
        !after.cell_at(c.x as int, c.y as int).is_covered,
        forall|x: int, y: int|
            #[trigger] after.newly_at(before.cells@, x, y) && after.cell_at(x, y).adjacent_mine_count
                == 0 ==> after.neighbours_open(x, y),
    ensures
        forall|i: int| 0 <= i < after.cells@.len() ==> !(#[trigger] after.cells@[i]).is_covered,
{
    let w = after.width as int;
    let h = after.height as int;
    let start = before.cells@;
    assert forall|i: int| 0 <= i < after.cells@.len() implies !(#[trigger] after.cells@[i]).is_mine
        && !after.cells@[i].is_flagged by {}
    assert forall|i: int| 0 <= i < after.cells@.len() implies !(#[trigger] after.cells@[i]).is_covered by {
        lemma_index_split(w, h, i);
        lemma_spread_column(after, start, c, i % w, i / w, h);
    }
}

impl Board {
    pub open spec fn cell_at(self, x: int, y: int) -> Cell {
        self.cells@[index_of(self.width as int, x, y)]
    }

    /// `(x, y)` is off the grid, flagged or uncovered.
    pub open spec fn open_or_flagged(self, x: int, y: int) -> bool {
        in_grid(self.width as int, self.height as int, x, y) ==> (self.cell_at(x, y).is_flagged
            || !self.cell_at(x, y).is_covered)
    }

    /// Every neighbour of `(x, y)` is off the grid, flagged or uncovered.
    pub open spec fn neighbours_open(self, x: int, y: int) -> bool {
        &&& self.open_or_flagged(x - 1, y - 1)
        &&& self.open_or_flagged(x, y - 1)
        &&& self.open_or_flagged(x + 1, y - 1)
        &&& self.open_or_flagged(x - 1, y)
        &&& self.open_or_flagged(x + 1, y)
        &&& self.open_or_flagged(x - 1, y + 1)
        &&& self.open_or_flagged(x, y + 1)
        &&& self.open_or_flagged(x + 1, y + 1)
    }

    /// `(x, y)` was covered in `start` and is uncovered now.
    pub open spec fn newly_at(self, start: Seq<Cell>, x: int, y: int) -> bool {
        &&& in_grid(self.width as int, self.height as int, x, y)
        &&& start[index_of(self.width as int, x, y)].is_covered
        &&& !self.cell_at(x, y).is_covered
    }

    /// Cells differ from `start` at most by uncovering.
    pub open spec fn opened_from(self, start: Seq<Cell>) -> bool {
        &&& self.cells@.len() == start.len()
        &&& forall|i: int|
            0 <= i < start.len() ==> {
                &&& (#[trigger] self.cells@[i]).is_mine == start[i].is_mine
                &&& self.cells@[i].is_flagged == start[i].is_flagged
                &&& self.cells@[i].adjacent_mine_count == start[i].adjacent_mine_count
                &&& !start[i].is_covered ==> !self.cells@[i].is_covered
            }
    }

    /// `changes` lists each cell uncovered since `start` exactly once, with its view.
    pub open spec fn changes_match(self, start: Seq<Cell>, changes: Seq<CellChange>) -> bool {
        &&& forall|j: int|
            0 <= j < changes.len() ==> {
                &&& self.contains(#[trigger] changes[j].coord)
                &&& self.newly_at(start, changes[j].coord.x as int, changes[j].coord.y as int)
                &&& changes[j].view == self.cell_at(
                    changes[j].coord.x as int,
                    changes[j].coord.y as int,
                ).view_of()
            }
        &&& forall|x: int, y: int|
            #[trigger] self.newly_at(start, x, y) ==> exists|j: int|
                0 <= j < changes.len() && (#[trigger] changes[j]).coord.x == x && changes[j].coord.y
                    == y
        &&& forall|j1: int, j2: int|
            0 <= j1 < j2 < changes.len() ==> (#[trigger] changes[j1]).coord != (#[trigger] changes[j2]).coord
    }

    /// `(x, y)` has been uncovered since `start` and has no mined neighbour.
    pub open spec fn zero_newly_at(self, start: Seq<Cell>, x: int, y: int) -> bool {
        &&& self.newly_at(start, x, y)
        &&& self.cell_at(x, y).adjacent_mine_count == 0
    }

    /// Some neighbour of `(x, y)` is a zero-count cell uncovered since `start`.
    pub open spec fn next_to_opened_zero(self, start: Seq<Cell>, x: int, y: int) -> bool {
        ||| self.zero_newly_at(start, x - 1, y - 1)
        ||| self.zero_newly_at(start, x, y - 1)
        ||| self.zero_newly_at(start, x + 1, y - 1)
        ||| self.zero_newly_at(start, x - 1, y)
        ||| self.zero_newly_at(start, x + 1, y)
        ||| self.zero_newly_at(start, x - 1, y + 1)
        ||| self.zero_newly_at(start, x, y + 1)
        ||| self.zero_newly_at(start, x + 1, y + 1)
    }

    /// Every cell uncovered since `start` is `origin` or next to an uncovered
    /// zero-count cell.
    pub open spec fn opened_from_origin(self, start: Seq<Cell>, origin: Coordinate) -> bool {
        forall|x: int, y: int|
            #[trigger] self.newly_at(start, x, y) ==> (x == origin.x && y == origin.y)
                || self.next_to_opened_zero(start, x, y)
    }

    /// State of the cascade: `queue` holds every uncovered zero-count cell.
    pub open spec fn cascade_inv(
        self,
        start: Seq<Cell>,
        queue: Seq<Coordinate>,
        changes: Seq<CellChange>,
    ) -> bool {
        &&& self.wf()
        &&& self.opened_from(start)
        &&& forall|i: int|
            0 <= i < start.len() && start[i].is_covered && !(#[trigger] self.cells@[i]).is_covered
                ==> !self.cells@[i].is_mine
        &&& self.changes_match(start, changes)
        &&& forall|j: int|
            0 <= j < queue.len() ==> {
                &&& self.contains(#[trigger] queue[j])
                &&& self.newly_at(start, queue[j].x as int, queue[j].y as int)
                &&& self.cell_at(queue[j].x as int, queue[j].y as int).adjacent_mine_count == 0
            }
        &&& forall|x: int, y: int|
            #[trigger] self.newly_at(start, x, y) && self.cell_at(x, y).adjacent_mine_count == 0
                ==> exists|j: int|
                0 <= j < queue.len() && (#[trigger] queue[j]).x == x && queue[j].y == y
    }

    /// Uncovers the neighbour `(q.x + dx - 1, q.y + dy - 1)` of the zero-count
    /// cell `q` unless it is off the grid, flagged or uncovered already.
    #[verifier::rlimit(100)]
    fn open_neighbour(
        &mut self,
        q: Coordinate,
        dx: usize,
        dy: usize,
        queue: &mut Vec<Coordinate>,
        changes: &mut Vec<CellChange>,
        start: Ghost<Seq<Cell>>,
        origin: Ghost<Coordinate>,
    )
        requires
            old(self).cascade_inv(start@, old(queue)@, old(changes)@),
            old(self).opened_from_origin(start@, origin@),
            old(self).newly_at(start@, q.x as int, q.y as int),
            old(self).contains(q),
            old(self).cell_at(q.x as int, q.y as int).adjacent_mine_count == 0,
            !old(self).cell_at(q.x as int, q.y as int).is_covered,
            dx <= 2,
            dy <= 2,
        ensures
            final(self).cascade_inv(start@, final(queue)@, final(changes)@),
            final(self).opened_from_origin(start@, origin@),
            final(self).width == old(self).width,
            final(self).height == old(self).height,
            final(self).mines_placed == old(self).mines_placed,
            final(self).open_or_flagged(q.x + dx - 1, q.y + dy - 1),
            forall|x: int, y: int|
                old(self).open_or_flagged(x, y) ==> #[trigger] final(self).open_or_flagged(x, y),
            final(queue)@.len() >= old(queue)@.len(),
            forall|j: int| 0 <= j < old(queue)@.len() ==> final(queue)@[j] == old(queue)@[j],
            forall|i: int|
                0 <= i < old(self).cells@.len() ==> {
                    &&& !old(self).cells@[i].is_covered ==> !(#[trigger] final(self).cells@[i]).is_covered
                    &&& final(self).cells@[i].is_flagged == old(self).cells@[i].is_flagged
                    &&& final(self).cells@[i].adjacent_mine_count == old(self).cells@[i].adjacent_mine_count
                },
            2 * covered_prefix(final(self).cells@, final(self).cells@.len() as int)
                + final(queue)@.len() <= 2 * covered_prefix(
                old(self).cells@,
                old(self).cells@.len() as int,
            ) + old(queue)@.len(),
    {
        let w = self.width;
        let h = self.height;
        proof {
            lemma_grid_indices(w as int, h as int);
        }
        if (dx == 0 && q.x == 0) || (dy == 0 && q.y == 0) {
            return;
        }
        let nx = if dx == 0 {
            q.x - 1
        } else if dx == 1 {
            q.x
        } else {
            q.x + 1
        };
        let ny = if dy == 0 {
            q.y - 1
        } else if dy == 1 {
            q.y
        } else {
            q.y + 1
        };
        if nx >= w || ny >= h {
            return;
        }
        let nc = Coordinate { x: nx, y: ny };
        let k = self.index(nc);
        let cell = self.cells[k];
        if !cell.is_covered || cell.is_flagged {
            return;
        }
        let ghost pre = *self;
        let ghost pre_queue = queue@;
        let ghost pre_changes = changes@;
        proof {
            assert(self.count_exact(q.x as int, q.y as int));
            lemma_grid_indices(w as int, h as int);
            assert(self.mines()[k as int] == cell.is_mine);
            assert(!cell.is_mine);
        }
        let mut opened = cell;
        opened.is_covered = false;
        self.cells.set(k, opened);
        changes.push(CellChange { coord: nc, view: opened.view() });
        if opened.adjacent_mine_count == 0 {
            queue.push(nc);
        }
        proof {
            let wi = w as int;
            let hi = h as int;
            lemma_index_injective(wi, hi);
            lemma_covered_prefix_uncover(pre.cells@, k as int, opened, pre.cells@.len() as int);
            lemma_origin_kept(pre, *self, start@, origin@, q, nx as int, ny as int, opened);
            assert(self.mines() =~= pre.mines());
            assert forall|x: int, y: int| in_grid(wi, hi, x, y) implies #[trigger] self.count_exact(x, y) by {
                assert(pre.count_exact(x, y));
            }
            assert forall|x: int, y: int| #[trigger] self.newly_at(start@, x, y)
                implies exists|j: int| 0 <= j < changes@.len() && (#[trigger] changes@[j]).coord.x == x && changes@[j].coord.y == y by {
                if x == nx && y == ny {
                    assert(changes@[changes@.len() - 1].coord == nc);
                } else {
                    assert(pre.newly_at(start@, x, y));
                    let j = choose|j: int| 0 <= j < pre_changes.len() && (#[trigger] pre_changes[j]).coord.x == x && pre_changes[j].coord.y == y;
                    assert(changes@[j] == pre_changes[j]);
                }
            }
            assert forall|x: int, y: int| #[trigger] self.newly_at(start@, x, y) && self.cell_at(x, y).adjacent_mine_count == 0
                implies exists|j: int| 0 <= j < queue@.len() && (#[trigger] queue@[j]).x == x && queue@[j].y == y by {
                if x == nx && y == ny {
                    assert(queue@[queue@.len() - 1] == nc);
                } else {
                    assert(pre.newly_at(start@, x, y));
                    let j = choose|j: int| 0 <= j < pre_queue.len() && (#[trigger] pre_queue[j]).x == x && pre_queue[j].y == y;
                    assert(queue@[j] == pre_queue[j]);
                }
            }
            assert forall|j1: int, j2: int| 0 <= j1 < j2 < changes@.len() implies (#[trigger] changes@[j1]).coord != (#[trigger] changes@[j2]).coord by {
                if j2 == changes@.len() - 1 {
                    assert(pre.contains(pre_changes[j1].coord));
                }
            }
        }
    }
    /// Uncovers every covered, unflagged neighbour of the zero-count cell `q`.
    fn open_neighbours(
        &mut self,
        q: Coordinate,
        queue: &mut Vec<Coordinate>,
        changes: &mut Vec<CellChange>,
        start: Ghost<Seq<Cell>>,
        origin: Ghost<Coordinate>,
    )
        requires
            old(self).cascade_inv(start@, old(queue)@, old(changes)@),
            old(self).opened_from_origin(start@, origin@),
            old(self).newly_at(start@, q.x as int, q.y as int),
            old(self).contains(q),
            old(self).cell_at(q.x as int, q.y as int).adjacent_mine_count == 0,
            !old(self).cell_at(q.x as int, q.y as int).is_covered,
        ensures
            final(self).cascade_inv(start@, final(queue)@, final(changes)@),
            final(self).opened_from_origin(start@, origin@),
            final(self).width == old(self).width,
            final(self).height == old(self).height,
            final(self).mines_placed == old(self).mines_placed,
            final(self).neighbours_open(q.x as int, q.y as int),
            final(queue)@.len() >= old(queue)@.len(),
            forall|j: int| 0 <= j < old(queue)@.len() ==> final(queue)@[j] == old(queue)@[j],
            forall|i: int|
                0 <= i < old(self).cells@.len() ==> {
                    &&& !old(self).cells@[i].is_covered ==> !(#[trigger] final(self).cells@[i]).is_covered
                    &&& final(self).cells@[i].is_flagged == old(self).cells@[i].is_flagged
                    &&& final(self).cells@[i].adjacent_mine_count == old(self).cells@[i].adjacent_mine_count
                },
            2 * covered_prefix(final(self).cells@, final(self).cells@.len() as int)
                + final(queue)@.len() <= 2 * covered_prefix(
                old(self).cells@,
                old(self).cells@.len() as int,
            ) + old(queue)@.len(),
    {
        proof {
            lemma_index_in_grid(self.width as int, self.height as int, q.x as int, q.y as int);
        }
        self.open_neighbour(q, 0, 0, queue, changes, start, origin);
        self.open_neighbour(q, 1, 0, queue, changes, start, origin);
        self.open_neighbour(q, 2, 0, queue, changes, start, origin);
        self.open_neighbour(q, 0, 1, queue, changes, start, origin);
        self.open_neighbour(q, 2, 1, queue, changes, start, origin);
        self.open_neighbour(q, 0, 2, queue, changes, start, origin);
        self.open_neighbour(q, 1, 2, queue, changes, start, origin);
        self.open_neighbour(q, 2, 2, queue, changes, start, origin);
    }

    /// Uncovers `c`; when it holds no mine and no mined neighbour, the
    /// cascade uncovers every covered, unflagged neighbour of each uncovered
    /// zero-count cell in turn. Flagged and uncovered cells are left alone.
    pub fn uncover(&mut self, c: Coordinate) -> (r: Result<RevealOutcome, GameError>)
        requires
            old(self).wf(),
        ensures
            final(self).wf(),
            final(self).width == old(self).width,
            final(self).height == old(self).height,
            final(self).mines_placed == old(self).mines_placed,
            r is Err <==> !old(self).contains(c),
            r matches Err(e) ==> e == GameError::OutOfBounds && *final(self) == *old(self),
            r matches Ok(o) ==> {
                &&& final(self).opened_from(old(self).cells@)
                &&& final(self).changes_match(old(self).cells@, o.changes@)
                &&& (!old(self).cell_at(c.x as int, c.y as int).is_covered || old(self).cell_at(
                    c.x as int,
                    c.y as int,
                ).is_flagged) ==> final(self).cells@ == old(self).cells@ && o.changes@.len() == 0
                    && !o.hit_mine
            },
            r matches Ok(o) ==> (old(self).cell_at(c.x as int, c.y as int).is_covered && !old(
                self,
            ).cell_at(c.x as int, c.y as int).is_flagged) ==> {
                &&& !final(self).cell_at(c.x as int, c.y as int).is_covered
                &&& o.hit_mine == old(self).cell_at(c.x as int, c.y as int).is_mine
                &&& o.hit_mine ==> final(self).cells@ == old(self).cells@.update(
                    old(self).idx(c),
                    Cell { is_covered: false, ..old(self).cell_at(c.x as int, c.y as int) },
                )
                &&& !o.hit_mine ==> forall|i: int|
                    0 <= i < old(self).cells@.len() && old(self).cells@[i].is_covered && !(
                    #[trigger] final(self).cells@[i]).is_covered ==> !final(self).cells@[i].is_mine
                &&& !o.hit_mine ==> forall|x: int, y: int|
                    #[trigger] final(self).newly_at(old(self).cells@, x, y) && final(self).cell_at(
                        x,
                        y,
                    ).adjacent_mine_count == 0 ==> final(self).neighbours_open(x, y)
                &&& final(self).opened_from_origin(old(self).cells@, c)
            },
    {
        if !self.in_bounds(c) {
            return Err(GameError::OutOfBounds);
        }
        let k = self.index(c);
        let cell = self.cells[k];
        let mut changes: Vec<CellChange> = Vec::new();
        let ghost start = self.cells@;
        let ghost wi = self.width as int;
        let ghost hi = self.height as int;
        proof {
            lemma_grid_indices(wi, hi);
            lemma_index_injective(wi, hi);
        }
        if !cell.is_covered || cell.is_flagged {
            return Ok(RevealOutcome { hit_mine: false, changes });
        }
        let mut opened = cell;
        opened.is_covered = false;
        self.cells.set(k, opened);
        changes.push(CellChange { coord: c, view: opened.view() });
        let ghost pre = *old(self);
        proof {
            assert(self.mines() =~= pre.mines());
            assert forall|x: int, y: int| in_grid(wi, hi, x, y) implies #[trigger] self.count_exact(x, y) by {
                assert(pre.count_exact(x, y));
            }
            assert forall|x: int, y: int| #[trigger] self.newly_at(start, x, y)
                implies exists|j: int| 0 <= j < changes@.len() && (#[trigger] changes@[j]).coord.x == x && changes@[j].coord.y == y by {
                assert(changes@[0].coord == c);
            }
        }
        if opened.is_mine {
            return Ok(RevealOutcome { hit_mine: true, changes });
        }
        let mut queue: Vec<Coordinate> = Vec::new();
        if opened.adjacent_mine_count == 0 {
            queue.push(c);
        }
        proof {
            assert forall|x: int, y: int| #[trigger] self.newly_at(start, x, y) && self.cell_at(x, y).adjacent_mine_count == 0
                implies exists|j: int| 0 <= j < queue@.len() && (#[trigger] queue@[j]).x == x && queue@[j].y == y by {
                assert(queue@[0] == c);
            }
        }
        let mut head: usize = 0;
        while head < queue.len()
            invariant
                self.cascade_inv(start, queue@, changes@),
                self.opened_from_origin(start, c),
                self.width == old(self).width,
                self.height == old(self).height,
                self.mines_placed == old(self).mines_placed,
                head <= queue@.len(),
                c.x < self.width,
                c.y < self.height,
                wi == self.width,
                hi == self.height,
                forall|j: int| 0 <= j < head ==> self.neighbours_open(#[trigger] queue@[j].x as int, queue@[j].y as int),
                !self.cell_at(c.x as int, c.y as int).is_covered,
            decreases 2 * covered_prefix(self.cells@, self.cells@.len() as int) + queue@.len() - head,
        {
            let q = queue[head];
            let ghost before = *self;
            let ghost before_queue = queue@;
            self.open_neighbours(q, &mut queue, &mut changes, Ghost(start), Ghost(c));
            proof {
                lemma_grid_indices(wi, hi);
                lemma_index_in_grid(wi, hi, c.x as int, c.y as int);
                assert(self.cells@[self.idx(c)] == self.cell_at(c.x as int, c.y as int));
                assert(before.cells@[self.idx(c)] == before.cell_at(c.x as int, c.y as int));
                assert forall|j: int| 0 <= j < head + 1 implies self.neighbours_open(#[trigger] queue@[j].x as int, queue@[j].y as int) by {
                    assert(queue@[j] == before_queue[j]);
                    if j < head {
                        assert(before.neighbours_open(before_queue[j].x as int, before_queue[j].y as int));
                    }
                }
            }
            head = head + 1;
        }
        proof {
            assert forall|x: int, y: int|
                #[trigger] self.newly_at(start, x, y) && self.cell_at(x, y).adjacent_mine_count == 0 implies self.neighbours_open(x, y) by {
                let j = choose|j: int| 0 <= j < queue@.len() && (#[trigger] queue@[j]).x == x && queue@[j].y == y;
                assert(self.neighbours_open(queue@[j].x as int, queue@[j].y as int));
            }
        }
        Ok(RevealOutcome { hit_mine: false, changes })
    }
}

} // verus!
