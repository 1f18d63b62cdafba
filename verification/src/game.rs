//! The grid engine: the single source of truth for spatial game state.
//!
//! It owns a dense occupancy grid (one player id per cell, 0 = empty) and
//! the live snakes, seats joining players at deterministic spawn rows, and
//! advances every snake one discrete step per tick, resolving wall, self and
//! player collisions.
//!
//! Within one tick the snakes are evaluated in insertion order and the grid
//! is brought up to date after each snake: the outcome of a simultaneous
//! head-on swap therefore depends on the order the snakes joined in. This
//! order dependence is an accepted tolerance of the protocol's design, and
//! both peers share it, so their worlds agree. Dead snakes are collected
//! during the pass and removed only after it, so a removal never perturbs
//! the evaluation of a later snake in the same tick.

use vstd::prelude::*;
use vstd::pervasive::VecAdditionalExecFns;
use crate::shared::Coord;
use crate::shared::Direction;
use crate::shared::SnekId;
use crate::shared::UpdateResult;
use crate::shared::MAX_PLAYERS;
use crate::snek::Snek;
use crate::snek::SnekView;
use crate::snek::spec_set_direction;

verus! {

/// How many cells long a snake is at its spawn (head included).
pub const STARTING_LENGTH: i32 = 10;

/// A coordinate pair widened to unbounded integers.
pub open spec fn ci(c: Coord) -> (int, int) {
    (c.0 as int, c.1 as int)
}

/// The grid engine's state: grid dimensions, the dense occupancy grid, and
/// the live snakes in insertion order.
pub struct Game {
    pub grid_x_count: i32,
    pub grid_y_count: i32,
    internal_grid: Vec<SnekId>,
    pub sneks: Vec<Snek>,
    my_snek_id: SnekId,
    started: bool,
}

/// Mathematical model of a `Game`.
pub struct GameView {
    pub grid_x_count: i32,
    pub grid_y_count: i32,
    pub grid: Seq<SnekId>,
    pub sneks: Seq<SnekView>,
    pub my_snek_id: SnekId,
    pub started: bool,
}

impl View for Game {
    type V = GameView;

    closed spec fn view(&self) -> GameView {
        GameView {
            grid_x_count: self.grid_x_count,
            grid_y_count: self.grid_y_count,
            grid: self.internal_grid@,
            sneks: self.sneks@.map_values(|s: Snek| s@),
            my_snek_id: self.my_snek_id,
            started: self.started,
        }
    }
}

/// First index whose snake carries `id`, or -1 when none does.
pub open spec fn find_index(sneks: Seq<SnekView>, id: SnekId) -> int
    decreases sneks.len(),
{
    if sneks.len() == 0 {
        -1
    } else if sneks[0].id == id {
        0
    } else {
        let r = find_index(sneks.drop_first(), id);
        if r == -1 {
            -1
        } else {
            r + 1
        }
    }
}

/// `find_index` finds the first match: -1 exactly when no snake carries the
/// id, and otherwise the least index that does.
pub proof fn lemma_find_index(sneks: Seq<SnekView>, id: SnekId)
    ensures
        find_index(sneks, id) == -1 ==> forall|k: int|
            0 <= k < sneks.len() ==> sneks[k].id != id,
        find_index(sneks, id) != -1 ==> {
            &&& 0 <= find_index(sneks, id) < sneks.len()
            &&& sneks[find_index(sneks, id)].id == id
            &&& forall|k: int| 0 <= k < find_index(sneks, id) ==> sneks[k].id != id
        },
    decreases sneks.len(),
{
    if sneks.len() == 0 {
    } else if sneks[0].id == id {
    } else {
        lemma_find_index(sneks.drop_first(), id);
        assert(forall|k: int|
            1 <= k < sneks.len() ==> sneks[k] == sneks.drop_first()[k - 1]);
    }
}

impl GameView {
    /// A coordinate lies on the grid.
    pub open spec fn in_bounds(self, c: (int, int)) -> bool {
        0 <= c.0 < self.grid_x_count && 0 <= c.1 < self.grid_y_count
    }

    /// The 1-D grid index of a coordinate.
    pub open spec fn idx(self, c: (int, int)) -> int {
        c.0 + c.1 * self.grid_x_count
    }

    /// The occupant id recorded at a coordinate.
    pub open spec fn cell(self, c: (int, int)) -> SnekId {
        self.grid[self.idx(c)]
    }

    /// The grid is wide enough to seat every spawn row without overlap and
    /// its cell count fits the index arithmetic.
    pub open spec fn dims_ok(self) -> bool {
        &&& 2 * STARTING_LENGTH <= self.grid_x_count
        &&& 2 <= self.grid_y_count
        &&& self.grid_x_count * self.grid_y_count <= i32::MAX
    }

    /// The dense grid holds exactly one id per cell.
    pub open spec fn grid_len_ok(self) -> bool {
        self.grid.len() == self.grid_x_count * self.grid_y_count
    }

    /// One snake is internally sound: a real id, at least one body cell,
    /// and every occupied cell on the grid.
    pub open spec fn snek_ok(self, k: int) -> bool {
        let s = self.sneks[k];
        &&& s.id != 0
        &&& 1 <= s.body.len()
        &&& forall|i: int|
            0 <= i < s.cells().len() ==> self.in_bounds(ci(#[trigger] s.cells()[i]))
    }

    /// No two live snakes share an id.
    pub open spec fn ids_distinct(self) -> bool {
        forall|k1: int, k2: int|
            0 <= k1 < k2 < self.sneks.len() ==> #[trigger] self.sneks[k1].id != #[trigger] self.sneks[k2].id
    }

    /// No cell is occupied twice, neither by two snakes nor twice by one.
    pub open spec fn cells_distinct(self) -> bool {
        forall|k1: int, i1: int, k2: int, i2: int|
            0 <= k1 < self.sneks.len() && 0 <= i1 < self.sneks[k1].cells().len() && 0 <= k2
                < self.sneks.len() && 0 <= i2 < self.sneks[k2].cells().len() && (k1 != k2 || i1
                != i2) ==> #[trigger] self.sneks[k1].cells()[i1] != #[trigger] self.sneks[k2].cells()[i2]
    }

    /// Every cell a snake occupies is recorded with that snake's id.
    pub open spec fn grid_marked(self) -> bool {
        forall|k: int, i: int|
            0 <= k < self.sneks.len() && 0 <= i < self.sneks[k].cells().len() ==> self.grid[self.idx(
                ci(#[trigger] self.sneks[k].cells()[i]),
            )] == self.sneks[k].id
    }

    /// Every nonzero grid record is some snake's occupied cell.
    pub open spec fn grid_clean(self) -> bool {
        forall|j: int|
            0 <= j < self.grid.len() && #[trigger] self.grid[j] != 0 ==> exists|k: int, i: int|
                0 <= k < self.sneks.len() && 0 <= i < self.sneks[k].cells().len() && self.idx(
                    ci(#[trigger] self.sneks[k].cells()[i]),
                ) == j
    }

    /// The engine's invariant: sound dimensions and snakes, unique ids, no
    /// overlapping cells, and a grid that mirrors the snakes exactly.
    pub open spec fn wf(self) -> bool {
        &&& self.dims_ok()
        &&& self.grid_len_ok()
        &&& forall|k: int| 0 <= k < self.sneks.len() ==> self.snek_ok(k)
        &&& self.ids_distinct()
        &&& self.cells_distinct()
        &&& self.grid_marked()
        &&& self.grid_clean()
    }

    /// Some live snake carries `id`.
    pub open spec fn has_id(self, id: SnekId) -> bool {
        exists|k: int| 0 <= k < self.sneks.len() && #[trigger] self.sneks[k].id == id
    }

    /// The live snakes' ids in insertion order.
    pub open spec fn ids(self) -> Seq<SnekId> {
        Seq::new(self.sneks.len(), |k: int| self.sneks[k].id)
    }

    /// In-bounds coordinates have in-range 1-D indices.
    pub proof fn lemma_idx_in_range(self, c: (int, int))
        requires
            self.dims_ok(),
            self.grid_len_ok(),
            self.in_bounds(c),
        ensures
            0 <= self.idx(c) < self.grid.len(),
    {
        let w = self.grid_x_count as int;
        let h = self.grid_y_count as int;
        assert(c.0 + c.1 * w < w * h) by (nonlinear_arith)
            requires
                0 <= c.0 < w,
                0 <= c.1 < h,
        ;
        assert(0 <= c.0 + c.1 * w) by (nonlinear_arith)
            requires
                0 <= c.0,
                0 <= c.1,
                0 < w,
        ;
    }

    /// Two in-bounds coordinates with the same 1-D index are the same cell.
    pub proof fn lemma_idx_injective(self, c1: (int, int), c2: (int, int))
        requires
            self.dims_ok(),
            self.in_bounds(c1),
            self.in_bounds(c2),
            self.idx(c1) == self.idx(c2),
        ensures
            c1 == c2,
    {
        let w = self.grid_x_count as int;
        assert(c1.1 == c2.1) by (nonlinear_arith)
            requires
                0 <= c1.0 < w,
                0 <= c2.0 < w,
                c1.0 + c1.1 * w == c2.0 + c2.1 * w,
        ;
    }
}

/// The x coordinate of the `i`-th cell (head first) of the spawn layout of
/// join order `id` on a grid `w` cells wide.
pub open spec fn spec_spawn_x(id: SnekId, w: int, i: int) -> int {
    if id == 1 || id == 2 {
        STARTING_LENGTH - 1 - i
    } else {
        w - STARTING_LENGTH + i
    }
}

/// The row every cell of the spawn layout of join order `id` lies on.
pub open spec fn spec_spawn_row(id: SnekId, h: int) -> int {
    if id == 1 || id == 3 {
        0
    } else {
        h - 1
    }
}

/// The head cell of the spawn layout of join order `id`.
pub open spec fn spec_spawn_head(id: SnekId, w: int, h: int) -> (int, int) {
    (spec_spawn_x(id, w, 0), spec_spawn_row(id, h))
}

/// The trailing body cells of the spawn layout, head-adjacent first.
pub open spec fn spec_spawn_body(id: SnekId, w: int, h: int) -> Seq<Coord> {
    Seq::new(
        (STARTING_LENGTH - 1) as nat,
        |i: int|
            (
                spec_spawn_x(id, w, i + 1) as i32,
                spec_spawn_row(id, h) as i32,
            ),
    )
}

/// The direction the spawn layout of join order `id` travels: the two left
/// layouts head east, the two right ones west.
pub open spec fn spec_spawn_dir(id: SnekId) -> Direction {
    if id == 1 || id == 2 {
        Direction::East
    } else {
        Direction::West
    }
}

/// The whole snake the spawn layout of join order `id` seats.
pub open spec fn spec_spawn_snek(id: SnekId, w: int, h: int) -> SnekView {
    SnekView {
        id: id,
        head: (spec_spawn_head(id, w, h).0 as i32, spec_spawn_head(id, w, h).1 as i32),
        body: spec_spawn_body(id, w, h),
        previous_direction: Direction::Invalid,
        direction: spec_spawn_dir(id),
    }
}

/// Every cell the spawn layout of join order `id` occupies.
pub open spec fn spec_spawn_cells(id: SnekId, w: int, h: int) -> Seq<Coord> {
    spec_spawn_snek(id, w, h).cells()
}

/// Shape of a spawn layout: ten cells on one row, with the uniform
/// x-coordinate formula, all in bounds.
pub proof fn lemma_spawn_cells_shape(id: SnekId, w: int, h: int)
    requires
        1 <= id <= 4,
        2 * STARTING_LENGTH <= w <= i32::MAX,
        2 <= h <= i32::MAX,
    ensures
        spec_spawn_cells(id, w, h).len() == STARTING_LENGTH,
        forall|i: int|
            0 <= i < STARTING_LENGTH ==> ci(#[trigger] spec_spawn_cells(id, w, h)[i]) == (
            spec_spawn_x(id, w, i),
            spec_spawn_row(id, h),
            ),
        forall|i: int|
            0 <= i < STARTING_LENGTH ==> 0 <= #[trigger] spec_spawn_x(id, w, i) < w,
        0 <= spec_spawn_row(id, h) < h,
{
    let cells = spec_spawn_cells(id, w, h);
    assert(cells.len() == STARTING_LENGTH);
    assert forall|i: int| 0 <= i < STARTING_LENGTH implies ci(#[trigger] cells[i]) == (
        spec_spawn_x(id, w, i),
        spec_spawn_row(id, h),
    ) by {
        if i == 0 {
            assert(cells[0] == spec_spawn_snek(id, w, h).head);
        } else {
            assert(cells[i] == spec_spawn_body(id, w, h)[i - 1]);
        }
    }
}

/// No cell ever has two occupants in a well-formed state: two distinct
/// cell slots, of one snake or of two, always hold distinct cells. A
/// fresh engine is well-formed and seating, steering and ticking all
/// preserve it, so this holds after any sequence of seatings up to
/// capacity, and after every tick.
pub proof fn lemma_no_overlap(g: GameView, k1: int, i1: int, k2: int, i2: int)
    requires
        g.wf(),
        0 <= k1 < g.sneks.len(),
        0 <= i1 < g.sneks[k1].cells().len(),
        0 <= k2 < g.sneks.len(),
        0 <= i2 < g.sneks[k2].cells().len(),
        k1 != k2 || i1 != i2,
    ensures
        g.sneks[k1].cells()[i1] != g.sneks[k2].cells()[i2],
{
}

/// The spawn layouts of two distinct join orders never overlap on a grid
/// that meets the dimension floor.
pub proof fn lemma_spawn_layouts_disjoint(id1: SnekId, id2: SnekId, w: int, h: int)
    requires
        1 <= id1 <= 4,
        1 <= id2 <= 4,
        id1 != id2,
        2 * STARTING_LENGTH <= w <= i32::MAX,
        2 <= h <= i32::MAX,
    ensures
        forall|i1: int, i2: int|
            0 <= i1 < STARTING_LENGTH && 0 <= i2 < STARTING_LENGTH
                ==> #[trigger] spec_spawn_cells(id1, w, h)[i1] != #[trigger] spec_spawn_cells(
                id2,
                w,
                h,
            )[i2],
{
    lemma_spawn_cells_shape(id1, w, h);
    lemma_spawn_cells_shape(id2, w, h);
    assert forall|i1: int, i2: int|
        0 <= i1 < STARTING_LENGTH && 0 <= i2 < STARTING_LENGTH implies #[trigger] spec_spawn_cells(
        id1,
        w,
        h,
    )[i1] != #[trigger] spec_spawn_cells(id2, w, h)[i2] by {
        let c1 = ci(spec_spawn_cells(id1, w, h)[i1]);
        let c2 = ci(spec_spawn_cells(id2, w, h)[i2]);
        assert(c1 == (spec_spawn_x(id1, w, i1), spec_spawn_row(id1, h)));
        assert(c2 == (spec_spawn_x(id2, w, i2), spec_spawn_row(id2, h)));
        assert(c1 != c2);
    }
}

impl GameView {
    /// Every cell of the spawn layout of `id` is currently empty.
    pub open spec fn spawn_free(self, id: SnekId) -> bool {
        forall|i: int|
            0 <= i < spec_spawn_cells(id, self.grid_x_count as int, self.grid_y_count as int).len()
                ==> self.cell(
                ci(
                    #[trigger] spec_spawn_cells(
                        id,
                        self.grid_x_count as int,
                        self.grid_y_count as int,
                    )[i],
                ),
            ) == 0
    }

    /// The grid with every listed cell overwritten by `id`.
    pub open spec fn mark_cells(self, cells: Seq<Coord>, id: SnekId) -> Seq<SnekId> {
        Seq::new(
            self.grid.len(),
            |j: int|
                if exists|i: int|
                    0 <= i < cells.len() && self.idx(ci(#[trigger] cells[i])) == j {
                    id
                } else {
                    self.grid[j]
                },
        )
    }

    /// The state after seating the spawn layout of `id`: its cells marked
    /// and its snake appended to the collection.
    pub open spec fn spawned(self, id: SnekId) -> GameView {
        GameView {
            grid: self.mark_cells(
                spec_spawn_cells(id, self.grid_x_count as int, self.grid_y_count as int),
                id,
            ),
            sneks: self.sneks.push(
                spec_spawn_snek(id, self.grid_x_count as int, self.grid_y_count as int),
            ),
            ..self
        }
    }
}

impl GameView {
    /// What a snake's next step would meet on this grid: out of bounds is a
    /// wall, a cell of its own (its tail included) counts as a wall too,
    /// and another snake's cell is a player collision naming the occupant.
    pub open spec fn classify(self, s: SnekView) -> UpdateResult {
        let c = s.new_head();
        if !self.in_bounds(c) {
            UpdateResult::WallCollision
        } else if self.cell(c) == 0 {
            UpdateResult::Nothing
        } else if self.cell(c) == s.id {
            UpdateResult::WallCollision
        } else {
            UpdateResult::PlayerCollision(self.cell(c))
        }
    }

    /// Snake `k` takes its turn within a tick: when its step is free the
    /// grid gains its new head cell, gives up its tail cell, and the snake
    /// advances; on a collision nothing moves.
    pub open spec fn step_snek(self, k: int) -> GameView {
        let s = self.sneks[k];
        if self.classify(s) == UpdateResult::Nothing {
            GameView {
                grid: self.grid.update(self.idx(s.new_head()), s.id).update(
                    self.idx(ci(s.body.last())),
                    0,
                ),
                sneks: self.sneks.update(k, s.advanced()),
                ..self
            }
        } else {
            self
        }
    }

    /// The state after the first `n` snakes' turns, in insertion order.
    pub open spec fn run_steps(self, n: int) -> GameView
        decreases n,
    {
        if n <= 0 {
            self
        } else {
            self.run_steps(n - 1).step_snek(n - 1)
        }
    }

    /// What snake `k`'s turn finds when it comes, all earlier turns taken.
    pub open spec fn outcome(self, k: int) -> UpdateResult {
        let g = self.run_steps(k);
        g.classify(g.sneks[k])
    }

    /// The ids whose turn among the first `n` found a collision, in
    /// insertion order.
    pub open spec fn dead_ids(self, n: int) -> Seq<SnekId>
        decreases n,
    {
        if n <= 0 {
            Seq::empty()
        } else if self.outcome(n - 1) == UpdateResult::Nothing {
            self.dead_ids(n - 1)
        } else {
            self.dead_ids(n - 1).push(self.sneks[n - 1].id)
        }
    }

    /// The grid with every listed cell cleared.
    pub open spec fn clear_cells(self, cells: Seq<Coord>) -> Seq<SnekId> {
        Seq::new(
            self.grid.len(),
            |j: int|
                if exists|i: int|
                    0 <= i < cells.len() && self.idx(ci(#[trigger] cells[i])) == j {
                    0
                } else {
                    self.grid[j]
                },
        )
    }

    /// Remove the first snake carrying `id`: every cell it occupies is
    /// cleared and it leaves the collection. Nothing changes when no live
    /// snake carries `id`.
    pub open spec fn remove_id(self, id: SnekId) -> GameView {
        let k = find_index(self.sneks, id);
        if k == -1 {
            self
        } else {
            GameView {
                grid: self.clear_cells(self.sneks[k].cells()),
                sneks: self.sneks.remove(k),
                ..self
            }
        }
    }

    /// Remove every listed id, front to back.
    pub open spec fn run_removals(self, ids: Seq<SnekId>) -> GameView
        decreases ids.len(),
    {
        if ids.len() == 0 {
            self
        } else {
            self.run_removals(ids.drop_last()).remove_id(ids.last())
        }
    }

    /// One whole tick: every snake's turn in insertion order, then the
    /// batch removal of every snake whose turn found a collision.
    pub open spec fn ticked(self) -> GameView {
        self.run_steps(self.sneks.len() as int).run_removals(
            self.dead_ids(self.sneks.len() as int),
        )
    }

    /// Each snake's id paired with what its turn found, in insertion
    /// order.
    pub open spec fn tick_outcomes(self) -> Seq<(SnekId, UpdateResult)> {
        Seq::new(self.sneks.len(), |k: int| (self.sneks[k].id, self.outcome(k)))
    }
}

impl GameView {
    /// The state after a direction request for `id`: the reversal rule
    /// applied to that snake's direction. An unknown id changes nothing.
    pub open spec fn moved(self, id: SnekId, direction: Direction) -> GameView {
        let k = find_index(self.sneks, id);
        if k == -1 {
            self
        } else {
            GameView {
                sneks: self.sneks.update(
                    k,
                    SnekView {
                        direction: spec_set_direction(self.sneks[k].direction, direction),
                        ..self.sneks[k]
                    },
                ),
                ..self
            }
        }
    }

    /// The state with one snake's previous-committed direction replaced.
    pub open spec fn with_previous_direction(self, id: SnekId, direction: Direction) -> GameView {
        let k = find_index(self.sneks, id);
        if k == -1 {
            self
        } else {
            GameView {
                sneks: self.sneks.update(
                    k,
                    SnekView { previous_direction: direction, ..self.sneks[k] },
                ),
                ..self
            }
        }
    }
}

/// A change that touches only directions never disturbs the invariant.
pub proof fn lemma_wf_direction_only(g: GameView, g2: GameView)
    requires
        g.wf(),
        g2.grid == g.grid,
        g2.grid_x_count == g.grid_x_count,
        g2.grid_y_count == g.grid_y_count,
        g2.sneks.len() == g.sneks.len(),
        forall|k: int|
            0 <= k < g.sneks.len() ==> #[trigger] g2.sneks[k].id == g.sneks[k].id
                && g2.sneks[k].head == g.sneks[k].head && g2.sneks[k].body == g.sneks[k].body,
    ensures
        g2.wf(),
{
    assert forall|k: int| 0 <= k < g2.sneks.len() implies #[trigger] g2.sneks[k].cells()
        == g.sneks[k].cells() by {
        assert(g2.sneks[k].id == g.sneks[k].id);
        assert(g2.sneks[k].head == g.sneks[k].head);
        assert(g2.sneks[k].body == g.sneks[k].body);
        assert(g2.sneks[k].cells() =~= g.sneks[k].cells());
    }
    assert forall|k: int| 0 <= k < g2.sneks.len() implies g2.snek_ok(k) by {
        assert(g.snek_ok(k));
    }
    assert forall|j: int| 0 <= j < g2.grid.len() && #[trigger] g2.grid[j] != 0 implies exists|
        k2: int,
        i2: int,
    |
        0 <= k2 < g2.sneks.len() && 0 <= i2 < g2.sneks[k2].cells().len() && g2.idx(
            ci(#[trigger] g2.sneks[k2].cells()[i2]),
        ) == j by {
        let (k0, i0) = choose|k0: int, i0: int|
            0 <= k0 < g.sneks.len() && 0 <= i0 < g.sneks[k0].cells().len() && g.idx(
                ci(#[trigger] g.sneks[k0].cells()[i0]),
            ) == j;
        assert(0 <= k0 < g2.sneks.len() && 0 <= i0 < g2.sneks[k0].cells().len() && g2.idx(
            ci(g2.sneks[k0].cells()[i0]),
        ) == j);
    }
}

/// One snake's turn preserves the engine's invariant, leaves every other
/// snake as it was, and keeps every id in place.
pub proof fn lemma_step_preserves_wf(g: GameView, k: int)
    requires
        g.wf(),
        0 <= k < g.sneks.len(),
    ensures
        g.step_snek(k).wf(),
        g.step_snek(k).sneks.len() == g.sneks.len(),
        forall|j: int|
            0 <= j < g.sneks.len() && j != k ==> g.step_snek(k).sneks[j] == g.sneks[j],
        forall|j: int|
            0 <= j < g.sneks.len() ==> g.step_snek(k).sneks[j].id == g.sneks[j].id,
        g.step_snek(k).grid_x_count == g.grid_x_count,
        g.step_snek(k).grid_y_count == g.grid_y_count,
        g.step_snek(k).my_snek_id == g.my_snek_id,
        g.step_snek(k).started == g.started,
{
    let s = g.sneks[k];
    let g2 = g.step_snek(k);
    assert(g.snek_ok(k));
    if g.classify(s) == UpdateResult::Nothing {
        let c = s.new_head();
        let s2 = s.advanced();
        let t = s.body.last();
        let n = s.cells().len() as int;
        assert(g.in_bounds(c));
        assert(g.cell(c) == 0);

        // The advanced snake's cells: the new head in front, then every old
        // cell but the tail.
        assert(s.cells()[n - 1] == t);
        assert(s2.cells().len() == n);
        assert(ci(s2.cells()[0]) == c);
        assert forall|i: int| 1 <= i < n implies #[trigger] s2.cells()[i] == s.cells()[i - 1] by {
            if i == 1 {
                assert(s2.cells()[1] == s2.body[0]);
                assert(s2.body[0] == s.head);
            } else {
                assert(s2.cells()[i] == s2.body[i - 1]);
                assert(s2.body[i - 1] == s.body.drop_last()[i - 2]);
                assert(s.body.drop_last()[i - 2] == s.body[i - 2]);
                assert(s.cells()[i - 1] == s.body[i - 2]);
            }
        }

        // The stepped-onto cell is nobody's.
        assert forall|j: int, i: int|
            0 <= j < g.sneks.len() && 0 <= i < g.sneks[j].cells().len() implies ci(
            #[trigger] g.sneks[j].cells()[i],
        ) != c by {
            if ci(g.sneks[j].cells()[i]) == c {
                assert(g.grid[g.idx(ci(g.sneks[j].cells()[i]))] == g.sneks[j].id);
                assert(g.snek_ok(j));
            }
        }

        // The tail index differs from the new head index.
        assert(g.grid[g.idx(ci(t))] == s.id);
        assert(g.idx(ci(t)) != g.idx(c));
        g.lemma_idx_in_range(c);
        g.lemma_idx_in_range(ci(t));

        // snek_ok everywhere.
        assert forall|j: int| 0 <= j < g2.sneks.len() implies g2.snek_ok(j) by {
            if j == k {
                assert forall|i: int| 0 <= i < s2.cells().len() implies g2.in_bounds(
                    ci(#[trigger] s2.cells()[i]),
                ) by {
                    if i == 0 {
                        assert(ci(s2.cells()[0]) == c);
                    } else {
                        assert(s2.cells()[i] == s.cells()[i - 1]);
                    }
                }
            } else {
                assert(g.snek_ok(j));
            }
        }

        // cells stay distinct.
        assert forall|k1: int, i1: int, k2: int, i2: int|
            0 <= k1 < g2.sneks.len() && 0 <= i1 < g2.sneks[k1].cells().len() && 0 <= k2
                < g2.sneks.len() && 0 <= i2 < g2.sneks[k2].cells().len() && (k1 != k2 || i1
                != i2) implies #[trigger] g2.sneks[k1].cells()[i1]
            != #[trigger] g2.sneks[k2].cells()[i2] by {
            let c1 = g2.sneks[k1].cells()[i1];
            let c2 = g2.sneks[k2].cells()[i2];
            if k1 == k && i1 == 0 {
                if !(k2 == k && i2 == 0) {
                    let o2 = if k2 == k {
                        s.cells()[i2 - 1]
                    } else {
                        g.sneks[k2].cells()[i2]
                    };
                    assert(c2 == o2);
                    assert(ci(o2) != c);
                    assert(ci(c1) == c);
                }
            } else if k2 == k && i2 == 0 {
                let o1 = if k1 == k {
                    s.cells()[i1 - 1]
                } else {
                    g.sneks[k1].cells()[i1]
                };
                assert(c1 == o1);
                assert(ci(o1) != c);
                assert(ci(c2) == c);
            } else {
                let o1 = if k1 == k {
                    s.cells()[i1 - 1]
                } else {
                    g.sneks[k1].cells()[i1]
                };
                let o2 = if k2 == k {
                    s.cells()[i2 - 1]
                } else {
                    g.sneks[k2].cells()[i2]
                };
                assert(c1 == o1 && c2 == o2);
                assert(o1 != o2);
            }
        }

        // The grid stays marked.
        assert forall|j: int, i: int|
            0 <= j < g2.sneks.len() && 0 <= i < g2.sneks[j].cells().len() implies g2.grid[g2.idx(
            ci(#[trigger] g2.sneks[j].cells()[i]),
        )] == g2.sneks[j].id by {
            if j == k && i == 0 {
                assert(ci(s2.cells()[0]) == c);
                assert(g2.grid[g.idx(c)] == s.id);
            } else {
                let o = if j == k {
                    s.cells()[i - 1]
                } else {
                    g.sneks[j].cells()[i]
                };
                assert(g2.sneks[j].cells()[i] == o);
                let oj = g.idx(ci(o));
                assert(g.snek_ok(j));
                g.lemma_idx_in_range(ci(o));
                assert(g.grid[oj] == g.sneks[j].id);
                if oj == g.idx(c) {
                    g.lemma_idx_injective(ci(o), c);
                    assert(false);
                }
                if oj == g.idx(ci(t)) {
                    g.lemma_idx_injective(ci(o), ci(t));
                    assert(o == t);
                    if j == k {
                        assert(s.cells()[i - 1] == s.cells()[n - 1]);
                        assert(i - 1 == n - 1);
                        assert(i < s2.cells().len());
                        assert(false);
                    } else {
                        assert(g.sneks[j].cells()[i] == g.sneks[k].cells()[n - 1]);
                        assert(false);
                    }
                }
                assert(g2.grid[oj] == g.grid[oj]);
            }
        }

        // The grid stays clean.
        assert forall|j: int| 0 <= j < g2.grid.len() && #[trigger] g2.grid[j] != 0 implies exists|
            k2: int,
            i2: int,
        |
            0 <= k2 < g2.sneks.len() && 0 <= i2 < g2.sneks[k2].cells().len() && g2.idx(
                ci(#[trigger] g2.sneks[k2].cells()[i2]),
            ) == j by {
            assert(j != g.idx(ci(t)));
            if j == g.idx(c) {
                assert(ci(g2.sneks[k].cells()[0]) == c);
                assert(0 <= k < g2.sneks.len() && 0 <= 0 < g2.sneks[k].cells().len() && g2.idx(
                    ci(g2.sneks[k].cells()[0]),
                ) == j);
            } else {
                assert(g2.grid[j] == g.grid[j]);
                let (k0, i0) = choose|k0: int, i0: int|
                    0 <= k0 < g.sneks.len() && 0 <= i0 < g.sneks[k0].cells().len() && g.idx(
                        ci(#[trigger] g.sneks[k0].cells()[i0]),
                    ) == j;
                if k0 == k {
                    if i0 == n - 1 {
                        assert(g.sneks[k].cells()[i0] == t);
                        assert(false);
                    } else {
                        assert(g2.sneks[k].cells()[i0 + 1] == s.cells()[i0]);
                        assert(0 <= k < g2.sneks.len() && 0 <= i0 + 1
                            < g2.sneks[k].cells().len() && g2.idx(
                            ci(g2.sneks[k].cells()[i0 + 1]),
                        ) == j);
                    }
                } else {
                    assert(g2.sneks[k0].cells()[i0] == g.sneks[k0].cells()[i0]);
                    assert(0 <= k0 < g2.sneks.len() && 0 <= i0 < g2.sneks[k0].cells().len()
                        && g2.idx(ci(g2.sneks[k0].cells()[i0])) == j);
                }
            }
        }
    }
}

/// The first `n` turns of a tick preserve the invariant; a snake whose
/// turn has not yet come is untouched, and ids never move.
pub proof fn lemma_run_steps(g: GameView, n: int)
    requires
        g.wf(),
        0 <= n <= g.sneks.len(),
    ensures
        g.run_steps(n).wf(),
        g.run_steps(n).sneks.len() == g.sneks.len(),
        forall|j: int| n <= j < g.sneks.len() ==> g.run_steps(n).sneks[j] == g.sneks[j],
        forall|j: int|
            0 <= j < g.sneks.len() ==> g.run_steps(n).sneks[j].id == g.sneks[j].id,
        g.run_steps(n).grid_x_count == g.grid_x_count,
        g.run_steps(n).grid_y_count == g.grid_y_count,
        g.run_steps(n).my_snek_id == g.my_snek_id,
        g.run_steps(n).started == g.started,
    decreases n,
{
    if n > 0 {
        lemma_run_steps(g, n - 1);
        lemma_step_preserves_wf(g.run_steps(n - 1), n - 1);
    }
}

/// Removing one id preserves the invariant; afterwards no live snake
/// carries it.
pub proof fn lemma_remove_preserves_wf(g: GameView, id: SnekId)
    requires
        g.wf(),
    ensures
        g.remove_id(id).wf(),
        !g.remove_id(id).has_id(id),
        g.remove_id(id).sneks.len() <= g.sneks.len(),
        g.remove_id(id).grid_x_count == g.grid_x_count,
        g.remove_id(id).grid_y_count == g.grid_y_count,
        g.remove_id(id).my_snek_id == g.my_snek_id,
        g.remove_id(id).started == g.started,
{
    lemma_find_index(g.sneks, id);
    let k = find_index(g.sneks, id);
    if k == -1 {
        assert(!g.has_id(id));
    } else {
        let g2 = g.remove_id(id);
        let dead = g.sneks[k];
        assert(g.snek_ok(k));
        assert(g2.sneks.len() == g.sneks.len() - 1);
        assert(forall|j: int| 0 <= j < k ==> g2.sneks[j] == g.sneks[j]);
        assert(forall|j: int|
            k <= j < g2.sneks.len() ==> g2.sneks[j] == g.sneks[j + 1]);

        // Map each surviving index back to its old index.
        let old_of = |j: int| if j < k { j } else { j + 1 };

        // No survivor carries the removed id.
        assert forall|j: int| 0 <= j < g2.sneks.len() implies #[trigger] g2.sneks[j].id != id by {
            let oj = old_of(j);
            assert(g2.sneks[j] == g.sneks[oj]);
            assert(g.ids_distinct());
            if g.sneks[oj].id == id {
                if oj < k {
                    assert(g.sneks[oj].id != g.sneks[k].id);
                } else {
                    assert(g.sneks[k].id != g.sneks[oj].id);
                }
            }
        }
        assert(!g2.has_id(id));

        // snek_ok, distinct ids and distinct cells carry over.
        assert forall|j: int| 0 <= j < g2.sneks.len() implies g2.snek_ok(j) by {
            assert(g2.sneks[j] == g.sneks[old_of(j)]);
            assert(g.snek_ok(old_of(j)));
        }
        assert forall|k1: int, k2: int|
            0 <= k1 < k2 < g2.sneks.len() implies #[trigger] g2.sneks[k1].id
            != #[trigger] g2.sneks[k2].id by {
            assert(g2.sneks[k1] == g.sneks[old_of(k1)]);
            assert(g2.sneks[k2] == g.sneks[old_of(k2)]);
        }
        assert forall|k1: int, i1: int, k2: int, i2: int|
            0 <= k1 < g2.sneks.len() && 0 <= i1 < g2.sneks[k1].cells().len() && 0 <= k2
                < g2.sneks.len() && 0 <= i2 < g2.sneks[k2].cells().len() && (k1 != k2 || i1
                != i2) implies #[trigger] g2.sneks[k1].cells()[i1]
            != #[trigger] g2.sneks[k2].cells()[i2] by {
            assert(g2.sneks[k1] == g.sneks[old_of(k1)]);
            assert(g2.sneks[k2] == g.sneks[old_of(k2)]);
            assert(g.sneks[old_of(k1)].cells()[i1] != g.sneks[old_of(k2)].cells()[i2]);
        }

        // The grid stays marked: no survivor's cell is cleared.
        assert forall|j: int, i: int|
            0 <= j < g2.sneks.len() && 0 <= i < g2.sneks[j].cells().len() implies g2.grid[g2.idx(
            ci(#[trigger] g2.sneks[j].cells()[i]),
        )] == g2.sneks[j].id by {
            let oj = old_of(j);
            assert(g2.sneks[j] == g.sneks[oj]);
            let c = g.sneks[oj].cells()[i];
            assert(g.snek_ok(oj));
            g.lemma_idx_in_range(ci(c));
            assert(g.grid[g.idx(ci(c))] == g.sneks[oj].id);
            assert forall|i2: int| 0 <= i2 < dead.cells().len() implies g.idx(
                ci(#[trigger] dead.cells()[i2]),
            ) != g.idx(ci(c)) by {
                if g.idx(ci(dead.cells()[i2])) == g.idx(ci(c)) {
                    g.lemma_idx_injective(ci(dead.cells()[i2]), ci(c));
                    assert(dead.cells()[i2] == c);
                    assert(g.sneks[k].cells()[i2] == g.sneks[oj].cells()[i]);
                    assert(false);
                }
            }
        }

        // The grid stays clean.
        assert forall|j: int| 0 <= j < g2.grid.len() && #[trigger] g2.grid[j] != 0 implies exists|
            k2: int,
            i2: int,
        |
            0 <= k2 < g2.sneks.len() && 0 <= i2 < g2.sneks[k2].cells().len() && g2.idx(
                ci(#[trigger] g2.sneks[k2].cells()[i2]),
            ) == j by {
            assert(g2.grid[j] == g.grid[j]);
            let (k0, i0) = choose|k0: int, i0: int|
                0 <= k0 < g.sneks.len() && 0 <= i0 < g.sneks[k0].cells().len() && g.idx(
                    ci(#[trigger] g.sneks[k0].cells()[i0]),
                ) == j;
            if k0 == k {
                assert(exists|i2: int|
                    0 <= i2 < dead.cells().len() && g.idx(ci(#[trigger] dead.cells()[i2]))
                        == j);
                assert(false);
            } else {
                let nj = if k0 < k {
                    k0
                } else {
                    k0 - 1
                };
                assert(g2.sneks[nj] == g.sneks[k0]);
                assert(0 <= nj < g2.sneks.len() && 0 <= i0 < g2.sneks[nj].cells().len()
                    && g2.idx(ci(g2.sneks[nj].cells()[i0])) == j);
            }
        }
    }
}

/// A whole removal batch preserves the invariant.
pub proof fn lemma_run_removals_wf(g: GameView, ids: Seq<SnekId>)
    requires
        g.wf(),
    ensures
        g.run_removals(ids).wf(),
        g.run_removals(ids).grid_x_count == g.grid_x_count,
        g.run_removals(ids).grid_y_count == g.grid_y_count,
        g.run_removals(ids).my_snek_id == g.my_snek_id,
        g.run_removals(ids).started == g.started,
    decreases ids.len(),
{
    if ids.len() > 0 {
        lemma_run_removals_wf(g, ids.drop_last());
        lemma_remove_preserves_wf(g.run_removals(ids.drop_last()), ids.last());
    }
}

/// A whole tick preserves the engine's invariant and touches nothing but
/// the grid and the snakes.
pub proof fn lemma_ticked_wf(g: GameView)
    requires
        g.wf(),
    ensures
        g.ticked().wf(),
        g.ticked().grid_x_count == g.grid_x_count,
        g.ticked().grid_y_count == g.grid_y_count,
        g.ticked().my_snek_id == g.my_snek_id,
        g.ticked().started == g.started,
{
    lemma_run_steps(g, g.sneks.len() as int);
    lemma_run_removals_wf(g.run_steps(g.sneks.len() as int), g.dead_ids(g.sneks.len() as int));
}

/// How one snake stands after the first `n` turns of a tick: advanced once
/// when its own turn found the way free, untouched otherwise.
pub proof fn lemma_snek_after_steps(g: GameView, k: int, n: int)
    requires
        g.wf(),
        0 <= k < n <= g.sneks.len(),
    ensures
        g.run_steps(n).sneks[k] == (if g.outcome(k) == UpdateResult::Nothing {
            g.sneks[k].advanced()
        } else {
            g.sneks[k]
        }),
    decreases n,
{
    if n == k + 1 {
        lemma_run_steps(g, k);
        lemma_step_preserves_wf(g.run_steps(k), k);
        assert(g.run_steps(k).sneks[k] == g.sneks[k]);
    } else {
        lemma_snek_after_steps(g, k, n - 1);
        lemma_run_steps(g, n - 1);
        lemma_step_preserves_wf(g.run_steps(n - 1), n - 1);
    }
}

/// A snake whose turn found a collision is on the removal list.
pub proof fn lemma_dead_ids_contains(g: GameView, k: int, n: int)
    requires
        0 <= k < n,
        g.outcome(k) != UpdateResult::Nothing,
    ensures
        g.dead_ids(n).contains(g.sneks[k].id),
    decreases n,
{
    if n == k + 1 {
        assert(g.dead_ids(n).last() == g.sneks[k].id);
    } else {
        lemma_dead_ids_contains(g, k, n - 1);
        let i = choose|i: int|
            0 <= i < g.dead_ids(n - 1).len() && #[trigger] g.dead_ids(n - 1)[i] == g.sneks[k].id;
        assert(g.dead_ids(n)[i] == g.sneks[k].id);
    }
}

/// Only a snake whose turn found a collision is on the removal list.
pub proof fn lemma_dead_ids_only(g: GameView, n: int, x: SnekId)
    requires
        g.dead_ids(n).contains(x),
    ensures
        exists|k: int|
            0 <= k < n && #[trigger] g.sneks[k].id == x && g.outcome(k)
                != UpdateResult::Nothing,
    decreases n,
{
    if n > 0 {
        if g.outcome(n - 1) != UpdateResult::Nothing && g.sneks[n - 1].id == x {
        } else {
            let i = choose|i: int| 0 <= i < g.dead_ids(n).len() && g.dead_ids(n)[i] == x;
            if g.outcome(n - 1) == UpdateResult::Nothing {
                lemma_dead_ids_only(g, n - 1, x);
            } else {
                assert(g.dead_ids(n) == g.dead_ids(n - 1).push(g.sneks[n - 1].id));
                assert(i < g.dead_ids(n - 1).len());
                assert(g.dead_ids(n - 1)[i] == x);
                lemma_dead_ids_only(g, n - 1, x);
            }
        }
    }
}

/// A removal never resurrects a gone id and never re-marks a cleared cell.
proof fn lemma_remove_monotone(g: GameView, y: SnekId, x: SnekId, cs: Seq<Coord>)
    requires
        g.wf(),
        !g.has_id(x),
        forall|i: int| 0 <= i < cs.len() ==> 0 <= g.idx(ci(#[trigger] cs[i])) < g.grid.len(),
        forall|i: int| 0 <= i < cs.len() ==> g.cell(ci(#[trigger] cs[i])) == 0,
    ensures
        !g.remove_id(y).has_id(x),
        forall|i: int|
            0 <= i < cs.len() ==> g.remove_id(y).cell(ci(#[trigger] cs[i])) == 0,
        g.remove_id(y).grid.len() == g.grid.len(),
{
    lemma_find_index(g.sneks, y);
    let k = find_index(g.sneks, y);
    if k != -1 {
        let g2 = g.remove_id(y);
        assert forall|j: int| 0 <= j < g2.sneks.len() implies #[trigger] g2.sneks[j].id != x by {
            let oj = if j < k {
                j
            } else {
                j + 1
            };
            assert(g2.sneks[j] == g.sneks[oj]);
            assert(g.sneks[oj].id != x);
        }
        assert forall|i: int| 0 <= i < cs.len() implies g2.cell(ci(#[trigger] cs[i])) == 0 by {
            let j = g.idx(ci(cs[i]));
            assert(g2.grid[j] == 0 || g2.grid[j] == g.grid[j]);
        }
    }
}

/// A removal of one id leaves every other live snake exactly in place.
proof fn lemma_remove_keeps_snek(g: GameView, y: SnekId, x: SnekId)
    requires
        g.wf(),
        g.has_id(x),
        x != y,
    ensures
        g.remove_id(y).has_id(x),
        g.remove_id(y).sneks[find_index(g.remove_id(y).sneks, x)] == g.sneks[find_index(
            g.sneks,
            x,
        )],
{
    lemma_find_index(g.sneks, x);
    let kx = find_index(g.sneks, x);
    assert(kx != -1) by {
        if kx == -1 {
            let w = choose|w: int| 0 <= w < g.sneks.len() && #[trigger] g.sneks[w].id == x;
            assert(g.sneks[w].id != x);
        }
    }
    lemma_find_index(g.sneks, y);
    let ky = find_index(g.sneks, y);
    if ky == -1 {
    } else {
        let g2 = g.remove_id(y);
        assert(g.sneks[ky].id == y);
        assert(kx != ky);
        let nx = if kx < ky {
            kx
        } else {
            kx - 1
        };
        assert(g2.sneks[nx] == g.sneks[kx]);
        assert(g2.sneks[nx].id == x);
        assert(g2.has_id(x));
        lemma_find_index(g2.sneks, x);
        let f = find_index(g2.sneks, x);
        assert(f != -1) by {
            if f == -1 {
                assert(g2.sneks[nx].id != x);
            }
        }
        // Ids are unique, so the first match is the only match.
        if f != nx {
            let of = if f < ky {
                f
            } else {
                f + 1
            };
            assert(g2.sneks[f] == g.sneks[of]);
            assert(g.sneks[of].id == x);
            assert(g.ids_distinct());
            if of < kx {
                assert(g.sneks[of].id != x);
            } else if of > kx {
                assert(g.sneks[kx].id != g.sneks[of].id);
            }
            assert(false);
        }
    }
}

/// A whole removal batch keeps a gone id gone and cleared cells cleared.
proof fn lemma_removals_monotone(g: GameView, ids: Seq<SnekId>, x: SnekId, cs: Seq<Coord>)
    requires
        g.wf(),
        !g.has_id(x),
        forall|i: int| 0 <= i < cs.len() ==> 0 <= g.idx(ci(#[trigger] cs[i])) < g.grid.len(),
        forall|i: int| 0 <= i < cs.len() ==> g.cell(ci(#[trigger] cs[i])) == 0,
    ensures
        !g.run_removals(ids).has_id(x),
        forall|i: int|
            0 <= i < cs.len() ==> g.run_removals(ids).cell(ci(#[trigger] cs[i])) == 0,
        g.run_removals(ids).grid.len() == g.grid.len(),
    decreases ids.len(),
{
    if ids.len() > 0 {
        lemma_removals_monotone(g, ids.drop_last(), x, cs);
        lemma_run_removals_wf(g, ids.drop_last());
        lemma_remove_monotone(g.run_removals(ids.drop_last()), ids.last(), x, cs);
    }
}

/// A removal batch that never names an id leaves that snake exactly in
/// place.
proof fn lemma_removals_keep_snek(g: GameView, ids: Seq<SnekId>, x: SnekId)
    requires
        g.wf(),
        g.has_id(x),
        !ids.contains(x),
    ensures
        g.run_removals(ids).has_id(x),
        g.run_removals(ids).sneks[find_index(g.run_removals(ids).sneks, x)] == g.sneks[find_index(
            g.sneks,
            x,
        )],
    decreases ids.len(),
{
    if ids.len() > 0 {
        assert(!ids.drop_last().contains(x)) by {
            if ids.drop_last().contains(x) {
                let i = choose|i: int|
                    0 <= i < ids.drop_last().len() && ids.drop_last()[i] == x;
                assert(ids[i] == x);
            }
        }
        assert(ids.last() != x) by {
            if ids.last() == x {
                assert(ids[ids.len() - 1] == x);
            }
        }
        lemma_removals_keep_snek(g, ids.drop_last(), x);
        lemma_run_removals_wf(g, ids.drop_last());
        lemma_remove_keeps_snek(g.run_removals(ids.drop_last()), ids.last(), x);
    }
}

/// A removal batch that names an id removes that snake and clears every
/// cell it occupied at the start of the batch.
proof fn lemma_removals_clear(g: GameView, ids: Seq<SnekId>, x: SnekId)
    requires
        g.wf(),
        ids.contains(x),
        g.has_id(x),
    ensures
        !g.run_removals(ids).has_id(x),
        forall|i: int|
            0 <= i < g.sneks[find_index(g.sneks, x)].cells().len()
                ==> g.run_removals(ids).cell(
                ci(#[trigger] g.sneks[find_index(g.sneks, x)].cells()[i]),
            ) == 0,
    decreases ids.len(),
{
    lemma_find_index(g.sneks, x);
    let kx = find_index(g.sneks, x);
    assert(kx != -1) by {
        if kx == -1 {
            let w = choose|w: int| 0 <= w < g.sneks.len() && #[trigger] g.sneks[w].id == x;
            assert(g.sneks[w].id != x);
        }
    }
    let s = g.sneks[kx];
    assert(g.snek_ok(kx));
    assert forall|i: int| 0 <= i < s.cells().len() implies 0 <= g.idx(
        ci(#[trigger] s.cells()[i]),
    ) < g.grid.len() by {
        g.lemma_idx_in_range(ci(s.cells()[i]));
    }
    let front = ids.drop_last();
    let y = ids.last();
    if front.contains(x) {
        lemma_removals_clear(g, front, x);
        lemma_run_removals_wf(g, front);
        let g1 = g.run_removals(front);
        assert forall|i: int| 0 <= i < s.cells().len() implies 0 <= g1.idx(
            ci(#[trigger] s.cells()[i]),
        ) < g1.grid.len() by {
            g1.lemma_idx_in_range(ci(s.cells()[i]));
        }
        lemma_remove_monotone(g1, y, x, s.cells());
    } else {
        assert(y == x) by {
            let i = choose|i: int| 0 <= i < ids.len() && ids[i] == x;
            if i < ids.len() - 1 {
                assert(front[i] == x);
            }
        }
        lemma_removals_keep_snek(g, front, x);
        lemma_run_removals_wf(g, front);
        let g1 = g.run_removals(front);
        lemma_find_index(g1.sneks, x);
        let k1 = find_index(g1.sneks, x);
        assert(k1 != -1) by {
            if k1 == -1 {
                let w = choose|w: int|
                    0 <= w < g1.sneks.len() && #[trigger] g1.sneks[w].id == x;
                assert(g1.sneks[w].id != x);
            }
        }
        assert(g1.sneks[k1] == s);
        let g2 = g1.remove_id(x);
        lemma_remove_preserves_wf(g1, x);
        assert(g.run_removals(ids) == g2);
        assert forall|i: int| 0 <= i < s.cells().len() implies g2.cell(
            ci(#[trigger] s.cells()[i]),
        ) == 0 by {
            g1.lemma_idx_in_range(ci(s.cells()[i]));
            let j = g1.idx(ci(s.cells()[i]));
            assert(exists|i2: int|
                0 <= i2 < g1.sneks[k1].cells().len() && g1.idx(
                    ci(#[trigger] g1.sneks[k1].cells()[i2]),
                ) == j);
        }
    }
}

/// A snake whose candidate head lies off the grid is marked wall-collision
/// by its tick turn, is no longer live once the tick completes, and every
/// cell it occupied is empty afterwards.
pub proof fn lemma_wall_collision_removed(g: GameView, k: int)
    requires
        g.wf(),
        0 <= k < g.sneks.len(),
        !g.in_bounds(g.sneks[k].new_head()),
    ensures
        g.outcome(k) == UpdateResult::WallCollision,
        g.tick_outcomes()[k] == (g.sneks[k].id, UpdateResult::WallCollision),
        !g.ticked().has_id(g.sneks[k].id),
        forall|i: int|
            0 <= i < g.sneks[k].cells().len() ==> g.ticked().cell(
                ci(#[trigger] g.sneks[k].cells()[i]),
            ) == 0,
{
    let n = g.sneks.len() as int;
    let x = g.sneks[k].id;
    lemma_run_steps(g, k);
    assert(g.run_steps(k).sneks[k] == g.sneks[k]);
    assert(g.outcome(k) == UpdateResult::WallCollision);
    lemma_tick_collision_removed(g, k);
}

/// Any snake whose turn found a collision is removed by its tick, its
/// occupied cells cleared.
pub proof fn lemma_tick_collision_removed(g: GameView, k: int)
    requires
        g.wf(),
        0 <= k < g.sneks.len(),
        g.outcome(k) != UpdateResult::Nothing,
    ensures
        !g.ticked().has_id(g.sneks[k].id),
        forall|i: int|
            0 <= i < g.sneks[k].cells().len() ==> g.ticked().cell(
                ci(#[trigger] g.sneks[k].cells()[i]),
            ) == 0,
{
    let n = g.sneks.len() as int;
    let x = g.sneks[k].id;
    let stepped = g.run_steps(n);
    let dead = g.dead_ids(n);
    lemma_run_steps(g, n);
    lemma_snek_after_steps(g, k, n);
    assert(stepped.sneks[k] == g.sneks[k]);
    assert(stepped.has_id(x));
    lemma_dead_ids_contains(g, k, n);
    // The first snake carrying this id in the stepped state is this very
    // snake: ids are unique.
    lemma_find_index(stepped.sneks, x);
    let f = find_index(stepped.sneks, x);
    assert(f != -1) by {
        if f == -1 {
            assert(stepped.sneks[k].id != x);
        }
    }
    assert(f == k) by {
        if f != k {
            assert(stepped.sneks[f].id == x);
            assert(stepped.ids_distinct());
            if f < k {
                assert(stepped.sneks[f].id != stepped.sneks[k].id);
            } else {
                assert(stepped.sneks[k].id != stepped.sneks[f].id);
            }
        }
    }
    lemma_removals_clear(stepped, dead, x);
    assert forall|i: int| 0 <= i < g.sneks[k].cells().len() implies g.ticked().cell(
        ci(#[trigger] g.sneks[k].cells()[i]),
    ) == 0 by {
        assert(stepped.sneks[f].cells()[i] == g.sneks[k].cells()[i]);
        assert(g.ticked().cell(ci(stepped.sneks[f].cells()[i])) == 0);
    }
}

/// If snake `a`'s candidate head lies on a cell snake `b` still occupies
/// when `a`'s turn comes (`b`'s turn being later in the same tick), then
/// `a` is marked player-collision naming `b`, `a` is removed by the tick,
/// and `a`'s collision does not touch `b`: if `b`'s own turn finds the way
/// free, `b` survives the tick, advanced exactly once.
pub proof fn lemma_player_collision(g: GameView, a: int, b: int)
    requires
        g.wf(),
        0 <= a < b < g.sneks.len(),
        g.in_bounds(g.sneks[a].new_head()),
        exists|i: int|
            0 <= i < g.sneks[b].cells().len() && ci(#[trigger] g.sneks[b].cells()[i])
                == g.sneks[a].new_head(),
    ensures
        g.outcome(a) == UpdateResult::PlayerCollision(g.sneks[b].id),
        !g.ticked().has_id(g.sneks[a].id),
        g.outcome(b) == UpdateResult::Nothing ==> g.ticked().has_id(g.sneks[b].id),
{
    let n = g.sneks.len() as int;
    let ga = g.run_steps(a);
    lemma_run_steps(g, a);
    assert(ga.sneks[a] == g.sneks[a]);
    assert(ga.sneks[b] == g.sneks[b]);
    let c = g.sneks[a].new_head();
    let i = choose|i: int|
        0 <= i < g.sneks[b].cells().len() && ci(#[trigger] g.sneks[b].cells()[i]) == c;
    // In `a`'s turn state, `b`'s cell is still marked with `b`'s id.
    assert(ga.grid[ga.idx(ci(ga.sneks[b].cells()[i]))] == ga.sneks[b].id);
    assert(ga.in_bounds(c));
    assert(ga.cell(c) == g.sneks[b].id);
    assert(g.sneks[b].id != 0) by {
        assert(ga.snek_ok(b));
    }
    assert(g.sneks[a].id != g.sneks[b].id) by {
        assert(g.ids_distinct());
    }
    assert(g.outcome(a) == UpdateResult::PlayerCollision(g.sneks[b].id));
    lemma_tick_collision_removed(g, a);
    if g.outcome(b) == UpdateResult::Nothing {
        let stepped = g.run_steps(n);
        let dead = g.dead_ids(n);
        lemma_run_steps(g, n);
        assert(stepped.sneks[b].id == g.sneks[b].id);
        assert(stepped.has_id(g.sneks[b].id));
        assert(!dead.contains(g.sneks[b].id)) by {
            if dead.contains(g.sneks[b].id) {
                lemma_dead_ids_only(g, n, g.sneks[b].id);
                let k2 = choose|k2: int|
                    0 <= k2 < n && #[trigger] g.sneks[k2].id == g.sneks[b].id && g.outcome(k2)
                        != UpdateResult::Nothing;
                assert(g.ids_distinct());
                if k2 < b {
                    assert(g.sneks[k2].id != g.sneks[b].id);
                } else if k2 > b {
                    assert(g.sneks[b].id != g.sneks[k2].id);
                }
                assert(k2 == b);
                assert(false);
            }
        }
        lemma_removals_keep_snek(stepped, dead, g.sneks[b].id);
    }
}

/// The same collision law when snake `b`'s turn comes first in the tick.
/// If `a`'s candidate head lies on a cell `b` occupies at the start of the
/// tick, and that cell is not the tail cell `b` gives up by moving (the
/// one cell a snake vacates), then `a` is marked player-collision naming
/// `b` and is removed by the tick. When `b` does not move (its own turn
/// found a collision), every one of its cells counts, tail included.
pub proof fn lemma_player_collision_earlier(g: GameView, a: int, b: int)
    requires
        g.wf(),
        0 <= b < a < g.sneks.len(),
        g.in_bounds(g.sneks[a].new_head()),
        exists|i: int|
            0 <= i < g.sneks[b].cells().len() && ci(#[trigger] g.sneks[b].cells()[i])
                == g.sneks[a].new_head(),
        g.outcome(b) == UpdateResult::Nothing ==> g.sneks[a].new_head() != ci(
            g.sneks[b].cells()[g.sneks[b].cells().len() - 1],
        ),
    ensures
        g.outcome(a) == UpdateResult::PlayerCollision(g.sneks[b].id),
        !g.ticked().has_id(g.sneks[a].id),
{
    let ga = g.run_steps(a);
    lemma_run_steps(g, a);
    lemma_snek_after_steps(g, b, a);
    assert(ga.sneks[a] == g.sneks[a]);
    let s = g.sneks[b];
    let n = s.cells().len() as int;
    let c = g.sneks[a].new_head();
    let i = choose|i: int| 0 <= i < s.cells().len() && ci(#[trigger] s.cells()[i]) == c;
    assert(g.snek_ok(b));
    if g.outcome(b) == UpdateResult::Nothing {
        let s2 = s.advanced();
        assert(ga.sneks[b] == s2);
        // The hit cell is not the vacated tail, so the advanced snake
        // still occupies it, one place further down its cell list.
        assert(i != n - 1) by {
            if i == n - 1 {
                assert(ci(s.cells()[n - 1]) == c);
            }
        }
        assert(s2.cells().len() == n);
        assert(s2.cells()[i + 1] == s.cells()[i]) by {
            if i == 0 {
                assert(s2.cells()[1] == s2.body[0]);
                assert(s2.body[0] == s.head);
                assert(s.cells()[0] == s.head);
            } else {
                assert(s2.cells()[i + 1] == s2.body[i]);
                assert(s2.body[i] == s.body.drop_last()[i - 1]);
                assert(s.body.drop_last()[i - 1] == s.body[i - 1]);
                assert(s.cells()[i] == s.body[i - 1]);
            }
        }
        assert(ga.grid[ga.idx(ci(ga.sneks[b].cells()[i + 1]))] == ga.sneks[b].id);
        assert(ga.cell(c) == s.id);
    } else {
        assert(ga.sneks[b] == s);
        assert(ga.grid[ga.idx(ci(ga.sneks[b].cells()[i]))] == ga.sneks[b].id);
        assert(ga.cell(c) == s.id);
    }
    assert(s.id != 0);
    assert(g.sneks[a].id != s.id) by {
        assert(g.ids_distinct());
    }
    assert(g.outcome(a) == UpdateResult::PlayerCollision(s.id));
    lemma_tick_collision_removed(g, a);
}

/// Seating a fresh spawn layout on free cells preserves the engine's
/// invariant.
pub proof fn lemma_spawn_preserves_wf(g: GameView, id: SnekId)
    requires
        g.wf(),
        1 <= id <= 4,
        !g.has_id(id),
        g.spawn_free(id),
    ensures
        g.spawned(id).wf(),
{
    let w = g.grid_x_count as int;
    let h = g.grid_y_count as int;
    let cells = spec_spawn_cells(id, w, h);
    let s = spec_spawn_snek(id, w, h);
    let g2 = g.spawned(id);
    let n = g.sneks.len() as int;
    lemma_spawn_cells_shape(id, w, h);

    // The new snake's occupied cells are exactly the spawn layout.
    assert(s.cells() =~= cells);
    assert(g2.sneks.len() == n + 1);
    assert(g2.sneks[n] == s);
    assert(forall|k: int| 0 <= k < n ==> g2.sneks[k] == g.sneks[k]);

    // Spawn cells are in bounds.
    assert forall|i: int| 0 <= i < cells.len() implies g.in_bounds(ci(#[trigger] cells[i])) by {
        assert(ci(cells[i]) == (spec_spawn_x(id, w, i), spec_spawn_row(id, h)));
    }

    // No old snake occupies a spawn cell: its mark would contradict the
    // freeness of the cell.
    assert forall|k: int, i: int, j: int|
        0 <= k < n && 0 <= i < g.sneks[k].cells().len() && 0 <= j < cells.len() implies #[trigger] g.sneks[k].cells()[i]
        != #[trigger] cells[j] by {
        if g.sneks[k].cells()[i] == cells[j] {
            assert(g.snek_ok(k));
            assert(g.grid[g.idx(ci(g.sneks[k].cells()[i]))] == g.sneks[k].id);
            assert(g.cell(ci(cells[j])) == 0);
            assert(g.sneks[k].id != 0);
        }
    }

    // Spawn cells are pairwise distinct: the x formula is injective.
    assert forall|i1: int, i2: int|
        0 <= i1 < cells.len() && 0 <= i2 < cells.len() && i1 != i2 implies #[trigger] cells[i1]
        != #[trigger] cells[i2] by {
        assert(ci(cells[i1]) == (spec_spawn_x(id, w, i1), spec_spawn_row(id, h)));
        assert(ci(cells[i2]) == (spec_spawn_x(id, w, i2), spec_spawn_row(id, h)));
        assert(spec_spawn_x(id, w, i1) != spec_spawn_x(id, w, i2));
    }

    // snek_ok for everyone.
    assert forall|k: int| 0 <= k < g2.sneks.len() implies g2.snek_ok(k) by {
        if k < n {
            assert(g.snek_ok(k));
        } else {
            assert forall|i: int| 0 <= i < s.cells().len() implies g2.in_bounds(
                ci(#[trigger] s.cells()[i]),
            ) by {
                assert(s.cells()[i] == cells[i]);
            }
        }
    }

    // ids stay distinct.
    assert forall|k1: int, k2: int|
        0 <= k1 < k2 < g2.sneks.len() implies #[trigger] g2.sneks[k1].id
        != #[trigger] g2.sneks[k2].id by {
        if k2 == n {
            if g2.sneks[k1].id == id {
                assert(g.has_id(id));
            }
        }
    }

    // cells stay distinct.
    assert forall|k1: int, i1: int, k2: int, i2: int|
        0 <= k1 < g2.sneks.len() && 0 <= i1 < g2.sneks[k1].cells().len() && 0 <= k2
            < g2.sneks.len() && 0 <= i2 < g2.sneks[k2].cells().len() && (k1 != k2 || i1 != i2)
        implies #[trigger] g2.sneks[k1].cells()[i1] != #[trigger] g2.sneks[k2].cells()[i2] by {
        if k1 < n && k2 < n {
            assert(g.cells_distinct());
            assert(g.sneks[k1].cells()[i1] != g.sneks[k2].cells()[i2]);
        } else if k1 == n && k2 == n {
            assert(g2.sneks[k1].cells()[i1] == cells[i1]);
            assert(g2.sneks[k2].cells()[i2] == cells[i2]);
        } else if k1 == n {
            assert(g2.sneks[k1].cells()[i1] == cells[i1]);
            assert(g2.sneks[k2].cells()[i2] == g.sneks[k2].cells()[i2]);
        } else {
            assert(g2.sneks[k1].cells()[i1] == g.sneks[k1].cells()[i1]);
            assert(g2.sneks[k2].cells()[i2] == cells[i2]);
        }
    }

    // The grid stays marked.
    assert forall|k: int, i: int|
        0 <= k < g2.sneks.len() && 0 <= i < g2.sneks[k].cells().len() implies g2.grid[g2.idx(
        ci(#[trigger] g2.sneks[k].cells()[i]),
    )] == g2.sneks[k].id by {
        if k == n {
            let j = g2.idx(ci(cells[i]));
            g.lemma_idx_in_range(ci(cells[i]));
            assert(g2.sneks[k].cells()[i] == cells[i]);
            assert(0 <= i < cells.len() && g.idx(ci(cells[i])) == j);
            assert(g2.grid[j] == id);
        } else {
            let c = g.sneks[k].cells()[i];
            let j = g.idx(ci(c));
            assert(g.snek_ok(k));
            g.lemma_idx_in_range(ci(c));
            assert forall|i2: int| 0 <= i2 < cells.len() implies g.idx(
                ci(#[trigger] cells[i2]),
            ) != j by {
                if g.idx(ci(cells[i2])) == j {
                    g.lemma_idx_injective(ci(cells[i2]), ci(c));
                    assert(cells[i2] == c);
                }
            }
            assert(g2.grid[j] == g.grid[j]);
        }
    }

    // The grid stays clean.
    assert forall|j: int| 0 <= j < g2.grid.len() && #[trigger] g2.grid[j] != 0 implies exists|
        k: int,
        i: int,
    |
        0 <= k < g2.sneks.len() && 0 <= i < g2.sneks[k].cells().len() && g2.idx(
            ci(#[trigger] g2.sneks[k].cells()[i]),
        ) == j by {
        if exists|i: int| 0 <= i < cells.len() && g.idx(ci(#[trigger] cells[i])) == j {
            let i = choose|i: int| 0 <= i < cells.len() && g.idx(ci(#[trigger] cells[i])) == j;
            assert(g2.sneks[n].cells()[i] == cells[i]);
            assert(0 <= n < g2.sneks.len() && 0 <= i < g2.sneks[n].cells().len() && g2.idx(
                ci(g2.sneks[n].cells()[i]),
            ) == j);
        } else {
            assert(g2.grid[j] == g.grid[j]);
            assert(g.grid[j] != 0);
            let (k, i) = choose|k: int, i: int|
                0 <= k < g.sneks.len() && 0 <= i < g.sneks[k].cells().len() && g.idx(
                    ci(#[trigger] g.sneks[k].cells()[i]),
                ) == j;
            assert(g2.sneks[k].cells()[i] == g.sneks[k].cells()[i]);
            assert(0 <= k < g2.sneks.len() && 0 <= i < g2.sneks[k].cells().len() && g2.idx(
                ci(g2.sneks[k].cells()[i]),
            ) == j);
        }
    }
}

impl Game {
    /// A fresh engine: an empty grid of the given dimensions and no snakes.
    /// The grid must be wide enough for the spawn table (two starting
    /// lengths across, two rows tall) and small enough for index
    /// arithmetic.
    pub fn new(grid_x_count: i32, grid_y_count: i32) -> (r: Game)
        requires
            2 * STARTING_LENGTH <= grid_x_count,
            2 <= grid_y_count,
            grid_x_count * grid_y_count <= i32::MAX,
        ensures
            r@.wf(),
            r@.grid_x_count == grid_x_count,
            r@.grid_y_count == grid_y_count,
            r@.sneks.len() == 0,
            r@.my_snek_id == 0,
            !r@.started,
            forall|j: int| 0 <= j < r@.grid.len() ==> r@.grid[j] == 0,
    {
        proof {
            assert(0 < grid_x_count * grid_y_count) by (nonlinear_arith)
                requires
                    0 < grid_x_count,
                    0 < grid_y_count,
            ;
        }
        let cell_count: usize = (grid_x_count * grid_y_count) as usize;
        let mut internal_grid: Vec<SnekId> = Vec::new();
        let mut j: usize = 0;
        while j < cell_count
            invariant
                j <= cell_count,
                internal_grid@.len() == j,
                forall|i: int| 0 <= i < j ==> internal_grid@[i] == 0,
            decreases cell_count - j,
        {
            internal_grid.push(0);
            j = j + 1;
        }
        Game {
            grid_x_count,
            grid_y_count,
            internal_grid,
            sneks: Vec::new(),
            my_snek_id: 0,
            started: false,
        }
    }

    /// This client's own snake id (0 until one is assigned).
    pub fn get_my_snek_id(&self) -> (r: SnekId)
        ensures
            r == self@.my_snek_id,
    {
        self.my_snek_id
    }

    /// Record this client's own snake id.
    pub fn set_my_snek_id(&mut self, id: SnekId)
        ensures
            final(self)@ == (GameView { my_snek_id: id, ..old(self)@ }),
    {
        self.my_snek_id = id;
    }

    /// Whether the game is running.
    pub fn has_started(&self) -> (r: bool)
        ensures
            r == self@.started,
    {
        self.started
    }

    /// Flip the game to running.
    pub fn start_game(&mut self)
        ensures
            final(self)@ == (GameView { started: true, ..old(self)@ }),
    {
        self.started = true;
    }

    /// Flip the game to not running.
    pub fn end_game(&mut self)
        ensures
            final(self)@ == (GameView { started: false, ..old(self)@ }),
    {
        self.started = false;
    }

    /// How many snakes are live.
    pub fn get_snek_count(&self) -> (r: usize)
        ensures
            r == self@.sneks.len(),
    {
        self.sneks.len()
    }

    /// The ids of all live snakes, in insertion order.
    pub fn get_all_snek_ids(&self) -> (r: Vec<SnekId>)
        ensures
            r@ == self@.ids(),
    {
        let mut r: Vec<SnekId> = Vec::new();
        let mut k: usize = 0;
        while k < self.sneks.len()
            invariant
                k <= self.sneks@.len(),
                self@.sneks.len() == self.sneks@.len(),
                r@ == self@.ids().subrange(0, k as int),
            decreases self.sneks@.len() - k,
        {
            r.push(self.sneks[k].id);
            k = k + 1;
            proof {
                assert(r@ =~= self@.ids().subrange(0, k as int));
            }
        }
        proof {
            assert(r@ =~= self@.ids());
        }
        r
    }

    /// Whether a snake with this id is still alive.
    pub fn is_alive(&self, snek_id: SnekId) -> (r: bool)
        ensures
            r == self@.has_id(snek_id),
    {
        let mut k: usize = 0;
        while k < self.sneks.len()
            invariant
                k <= self.sneks@.len(),
                self@.sneks.len() == self.sneks@.len(),
                forall|j: int| 0 <= j < k ==> #[trigger] self@.sneks[j].id != snek_id,
            decreases self.sneks@.len() - k,
        {
            if self.sneks[k].id == snek_id {
                proof {
                    assert(self@.sneks[k as int] == self.sneks@[k as int]@);
                    assert(self@.sneks[k as int].id == snek_id);
                    assert(self@.has_id(snek_id));
                }
                return true;
            }
            k = k + 1;
        }
        false
    }

    /// The 1-D grid index of an in-bounds coordinate.
    fn get_1d_index(&self, x: i32, y: i32) -> (r: usize)
        requires
            self@.dims_ok(),
            self@.grid_len_ok(),
            self@.in_bounds((x as int, y as int)),
        ensures
            r as int == self@.idx((x as int, y as int)),
            r < self@.grid.len(),
    {
        proof {
            self@.lemma_idx_in_range((x as int, y as int));
            assert(y * self.grid_x_count >= 0) by (nonlinear_arith)
                requires
                    y >= 0,
                    self.grid_x_count > 0,
            ;
        }
        (x + y * self.grid_x_count) as usize
    }

    /// The occupant id recorded at an in-bounds coordinate.
    fn get_snek_at(&self, x: i32, y: i32) -> (r: SnekId)
        requires
            self@.dims_ok(),
            self@.grid_len_ok(),
            self@.in_bounds((x as int, y as int)),
        ensures
            r == self@.cell((x as int, y as int)),
    {
        let i = self.get_1d_index(x, y);
        self.internal_grid[i]
    }

    /// Record an occupant id at an in-bounds coordinate.
    fn set_snek_at(&mut self, x: i32, y: i32, id: SnekId)
        requires
            old(self)@.dims_ok(),
            old(self)@.grid_len_ok(),
            old(self)@.in_bounds((x as int, y as int)),
        ensures
            final(self)@ == (GameView {
                grid: old(self)@.grid.update(old(self)@.idx((x as int, y as int)), id),
                ..old(self)@
            }),
    {
        let i = self.get_1d_index(x, y);
        self.internal_grid.set(i, id);
    }

    /// Build one spawn row's trailing body: `STARTING_LENGTH - 1` cells on
    /// row `y`, starting at `x0` and walking up or down the row.
    fn build_spawn_row(x0: i32, ascending: bool, y: i32) -> (r: Vec<Coord>)
        requires
            STARTING_LENGTH - 2 <= x0,
            x0 + STARTING_LENGTH <= i32::MAX,
        ensures
            r@ == Seq::new(
                (STARTING_LENGTH - 1) as nat,
                |i: int|
                    (
                        (if ascending {
                            x0 + i
                        } else {
                            x0 - i
                        }) as i32,
                        y,
                    ),
            ),
    {
        let count: usize = (STARTING_LENGTH - 1) as usize;
        let mut r: Vec<Coord> = Vec::new();
        let mut i: usize = 0;
        while i < count
            invariant
                i <= count,
                count == STARTING_LENGTH - 1,
                STARTING_LENGTH - 2 <= x0,
                x0 + STARTING_LENGTH <= i32::MAX,
                r@.len() == i,
                forall|j: int|
                    0 <= j < i ==> #[trigger] r@[j] == (
                    (if ascending {
                        x0 + j
                    } else {
                        x0 - j
                    }) as i32,
                    y,
                    ),
            decreases count - i,
        {
            let x: i32 = if ascending {
                x0 + (i as i32)
            } else {
                x0 - (i as i32)
            };
            r.push((x, y));
            i = i + 1;
        }
        proof {
            assert(r@ =~= Seq::new(
                (STARTING_LENGTH - 1) as nat,
                |i: int|
                    (
                        (if ascending {
                            x0 + i
                        } else {
                            x0 - i
                        }) as i32,
                        y,
                    ),
            ));
        }
        r
    }

    /// The spawn layout a join order is seated at: deterministic, so the
    /// clients replay the very same table the server used.
    fn get_spawn(&self, id: SnekId) -> (r: Result<(Coord, Vec<Coord>, Direction), &'static str>)
        requires
            self@.dims_ok(),
        ensures
            match r {
                Ok(t) => {
                    &&& 1 <= id <= 4
                    &&& ci(t.0) == spec_spawn_head(
                        id,
                        self@.grid_x_count as int,
                        self@.grid_y_count as int,
                    )
                    &&& t.1@ == spec_spawn_body(
                        id,
                        self@.grid_x_count as int,
                        self@.grid_y_count as int,
                    )
                    &&& t.2 == spec_spawn_dir(id)
                },
                Err(_) => !(1 <= id <= 4),
            },
    {
        let w = self.grid_x_count;
        let h = self.grid_y_count;
        let ghost wi = w as int;
        let ghost hi = h as int;
        proof {
            assert(2 * wi <= wi * hi) by (nonlinear_arith)
                requires
                    0 < wi,
                    2 <= hi,
            ;
        }
        if id == 1 {
            let body = Self::build_spawn_row(STARTING_LENGTH - 2, false, 0);
            proof {
                assert(body@ =~= spec_spawn_body(id, wi, hi));
            }
            Ok(((STARTING_LENGTH - 1, 0), body, Direction::East))
        } else if id == 2 {
            let body = Self::build_spawn_row(STARTING_LENGTH - 2, false, h - 1);
            proof {
                assert(body@ =~= spec_spawn_body(id, wi, hi));
            }
            Ok(((STARTING_LENGTH - 1, h - 1), body, Direction::East))
        } else if id == 3 {
            let body = Self::build_spawn_row(w - STARTING_LENGTH + 1, true, 0);
            proof {
                assert(body@ =~= spec_spawn_body(id, wi, hi));
            }
            Ok(((w - STARTING_LENGTH, 0), body, Direction::West))
        } else if id == 4 {
            let body = Self::build_spawn_row(w - STARTING_LENGTH + 1, true, h - 1);
            proof {
                assert(body@ =~= spec_spawn_body(id, wi, hi));
            }
            Ok(((w - STARTING_LENGTH, h - 1), body, Direction::West))
        } else {
            Err("Exceeded player count!")
        }
    }

    /// Seat the snake of join order `id` at its spawn layout: its cells are
    /// marked on the grid and the snake joins the collection. Fails with
    /// the capacity error, and changes nothing, when the session is full.
    /// The caller guarantees a fresh id and a free spawn layout (see
    /// [`Game::can_spawn`]).
    pub fn spawn_snek(&mut self, id: SnekId) -> (r: Result<(), &'static str>)
        requires
            old(self)@.wf(),
            1 <= id <= 4,
            !old(self)@.has_id(id),
            old(self)@.spawn_free(id),
        ensures
            final(self)@.wf(),
            old(self)@.sneks.len() >= MAX_PLAYERS ==> r is Err && final(self)@ == old(self)@,
            old(self)@.sneks.len() < MAX_PLAYERS ==> r is Ok && final(self)@ == old(self)@.spawned(
                id,
            ),
    {
        let ghost g0 = self@;
        let ghost wi = self.grid_x_count as int;
        let ghost hi = self.grid_y_count as int;
        let ghost cells = spec_spawn_cells(id, wi, hi);
        if self.sneks.len() >= MAX_PLAYERS {
            return Err("Exceeded player count!");
        }
        proof {
            lemma_spawn_cells_shape(id, wi, hi);
        }
        let (head, body, direction) = match self.get_spawn(id) {
            Ok(t) => t,
            Err(e) => {
                proof {
                    assert(false);
                }
                return Err(e);
            },
        };
        proof {
            assert(ci(cells[0]) == ci(head));
            assert(head == cells[0]);
            assert forall|i: int| 0 <= i < body@.len() implies #[trigger] body@[i] == cells[
                i + 1
            ] by {
                assert(cells[i + 1] == spec_spawn_body(id, wi, hi)[i]);
            }
        }
        proof {
            assert forall|j: int| 0 <= j < cells.len() implies g0.in_bounds(
                ci(#[trigger] cells[j]),
            ) by {
                assert(ci(cells[j]) == (spec_spawn_x(id, wi, j), spec_spawn_row(id, hi)));
            }
            g0.lemma_idx_in_range(ci(head));
        }
        self.set_snek_at(head.0, head.1, id);
        proof {
            assert(self@.grid =~= g0.mark_cells(cells.subrange(0, 1), id)) by {
                assert forall|j: int| 0 <= j < self@.grid.len() implies self@.grid[j]
                    == g0.mark_cells(cells.subrange(0, 1), id)[j] by {
                    let sub = cells.subrange(0, 1);
                    if j == g0.idx(ci(head)) {
                        assert(sub[0] == head);
                        assert(exists|i: int|
                            0 <= i < sub.len() && g0.idx(ci(#[trigger] sub[i])) == j);
                    } else {
                        if exists|i: int| 0 <= i < sub.len() && g0.idx(ci(#[trigger] sub[i]))
                            == j {
                            let i = choose|i: int|
                                0 <= i < sub.len() && g0.idx(ci(#[trigger] sub[i])) == j;
                            assert(i == 0);
                            assert(false);
                        }
                    }
                }
            }
        }
        let mut i: usize = 0;
        while i < body.len()
            invariant
                i <= body@.len(),
                self@ == (GameView {
                    grid: g0.mark_cells(cells.subrange(0, i as int + 1), id),
                    ..g0
                }),
                g0.wf(),
                1 <= id <= 4,
                cells == spec_spawn_cells(id, g0.grid_x_count as int, g0.grid_y_count as int),
                cells.len() == STARTING_LENGTH,
                body@.len() == STARTING_LENGTH - 1,
                forall|j: int| 0 <= j < body@.len() ==> #[trigger] body@[j] == cells[j + 1],
                forall|j: int|
                    0 <= j < cells.len() ==> g0.in_bounds(ci(#[trigger] cells[j])),
            decreases body@.len() - i,
        {
            let c = body[i];
            self.set_snek_at(c.0, c.1, id);
            proof {
                let t = i as int + 1;
                let prev = g0.mark_cells(cells.subrange(0, t), id);
                let cur = g0.mark_cells(cells.subrange(0, t + 1), id);
                g0.lemma_idx_in_range(ci(cells[t]));
                assert forall|j: int| 0 <= j < cur.len() implies prev.update(
                    g0.idx(ci(c)),
                    id,
                )[j] == cur[j] by {
                    let sub1 = cells.subrange(0, t);
                    let sub2 = cells.subrange(0, t + 1);
                    if j == g0.idx(ci(cells[t])) {
                        assert(sub2[t] == cells[t]);
                        assert(exists|i2: int|
                            0 <= i2 < sub2.len() && g0.idx(ci(#[trigger] sub2[i2])) == j);
                    } else {
                        if exists|i2: int| 0 <= i2 < sub2.len() && g0.idx(ci(#[trigger] sub2[i2]))
                            == j {
                            let i2 = choose|i2: int|
                                0 <= i2 < sub2.len() && g0.idx(ci(#[trigger] sub2[i2])) == j;
                            assert(i2 < t);
                            assert(sub1[i2] == sub2[i2]);
                            assert(exists|i3: int|
                                0 <= i3 < sub1.len() && g0.idx(ci(#[trigger] sub1[i3])) == j);
                        } else {
                            assert(forall|i3: int|
                                0 <= i3 < sub1.len() ==> g0.idx(ci(#[trigger] sub1[i3]))
                                    != j) by {
                                assert(forall|i3: int|
                                    0 <= i3 < sub1.len() ==> #[trigger] sub1[i3] == sub2[i3]);
                            }
                        }
                    }
                }
                assert(self@.grid =~= cur);
            }
            i = i + 1;
        }
        proof {
            assert(cells.subrange(0, cells.len() as int) =~= cells);
        }
        let snek = Snek {
            id,
            head,
            body,
            previous_direction: Direction::Invalid,
            direction,
        };
        proof {
            assert(snek@ == spec_spawn_snek(id, wi, hi)) by {
                assert(snek@.head == spec_spawn_snek(id, wi, hi).head);
                assert(snek@.body == spec_spawn_snek(id, wi, hi).body);
            }
        }
        self.sneks.push(snek);
        proof {
            assert(self@.sneks =~= g0.sneks.push(spec_spawn_snek(id, wi, hi)));
            assert(self@ == g0.spawned(id));
            lemma_spawn_preserves_wf(g0, id);
        }
        Ok(())
    }

    /// The position of the first snake carrying `id`, if any.
    fn find_snek(&self, id: SnekId) -> (r: Option<usize>)
        ensures
            match r {
                Some(k) => k < self@.sneks.len() && find_index(self@.sneks, id) == k as int,
                None => find_index(self@.sneks, id) == -1,
            },
    {
        proof {
            lemma_find_index(self@.sneks, id);
        }
        let mut k: usize = 0;
        while k < self.sneks.len()
            invariant
                k <= self.sneks@.len(),
                self@.sneks.len() == self.sneks@.len(),
                forall|j: int| 0 <= j < k ==> #[trigger] self@.sneks[j].id != id,
            decreases self.sneks@.len() - k,
        {
            if self.sneks[k].id == id {
                proof {
                    lemma_find_index(self@.sneks, id);
                    assert(self@.sneks[k as int] == self.sneks@[k as int]@);
                    assert(self@.sneks[k as int].id == id);
                    let f = find_index(self@.sneks, id);
                    assert(f != -1);
                    if f < k as int {
                        assert(self@.sneks[f].id != id);
                        assert(false);
                    }
                    if f > k as int {
                        assert(self@.sneks[k as int].id != id);
                        assert(false);
                    }
                }
                return Some(k);
            }
            k = k + 1;
        }
        proof {
            lemma_find_index(self@.sneks, id);
            let f = find_index(self@.sneks, id);
            if f != -1 {
                assert(self@.sneks[f].id != id);
                assert(false);
            }
        }
        None
    }

    /// One snake's turn within a tick: classify its next step against the
    /// grid as it stands, and take the step when it is free.
    fn update_snek(&mut self, k: usize) -> (r: UpdateResult)
        requires
            old(self)@.wf(),
            k < old(self)@.sneks.len(),
        ensures
            final(self)@ == old(self)@.step_snek(k as int),
            r == old(self)@.classify(old(self)@.sneks[k as int]),
    {
        let ghost g0 = self@;
        let ghost sv = g0.sneks[k as int];
        proof {
            assert(g0.snek_ok(k as int));
            assert(self.sneks@[k as int]@ == sv);
            assert(sv.cells()[0] == sv.head);
            assert(g0.in_bounds(ci(sv.head)));
        }
        let w = self.grid_x_count;
        let h = self.grid_y_count;
        let new_head = self.sneks[k].get_new_head_coord();
        proof {
            assert((new_head.0 as int, new_head.1 as int) == sv.new_head());
        }
        if new_head.0 < 0 || new_head.0 >= w || new_head.1 < 0 || new_head.1 >= h {
            proof {
                assert(!g0.in_bounds(sv.new_head()));
            }
            return UpdateResult::WallCollision;
        }
        let snek_id = self.sneks[k].id;
        let occupant = self.get_snek_at(new_head.0, new_head.1);
        if occupant != 0 {
            if occupant == snek_id {
                return UpdateResult::WallCollision;
            } else {
                return UpdateResult::PlayerCollision(occupant);
            }
        }
        proof {
            assert(g0.classify(sv) == UpdateResult::Nothing);
            assert(g0.in_bounds(sv.new_head()));
            g0.lemma_idx_in_range(sv.new_head());
        }
        // Mark the new head cell.
        self.set_snek_at(new_head.0, new_head.1, snek_id);
        // Give up the tail cell.
        let body_len = self.sneks[k].body.len();
        proof {
            assert(sv.cells()[sv.cells().len() - 1] == sv.body.last());
            assert(g0.in_bounds(ci(sv.body.last())));
        }
        let tail = self.sneks[k].body[body_len - 1];
        proof {
            assert(self.sneks@[k as int]@ == sv);
            assert(body_len == sv.body.len());
            assert(tail == sv.body[body_len - 1]);
            assert(tail == sv.body.last());
        }
        proof {
            assert(self@.grid.len() == g0.grid.len());
            g0.lemma_idx_in_range(ci(sv.body.last()));
        }
        self.set_snek_at(tail.0, tail.1, 0);
        // Advance the snake itself.
        let ghost pre_remove = self.sneks@;
        proof {
            assert(pre_remove.map_values(|sn: Snek| sn@) == g0.sneks);
            assert(pre_remove[k as int]@ == g0.sneks[k as int]);
        }
        let mut s = self.sneks.remove(k);
        proof {
            assert(s@ == sv);
            assert(1 <= sv.body.len());
        }
        s.advance(false);
        proof {
            assert(s@.head.0 == sv.new_head().0 as i32);
            assert(s@.head.1 == sv.new_head().1 as i32);
            assert(s@.body =~= sv.advanced().body);
            assert(s@ == sv.advanced());
        }
        self.sneks.insert(k, s);
        proof {
            assert(self.sneks@ == pre_remove.remove(k as int).insert(k as int, s));
            assert forall|j: int| 0 <= j < self@.sneks.len() implies self@.sneks[j]
                == g0.sneks.update(k as int, sv.advanced())[j] by {
                assert(self@.sneks[j] == self.sneks@[j]@);
                if j < k as int {
                    assert(self.sneks@[j] == pre_remove.remove(k as int)[j]);
                    assert(pre_remove.remove(k as int)[j] == pre_remove[j]);
                    assert(pre_remove[j]@ == g0.sneks[j]);
                } else if j == k as int {
                } else {
                    assert(self.sneks@[j] == pre_remove.remove(k as int)[j - 1]);
                    assert(pre_remove.remove(k as int)[j - 1] == pre_remove[j]);
                    assert(pre_remove[j]@ == g0.sneks[j]);
                }
            }
            assert(self@.sneks =~= g0.sneks.update(k as int, sv.advanced()));
            assert(self@.grid =~= g0.grid.update(g0.idx(sv.new_head()), sv.id).update(
                g0.idx(ci(sv.body.last())),
                0,
            ));
            assert(self@ == g0.step_snek(k as int));
        }
        UpdateResult::Nothing
    }

    /// Remove a dead snake: clear every grid cell it occupies (head and
    /// whole body) and drop it from the collection.
    fn remove_snek(&mut self, id: SnekId)
        requires
            old(self)@.wf(),
        ensures
            final(self)@ == old(self)@.remove_id(id),
    {
        let ghost g0 = self@;
        let kopt = self.find_snek(id);
        let k = match kopt {
            None => {
                return ;
            },
            Some(k) => k,
        };
        let ghost cells = g0.sneks[k as int].cells();
        proof {
            assert(g0.snek_ok(k as int));
            assert(cells[0] == g0.sneks[k as int].head);
            assert(g0.in_bounds(ci(cells[0])));
            assert(self.sneks@[k as int]@ == g0.sneks[k as int]);
        }
        let head = self.sneks[k].head;
        proof {
            assert(head == g0.sneks[k as int].head);
            g0.lemma_idx_in_range(ci(head));
        }
        self.set_snek_at(head.0, head.1, 0);
        proof {
            assert(self@.grid =~= g0.clear_cells(cells.subrange(0, 1))) by {
                assert forall|j: int| 0 <= j < self@.grid.len() implies self@.grid[j]
                    == g0.clear_cells(cells.subrange(0, 1))[j] by {
                    let sub = cells.subrange(0, 1);
                    g0.lemma_idx_in_range(ci(head));
                    if j == g0.idx(ci(head)) {
                        assert(sub[0] == head);
                        assert(exists|i: int|
                            0 <= i < sub.len() && g0.idx(ci(#[trigger] sub[i])) == j);
                    } else {
                        if exists|i: int| 0 <= i < sub.len() && g0.idx(ci(#[trigger] sub[i]))
                            == j {
                            let i = choose|i: int|
                                0 <= i < sub.len() && g0.idx(ci(#[trigger] sub[i])) == j;
                            assert(i == 0);
                            assert(false);
                        }
                    }
                }
            }
        }
        let body_len = self.sneks[k].body.len();
        let mut i: usize = 0;
        while i < body_len
            invariant
                i <= body_len,
                k < self.sneks@.len(),
                self@.sneks == g0.sneks,
                self@.grid_x_count == g0.grid_x_count,
                self@.grid_y_count == g0.grid_y_count,
                self@.my_snek_id == g0.my_snek_id,
                self@.started == g0.started,
                g0.wf(),
                cells == g0.sneks[k as int].cells(),
                body_len == g0.sneks[k as int].body.len(),
                cells.len() == body_len + 1,
                self@.grid == g0.clear_cells(cells.subrange(0, i as int + 1)),
            decreases body_len - i,
        {
            let c = self.sneks[k].body[i];
            proof {
                assert(self.sneks@[k as int]@ == g0.sneks[k as int]);
                assert(c == g0.sneks[k as int].body[i as int]);
                assert(cells[i as int + 1] == g0.sneks[k as int].body[i as int]);
                assert(c == cells[i as int + 1]);
                assert(g0.snek_ok(k as int));
                assert(g0.in_bounds(ci(g0.sneks[k as int].cells()[i as int + 1])));
                assert(g0.in_bounds(ci(c)));
                g0.lemma_idx_in_range(ci(c));
            }
            self.set_snek_at(c.0, c.1, 0);
            proof {
                let t = i as int + 1;
                let prev = g0.clear_cells(cells.subrange(0, t));
                let cur = g0.clear_cells(cells.subrange(0, t + 1));
                assert forall|j: int| 0 <= j < cur.len() implies prev.update(
                    g0.idx(ci(c)),
                    0,
                )[j] == cur[j] by {
                    let sub1 = cells.subrange(0, t);
                    let sub2 = cells.subrange(0, t + 1);
                    if j == g0.idx(ci(cells[t])) {
                        assert(sub2[t] == cells[t]);
                        assert(exists|i2: int|
                            0 <= i2 < sub2.len() && g0.idx(ci(#[trigger] sub2[i2])) == j);
                    } else {
                        if exists|i2: int| 0 <= i2 < sub2.len() && g0.idx(ci(#[trigger] sub2[i2]))
                            == j {
                            let i2 = choose|i2: int|
                                0 <= i2 < sub2.len() && g0.idx(ci(#[trigger] sub2[i2])) == j;
                            assert(i2 < t);
                            assert(sub1[i2] == sub2[i2]);
                            assert(exists|i3: int|
                                0 <= i3 < sub1.len() && g0.idx(ci(#[trigger] sub1[i3])) == j);
                        } else {
                            assert(forall|i3: int|
                                0 <= i3 < sub1.len() ==> g0.idx(ci(#[trigger] sub1[i3]))
                                    != j) by {
                                assert(forall|i3: int|
                                    0 <= i3 < sub1.len() ==> #[trigger] sub1[i3] == sub2[i3]);
                            }
                        }
                    }
                }
                assert(self@.grid =~= cur);
                assert(self@.sneks.len() == self.sneks@.len());
            }
            i = i + 1;
        }
        self.sneks.remove(k);
        proof {
            assert(cells.subrange(0, cells.len() as int) =~= cells);
            assert(self@.sneks =~= g0.sneks.remove(k as int));
            assert(self@ == g0.remove_id(id));
        }
    }

    /// One lockstep tick, taken only when the game is running and the
    /// caller says the interval has elapsed: every snake takes its turn in
    /// insertion order against the grid as it then stands, and every snake
    /// whose turn found a collision is removed afterwards, its cells
    /// cleared. Returns each snake's id with what its turn found.
    pub fn update(&mut self, should_update: bool) -> (outcomes: Vec<(SnekId, UpdateResult)>)
        requires
            old(self)@.wf(),
        ensures
            final(self)@.wf(),
            old(self)@.started && should_update ==> final(self)@ == old(self)@.ticked()
                && outcomes@ == old(self)@.tick_outcomes(),
            !(old(self)@.started && should_update) ==> final(self)@ == old(self)@ && outcomes@.len()
                == 0,
    {
        let mut outcomes: Vec<(SnekId, UpdateResult)> = Vec::new();
        if !(self.started && should_update) {
            return outcomes;
        }
        let ghost g0 = self@;
        let mut dead: Vec<SnekId> = Vec::new();
        let n = self.sneks.len();
        let mut k: usize = 0;
        proof {
            assert(outcomes@ =~= g0.tick_outcomes().subrange(0, 0));
        }
        while k < n
            invariant
                k <= n,
                n == g0.sneks.len(),
                g0.wf(),
                self@ == g0.run_steps(k as int),
                dead@ == g0.dead_ids(k as int),
                outcomes@ == g0.tick_outcomes().subrange(0, k as int),
            decreases n - k,
        {
            proof {
                lemma_run_steps(g0, k as int);
            }
            let id = self.sneks[k].id;
            proof {
                assert(self@.sneks[k as int] == self.sneks@[k as int]@);
                assert(id == g0.sneks[k as int].id);
            }
            let r = self.update_snek(k);
            match r {
                UpdateResult::Nothing => {},
                _ => {
                    dead.push(id);
                },
            }
            outcomes.push((id, r));
            k = k + 1;
            proof {
                assert(r == g0.outcome(k as int - 1));
                assert(dead@ =~= g0.dead_ids(k as int));
                assert(outcomes@ =~= g0.tick_outcomes().subrange(0, k as int));
            }
        }
        proof {
            lemma_run_steps(g0, n as int);
            assert(outcomes@ =~= g0.tick_outcomes());
        }
        let ghost g1 = self@;
        let ghost deadseq = dead@;
        let mut di: usize = 0;
        proof {
            assert(self@ == g1.run_removals(deadseq.subrange(0, 0)));
        }
        while di < dead.len()
            invariant
                di <= deadseq.len(),
                dead@ == deadseq,
                g1.wf(),
                self@ == g1.run_removals(deadseq.subrange(0, di as int)),
            decreases deadseq.len() - di,
        {
            proof {
                lemma_run_removals_wf(g1, deadseq.subrange(0, di as int));
            }
            let id = dead[di];
            self.remove_snek(id);
            di = di + 1;
            proof {
                let sub = deadseq.subrange(0, di as int);
                assert(sub.drop_last() =~= deadseq.subrange(0, di as int - 1));
                assert(sub.last() == deadseq[di as int - 1]);
                assert(self@ == g1.run_removals(sub));
            }
        }
        proof {
            assert(deadseq.subrange(0, deadseq.len() as int) =~= deadseq);
            assert(self@ == g0.ticked());
            lemma_ticked_wf(g0);
        }
        outcomes
    }

    /// The current travel direction of the snake carrying `snek_id`.
    pub fn get_snek_direction(&self, snek_id: SnekId) -> (r: Direction)
        requires
            self@.has_id(snek_id),
        ensures
            r == self@.sneks[find_index(self@.sneks, snek_id)].direction,
    {
        match self.find_snek(snek_id) {
            Some(k) => {
                proof {
                    assert(self@.sneks[k as int] == self.sneks@[k as int]@);
                }
                self.sneks[k].direction
            },
            None => {
                proof {
                    lemma_find_index(self@.sneks, snek_id);
                    let w = choose|w: int|
                        0 <= w < self@.sneks.len() && #[trigger] self@.sneks[w].id == snek_id;
                    assert(self@.sneks[w].id != snek_id);
                    assert(false);
                }
                Direction::Invalid
            },
        }
    }

    /// The last direction this client committed to the wire for the snake
    /// carrying `snek_id`.
    pub fn get_previous_snek_direction(&self, snek_id: SnekId) -> (r: Direction)
        requires
            self@.has_id(snek_id),
        ensures
            r == self@.sneks[find_index(self@.sneks, snek_id)].previous_direction,
    {
        match self.find_snek(snek_id) {
            Some(k) => {
                proof {
                    assert(self@.sneks[k as int] == self.sneks@[k as int]@);
                }
                self.sneks[k].previous_direction
            },
            None => {
                proof {
                    lemma_find_index(self@.sneks, snek_id);
                    let w = choose|w: int|
                        0 <= w < self@.sneks.len() && #[trigger] self@.sneks[w].id == snek_id;
                    assert(self@.sneks[w].id != snek_id);
                    assert(false);
                }
                Direction::Invalid
            },
        }
    }

    /// Record the direction just committed to the wire for the snake
    /// carrying `snek_id`.
    pub fn set_previous_snek_direction(&mut self, snek_id: SnekId, direction: Direction)
        requires
            old(self)@.has_id(snek_id),
        ensures
            final(self)@ == old(self)@.with_previous_direction(snek_id, direction),
            old(self)@.wf() ==> final(self)@.wf(),
    {
        let ghost g0 = self@;
        match self.find_snek(snek_id) {
            Some(k) => {
                let ghost pre = self.sneks@;
                let ghost sv = g0.sneks[k as int];
                let mut s = self.sneks.remove(k);
                proof {
                    assert(pre[k as int]@ == sv);
                    assert(s@ == sv);
                }
                s.previous_direction = direction;
                self.sneks.insert(k, s);
                proof {
                    assert(s@ == (SnekView { previous_direction: direction, ..sv }));
                    assert(self.sneks@ == pre.remove(k as int).insert(k as int, s));
                    assert forall|j: int| 0 <= j < self@.sneks.len() implies self@.sneks[j]
                        == g0.sneks.update(
                        k as int,
                        (SnekView { previous_direction: direction, ..sv }),
                    )[j] by {
                        assert(self@.sneks[j] == self.sneks@[j]@);
                        if j < k as int {
                            assert(self.sneks@[j] == pre[j]);
                            assert(pre[j]@ == g0.sneks[j]);
                        } else if j == k as int {
                        } else {
                            assert(self.sneks@[j] == pre.remove(k as int)[j - 1]);
                            assert(pre.remove(k as int)[j - 1] == pre[j]);
                            assert(pre[j]@ == g0.sneks[j]);
                        }
                    }
                    assert(self@.sneks =~= g0.sneks.update(
                        k as int,
                        (SnekView { previous_direction: direction, ..sv }),
                    ));
                    assert(self@ == g0.with_previous_direction(snek_id, direction));
                    if g0.wf() {
                        lemma_wf_direction_only(g0, self@);
                    }
                }
            },
            None => {
                proof {
                    lemma_find_index(g0.sneks, snek_id);
                    let w = choose|w: int|
                        0 <= w < g0.sneks.len() && #[trigger] g0.sneks[w].id == snek_id;
                    assert(g0.sneks[w].id != snek_id);
                    assert(false);
                }
            },
        }
    }

    /// Request a travel direction for the snake carrying `snek_id`. An
    /// unknown id is ignored, and the request itself is subject to the
    /// reversal rule (see [`Snek::set_direction`]).
    pub fn move_snek(&mut self, snek_id: SnekId, direction: Direction)
        ensures
            final(self)@ == old(self)@.moved(snek_id, direction),
            old(self)@.wf() ==> final(self)@.wf(),
    {
        let ghost g0 = self@;
        match self.find_snek(snek_id) {
            Some(k) => {
                let ghost pre = self.sneks@;
                let ghost sv = g0.sneks[k as int];
                let mut s = self.sneks.remove(k);
                proof {
                    assert(pre[k as int]@ == sv);
                    assert(s@ == sv);
                }
                s.set_direction(direction);
                self.sneks.insert(k, s);
                proof {
                    let ghost sv2 = (SnekView {
                        direction: spec_set_direction(sv.direction, direction),
                        ..sv
                    });
                    assert(s@ == sv2);
                    assert(self.sneks@ == pre.remove(k as int).insert(k as int, s));
                    assert forall|j: int| 0 <= j < self@.sneks.len() implies self@.sneks[j]
                        == g0.sneks.update(k as int, sv2)[j] by {
                        assert(self@.sneks[j] == self.sneks@[j]@);
                        if j < k as int {
                            assert(self.sneks@[j] == pre[j]);
                            assert(pre[j]@ == g0.sneks[j]);
                        } else if j == k as int {
                        } else {
                            assert(self.sneks@[j] == pre.remove(k as int)[j - 1]);
                            assert(pre.remove(k as int)[j - 1] == pre[j]);
                            assert(pre[j]@ == g0.sneks[j]);
                        }
                    }
                    assert(self@.sneks =~= g0.sneks.update(k as int, sv2));
                    assert(self@ == g0.moved(snek_id, direction));
                    if g0.wf() {
                        lemma_wf_direction_only(g0, self@);
                    }
                }
            },
            None => {},
        }
    }

    /// Whether `spawn_snek(id)` may be called in this state: a join order
    /// the spawn table knows, an id no live snake carries, and a spawn
    /// layout of entirely free cells.
    pub fn can_spawn(&self, id: SnekId) -> (r: bool)
        requires
            self@.wf(),
        ensures
            r == (1 <= id <= 4 && !self@.has_id(id) && self@.spawn_free(id)),
    {
        if id < 1 || id > 4 {
            return false;
        }
        if self.is_alive(id) {
            return false;
        }
        let ghost wi = self.grid_x_count as int;
        let ghost hi = self.grid_y_count as int;
        let ghost cells = spec_spawn_cells(id, wi, hi);
        proof {
            lemma_spawn_cells_shape(id, wi, hi);
        }
        let (head, body, _direction) = match self.get_spawn(id) {
            Ok(t) => t,
            Err(e) => {
                proof {
                    assert(false);
                }
                return false;
            },
        };
        proof {
            assert(ci(cells[0]) == ci(head));
            assert(head == cells[0]);
            assert forall|i: int| 0 <= i < body@.len() implies #[trigger] body@[i] == cells[
                i + 1
            ] by {
                assert(cells[i + 1] == spec_spawn_body(id, wi, hi)[i]);
            }
        }
        if self.get_snek_at(head.0, head.1) != 0 {
            return false;
        }
        let mut i: usize = 0;
        while i < body.len()
            invariant
                i <= body@.len(),
                self@.wf(),
                1 <= id <= 4,
                cells == spec_spawn_cells(id, self@.grid_x_count as int, self@.grid_y_count as int),
                cells.len() == STARTING_LENGTH,
                body@.len() == STARTING_LENGTH - 1,
                forall|j: int| 0 <= j < body@.len() ==> #[trigger] body@[j] == cells[j + 1],
                forall|j: int|
                    0 <= j < cells.len() ==> self@.in_bounds(ci(#[trigger] cells[j])),
                forall|j: int|
                    0 <= j < i as int + 1 ==> self@.cell(ci(#[trigger] cells[j])) == 0,
            decreases body@.len() - i,
        {
            let c = body[i];
            if self.get_snek_at(c.0, c.1) != 0 {
                return false;
            }
            i = i + 1;
        }
        true
    }
}

} // verus!
