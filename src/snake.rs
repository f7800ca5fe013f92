use vstd::prelude::*;

use crate::coord::{board_ok, interior, is_jump, step_cell, GameState_Coord};
use crate::direction::Direction;

verus! {

/// Life state of a snake.
#[derive(Clone, Copy, Debug, PartialEq, Eq, Structural)]
pub enum SnakeState {
    Alive,
    Zombie,
}

/// A run moves along exactly one axis.
pub open spec fn single_axis(r: (int, int)) -> bool {
    (r.0 == 0) != (r.1 == 0)
}

pub open spec fn abs(v: int) -> int {
    if v < 0 {
        -v
    } else {
        v
    }
}

/// Number of cells a run spans beyond its start.
pub open spec fn run_len(r: (int, int)) -> int {
    abs(r.0) + abs(r.1)
}

/// The `k`-th cell (from zero) after `a` along a run of signed length `r`.
pub open spec fn toward(a: int, r: int, k: int) -> int {
    if r > 0 {
        a + k + 1
    } else if r < 0 {
        a - k - 1
    } else {
        a
    }
}

/// Cells covered by a run that starts at `start` (the start excluded): the
/// landing cell for a wraparound jump, else every cell up to the run's end.
pub open spec fn run_cells(start: (int, int), r: (int, int), w: int, h: int) -> Seq<(int, int)> {
    if is_jump(start, r, w, h) {
        seq![step_cell(start, r, w, h)]
    } else {
        Seq::new(run_len(r) as nat, |k: int| (toward(start.0, r.0, k), toward(start.1, r.1, k)))
    }
}

/// Cells covered by a chain of runs walked from `start`.
pub open spec fn cells_from(start: (int, int), runs: Seq<GameState_Coord>, w: int, h: int) -> Seq<
    (int, int),
>
    decreases runs.len(),
{
    if runs.len() == 0 {
        seq![]
    } else {
        let r = runs[0].cell();
        run_cells(start, r, w, h) + cells_from(step_cell(start, r, w, h), runs.drop_first(), w, h)
    }
}

/// Total length of a chain of runs.
pub open spec fn runs_total(runs: Seq<GameState_Coord>) -> int
    decreases runs.len(),
{
    if runs.len() == 0 {
        0
    } else {
        run_len(runs[0].cell()) + runs_total(runs.drop_first())
    }
}

/// Where a walk over a chain of runs from `start` ends.
pub open spec fn end_from(start: (int, int), runs: Seq<GameState_Coord>, w: int, h: int) -> (int, int)
    decreases runs.len(),
{
    if runs.len() == 0 {
        start
    } else {
        end_from(step_cell(start, runs[0].cell(), w, h), runs.drop_first(), w, h)
    }
}

/// One unit of length taken off a run.
pub open spec fn shorten_axis(v: int) -> int {
    if v > 0 {
        v - 1
    } else if v < 0 {
        v + 1
    } else {
        0
    }
}

pub open spec fn coord_of(c: (int, int)) -> GameState_Coord {
    GameState_Coord { x: c.0 as i32, y: c.1 as i32 }
}

/// The points after a move along `d`: a new head, a unit run back to the
/// old head, then the old runs.
pub open spec fn forward_points(points: Seq<GameState_Coord>, d: Direction, w: int, h: int) -> Seq<
    GameState_Coord,
> {
    seq![coord_of(step_cell(points[0].cell(), d.delta(), w, h)), coord_of((-d.delta().0, -d.delta().1))]
        + points.drop_first()
}

/// The points after the tail is retracted by one unit.
pub open spec fn tail_points(points: Seq<GameState_Coord>) -> Seq<GameState_Coord> {
    let last = points.last().cell();
    let s = (shorten_axis(last.0), shorten_axis(last.1));
    if s.0 == 0 && s.1 == 0 {
        points.drop_last()
    } else {
        points.drop_last().push(coord_of(s))
    }
}

pub proof fn lemma_concat_contains(a: Seq<(int, int)>, b: Seq<(int, int)>, x: (int, int))
    ensures
        (a + b).contains(x) <==> a.contains(x) || b.contains(x),
{
    if a.contains(x) {
        let i = choose|i: int| 0 <= i < a.len() && a[i] == x;
        assert((a + b)[i] == x);
    }
    if b.contains(x) {
        let i = choose|i: int| 0 <= i < b.len() && b[i] == x;
        assert((a + b)[a.len() + i] == x);
    }
    if (a + b).contains(x) {
        let i = choose|i: int| 0 <= i < (a + b).len() && (a + b)[i] == x;
        if i < a.len() {
            assert(a[i] == x);
        } else {
            assert(b[i - a.len()] == x);
        }
    }
}

/// Every cell a run covers lies in the interior when its start does.
proof fn lemma_run_cells_interior(start: (int, int), r: (int, int), w: int, h: int)
    requires
        board_ok(w, h),
        interior(start, w, h),
        single_axis(r),
    ensures
        forall|k: int| 0 <= k < run_cells(start, r, w, h).len() ==> interior(#[trigger] run_cells(start, r, w, h)[k], w, h),
        interior(step_cell(start, r, w, h), w, h),
{
}

/// Walking runs from an interior cell never touches the outer ring.
pub proof fn lemma_cells_from_interior(start: (int, int), runs: Seq<GameState_Coord>, w: int, h: int)
    requires
        board_ok(w, h),
        interior(start, w, h),
        forall|i: int| 0 <= i < runs.len() ==> single_axis(#[trigger] runs[i].cell()),
    ensures
        forall|k: int| 0 <= k < cells_from(start, runs, w, h).len() ==> interior(#[trigger] cells_from(start, runs, w, h)[k], w, h),
    decreases runs.len(),
{
    if runs.len() > 0 {
        let r = runs[0].cell();
        let rest = runs.drop_first();
        assert forall|i: int| 0 <= i < rest.len() implies single_axis(#[trigger] rest[i].cell()) by {
            assert(rest[i] == runs[i + 1]);
        }
        lemma_run_cells_interior(start, r, w, h);
        lemma_cells_from_interior(step_cell(start, r, w, h), rest, w, h);
        let a = run_cells(start, r, w, h);
        let b = cells_from(step_cell(start, r, w, h), rest, w, h);
        assert forall|k: int| 0 <= k < (a + b).len() implies interior(#[trigger] (a + b)[k], w, h) by {
            if k >= a.len() {
                assert((a + b)[k] == b[k - a.len()]);
            }
        }
    }
}

/// The last covered cell of a non-empty chain is where the walk ends.
pub proof fn lemma_cells_from_last(start: (int, int), runs: Seq<GameState_Coord>, w: int, h: int)
    requires
        runs.len() > 0,
        forall|i: int| 0 <= i < runs.len() ==> single_axis(#[trigger] runs[i].cell()),
    ensures
        cells_from(start, runs, w, h).len() > 0,
        cells_from(start, runs, w, h).last() == end_from(start, runs, w, h),
    decreases runs.len(),
{
    let r = runs[0].cell();
    let rest = runs.drop_first();
    let a = run_cells(start, r, w, h);
    assert(single_axis(runs[0].cell()));
    assert(a.len() > 0);
    if !is_jump(start, r, w, h) {
        assert(a.last() == step_cell(start, r, w, h));
    }
    if rest.len() > 0 {
        assert forall|i: int| 0 <= i < rest.len() implies single_axis(#[trigger] rest[i].cell()) by {
            assert(rest[i] == runs[i + 1]);
        }
        lemma_cells_from_last(step_cell(start, r, w, h), rest, w, h);
        let b = cells_from(step_cell(start, r, w, h), rest, w, h);
        assert((a + b).last() == b.last());
    } else {
        assert(end_from(step_cell(start, r, w, h), rest, w, h) == step_cell(start, r, w, h));
        assert(cells_from(step_cell(start, r, w, h), rest, w, h).len() == 0);
        assert(cells_from(start, runs, w, h) =~= a);
    }
}

/// Total length of a chain grows by the length of an appended run.
pub proof fn lemma_runs_total_push(runs: Seq<GameState_Coord>, r: GameState_Coord)
    ensures
        runs_total(runs.push(r)) == runs_total(runs) + run_len(r.cell()),
    decreases runs.len(),
{
    if runs.len() == 0 {
        assert(runs.push(r).drop_first() =~= Seq::<GameState_Coord>::empty());
        assert(runs.push(r)[0] == r);
        assert(runs_total(runs.push(r).drop_first()) == 0);
        assert(runs_total(runs) == 0);
    } else {
        assert(runs.push(r).drop_first() =~= runs.drop_first().push(r));
        assert(runs.push(r)[0] == runs[0]);
        lemma_runs_total_push(runs.drop_first(), r);
    }
}

/// Stepping back from a freshly moved head, wraparound included, lands on
/// the cell the head left.
proof fn lemma_back_step(oh: (int, int), d: Direction, w: int, h: int)
    requires
        board_ok(w, h),
        interior(oh, w, h),
    ensures
        run_cells(step_cell(oh, d.delta(), w, h), (-d.delta().0, -d.delta().1), w, h) =~= seq![oh],
        step_cell(step_cell(oh, d.delta(), w, h), (-d.delta().0, -d.delta().1), w, h) == oh,
{
    let nh = step_cell(oh, d.delta(), w, h);
    let back = (-d.delta().0, -d.delta().1);
    if !is_jump(nh, back, w, h) {
        assert(run_len(back) == 1);
        assert(run_cells(nh, back, w, h)[0] == oh);
    }
}

/// Whether `p` is among the cells covered by the run `run` from `cur`.
fn run_contains(cur: &GameState_Coord, run: &GameState_Coord, p: &GameState_Coord, width: i32, height: i32) -> (r: bool)
    requires
        board_ok(width as int, height as int),
        single_axis(run.cell()),
    ensures
        r == run_cells(cur.cell(), run.cell(), width as int, height as int).contains(p.cell()),
{
    let ghost w = width as int;
    let ghost h = height as int;
    let ghost s = run_cells(cur.cell(), run.cell(), w, h);
    if cur.check_next_for_jump(run, width, height) {
        let land = cur.next(run, width, height);
        let hit = land.x == p.x && land.y == p.y;
        proof {
            if hit {
                assert(s[0] == p.cell());
            }
        }
        return hit;
    }
    let cx: i64 = cur.x as i64;
    let cy: i64 = cur.y as i64;
    let rx: i64 = run.x as i64;
    let ry: i64 = run.y as i64;
    let px: i64 = p.x as i64;
    let py: i64 = p.y as i64;
    let hit = if ry == 0 {
        py == cy && (if rx > 0 {
            cx < px && px <= cx + rx
        } else {
            cx + rx <= px && px < cx
        })
    } else {
        px == cx && (if ry > 0 {
            cy < py && py <= cy + ry
        } else {
            cy + ry <= py && py < cy
        })
    };
    proof {
        if hit {
            let k = if ry == 0 {
                abs(px - cx) - 1
            } else {
                abs(py - cy) - 1
            };
            assert(s[k] == p.cell());
        } else {
            assert forall|k: int| 0 <= k < s.len() implies s[k] != p.cell() by {}
        }
    }
    hit
}

/// A snake: its head cell followed by straight runs toward the tail.
#[allow(non_camel_case_types)]
#[derive(Debug)]
pub struct GameState_Snake {
    pub player_id: i32,
    pub points: Vec<GameState_Coord>,
    pub state: SnakeState,
    pub head_direction: Direction,
}

impl GameState_Snake {
    /// A head is present and every run moves along exactly one axis.
    pub open spec fn wf(&self) -> bool {
        &&& self.points.len() >= 1
        &&& forall|i: int| 1 <= i < self.points.len() ==> single_axis(#[trigger] self.points[i].cell())
    }

    pub open spec fn head(&self) -> (int, int) {
        self.points[0].cell()
    }

    pub open spec fn runs(&self) -> Seq<GameState_Coord> {
        self.points@.drop_first()
    }

    /// Every cell of the body, head first.
    pub open spec fn cells(&self, w: int, h: int) -> Seq<(int, int)> {
        seq![self.head()] + cells_from(self.head(), self.runs(), w, h)
    }

    /// Body length in cells, as the run-length encoding counts it.
    pub open spec fn length(&self) -> int {
        1 + runs_total(self.runs())
    }

    pub open spec fn inside(&self, w: int, h: int) -> bool {
        interior(self.head(), w, h)
    }

    /// Heading after a move that takes `dir` if given.
    pub open spec fn heading(&self, dir: Option<Direction>) -> Direction {
        match dir {
            Some(d) => d,
            None => self.head_direction,
        }
    }

    /// A two-cell snake at `(init_x, init_y)` heading right, its tail one
    /// cell to the left.
    pub fn new_custom(init_x: i32, init_y: i32, id: i32) -> (r: GameState_Snake)
        ensures
            r.wf(),
            r.player_id == id,
            r.points.len() == 2,
            r.points[0].cell() == (init_x as int, init_y as int),
            r.points[1].cell() == (-1int, 0int),
            r.head_direction == Direction::Right,
            r.state == SnakeState::Alive,
            r.length() == 2,
    {
        let mut points: Vec<GameState_Coord> = Vec::new();
        points.push(GameState_Coord::new_custom(init_x, init_y));
        points.push(GameState_Coord::new_custom(-1, 0));
        let r = GameState_Snake {
            player_id: id,
            points,
            state: SnakeState::Alive,
            head_direction: Direction::Right,
        };
        proof {
            assert(r.runs().drop_first().len() == 0);
            assert(runs_total(r.runs().drop_first()) == 0);
            assert(r.runs()[0] == r.points[1]);
            assert(runs_total(r.runs()) == 1);
        }
        r
    }

    /// A field-by-field copy.
    pub fn duplicate(&self) -> (r: GameState_Snake)
        ensures
            r.player_id == self.player_id,
            r.points@ == self.points@,
            r.state == self.state,
            r.head_direction == self.head_direction,
    {
        let mut points: Vec<GameState_Coord> = Vec::new();
        let mut i: usize = 0;
        while i < self.points.len()
            invariant
                i <= self.points.len(),
                points@ == self.points@.subrange(0, i as int),
            decreases self.points.len() - i,
        {
            points.push(self.points[i]);
            proof {
                assert(self.points@.subrange(0, i + 1) =~= self.points@.subrange(0, i as int).push(self.points[i as int]));
            }
            i += 1;
        }
        proof {
            assert(self.points@.subrange(0, self.points.len() as int) =~= self.points@);
        }
        GameState_Snake { player_id: self.player_id, points, state: self.state, head_direction: self.head_direction }
    }

    /// Checks the representation invariant at run time.
    pub fn is_well_formed(&self) -> (r: bool)
        ensures
            r == self.wf(),
    {
        if self.points.len() == 0 {
            return false;
        }
        let mut i: usize = 1;
        while i < self.points.len()
            invariant
                1 <= i <= self.points.len(),
                forall|q: int| 1 <= q < i ==> single_axis(#[trigger] self.points[q].cell()),
            decreases self.points.len() - i,
        {
            if (self.points[i].x == 0) == (self.points[i].y == 0) {
                assert(!single_axis(self.points[i as int].cell()));
                return false;
            }
            i += 1;
        }
        true
    }

    pub fn get_head_position(&self) -> (r: &GameState_Coord)
        requires
            self.wf(),
        ensures
            *r == self.points[0],
    {
        &self.points[0]
    }

    pub fn next_head_position(&self, dir: Option<Direction>, width: i32, height: i32) -> (r: GameState_Coord)
        requires
            self.wf(),
            board_ok(width as int, height as int),
        ensures
            r.cell() == step_cell(self.head(), self.heading(dir).delta(), width as int, height as int),
    {
        let mut moving_dir = self.head_direction;
        match dir {
            Some(d) => moving_dir = d,
            None => {},
        }
        self.get_head_position().next_with_dir(moving_dir, width, height)
    }

    /// Pushes a new head one step along the (possibly changed) heading; the
    /// tail stays where it is.
    pub fn move_forward_except_tail(&mut self, dir: Option<Direction>, width: i32, height: i32)
        requires
            old(self).wf(),
            old(self).inside(width as int, height as int),
            board_ok(width as int, height as int),
        ensures
            final(self).head_direction == old(self).heading(dir),
            final(self).player_id == old(self).player_id,
            final(self).state == old(self).state,
            final(self).points@ == forward_points(old(self).points@, old(self).heading(dir), width as int, height as int),
            final(self).points.len() == old(self).points.len() + 1,
            final(self).head() == step_cell(old(self).head(), old(self).heading(dir).delta(), width as int, height as int),
            final(self).points[1].cell() == (-old(self).heading(dir).delta().0, -old(self).heading(dir).delta().1),
            final(self).runs().drop_first() == old(self).runs(),
            final(self).wf(),
            final(self).inside(width as int, height as int),
            final(self).cells(width as int, height as int) == seq![final(self).head()] + old(self).cells(width as int, height as int),
            final(self).length() == old(self).length() + 1,
    {
        let ghost w = width as int;
        let ghost h = height as int;
        let ghost before = *self;
        match dir {
            Some(d) => self.head_direction = d,
            None => {},
        }
        let delta = self.head_direction.get_delta();
        let head = self.points.remove(0);
        let back = delta.reverse();
        self.points.insert(0, back);
        let new_head = head.next(&delta, width, height);
        self.points.insert(0, new_head);
        proof {
            let d = before.heading(dir);
            assert(self.points@ =~= seq![new_head, back] + before.runs());
            assert(self.points@ =~= forward_points(before.points@, d, w, h));
            assert(self.runs() =~= seq![back] + before.runs());
            assert(self.runs().drop_first() =~= before.runs());
            assert(self.runs()[0] == back);
            assert forall|i: int| 1 <= i < self.points.len() implies single_axis(#[trigger] self.points[i].cell()) by {
                if i >= 2 {
                    assert(self.points[i] == before.points[i - 1]);
                }
            }
            lemma_back_step(before.head(), d, w, h);
            assert(self.cells(w, h) =~= seq![self.head()] + before.cells(w, h));
        }
    }

    /// Retracts the tail by one unit of length, dropping the last run once
    /// it is used up.
    pub fn move_tail(&mut self)
        requires
            old(self).wf(),
            old(self).points.len() >= 2,
        ensures
            final(self).head_direction == old(self).head_direction,
            final(self).player_id == old(self).player_id,
            final(self).state == old(self).state,
            final(self).points[0] == old(self).points[0],
            final(self).points@ == tail_points(old(self).points@),
            ({
                let last = old(self).points@.last().cell();
                let sx = shorten_axis(last.0);
                let sy = shorten_axis(last.1);
                if sx == 0 && sy == 0 {
                    final(self).points@ == old(self).points@.drop_last()
                } else {
                    &&& final(self).points@.drop_last() == old(self).points@.drop_last()
                    &&& final(self).points.len() == old(self).points.len()
                    &&& final(self).points@.last().cell() == (sx, sy)
                }
            }),
            final(self).wf(),
            final(self).length() == old(self).length() - 1,
    {
        let ghost before = *self;
        let n = self.points.len();
        let mut tail = self.points[n - 1];
        if tail.x > 0 {
            tail.x = tail.x - 1;
        }
        if tail.x < 0 {
            tail.x = tail.x + 1;
        }
        if tail.y > 0 {
            tail.y = tail.y - 1;
        }
        if tail.y < 0 {
            tail.y = tail.y + 1;
        }
        self.points.pop();
        if tail.x != 0 || tail.y != 0 {
            self.points.push(tail);
        }
        proof {
            let last = before.points[n - 1];
            assert(single_axis(last.cell()));
            assert(before.runs() =~= before.runs().drop_last().push(last));
            lemma_runs_total_push(before.runs().drop_last(), last);
            if tail.x != 0 || tail.y != 0 {
                assert(self.points@ =~= tail_points(before.points@));
                assert(self.runs() =~= before.runs().drop_last().push(tail));
                lemma_runs_total_push(before.runs().drop_last(), tail);
                assert(self.points@.drop_last() =~= before.points@.drop_last());
                assert forall|i: int| 1 <= i < self.points.len() implies single_axis(#[trigger] self.points[i].cell()) by {
                    if i < n - 1 {
                        assert(self.points[i] == before.points[i]);
                    }
                }
            } else {
                assert(self.points@ =~= tail_points(before.points@));
                assert(self.runs() =~= before.runs().drop_last());
                assert forall|i: int| 1 <= i < self.points.len() implies single_axis(#[trigger] self.points[i].cell()) by {
                    assert(self.points[i] == before.points[i]);
                }
            }
        }
    }

    /// Whether `point` is covered by the body behind the head.
    pub fn has_point_except_head_unoptimized(&self, point: &GameState_Coord, width: i32, height: i32) -> (r: bool)
        requires
            self.wf(),
            board_ok(width as int, height as int),
        ensures
            r == cells_from(self.head(), self.runs(), width as int, height as int).contains(point.cell()),
    {
        let ghost w = width as int;
        let ghost h = height as int;
        let n = self.points.len();
        let mut cur = self.points[0];
        let mut i: usize = 1;
        proof {
            assert(self.runs() =~= self.points@.subrange(1, n as int));
        }
        while i < n
            invariant
                1 <= i <= n,
                n == self.points.len(),
                self.wf(),
                board_ok(width as int, height as int),
                w == width as int,
                h == height as int,
                cells_from(self.head(), self.runs(), w, h).contains(point.cell())
                    == cells_from(cur.cell(), self.points@.subrange(i as int, n as int), w, h).contains(point.cell()),
            decreases n - i,
        {
            let run = self.points[i];
            proof {
                let rest = self.points@.subrange(i as int, n as int);
                assert(rest.drop_first() =~= self.points@.subrange(i + 1, n as int));
                assert(rest[0] == run);
                lemma_concat_contains(
                    run_cells(cur.cell(), run.cell(), w, h),
                    cells_from(step_cell(cur.cell(), run.cell(), w, h), rest.drop_first(), w, h),
                    point.cell(),
                );
            }
            if run_contains(&cur, &run, point, width, height) {
                return true;
            }
            cur = cur.next(&run, width, height);
            i += 1;
        }
        false
    }

    pub fn is_overlap_except_head(&self, coord: &GameState_Coord, width: i32, height: i32) -> (r: bool)
        requires
            self.wf(),
            board_ok(width as int, height as int),
        ensures
            r == cells_from(self.head(), self.runs(), width as int, height as int).contains(coord.cell()),
    {
        self.has_point_except_head_unoptimized(coord, width, height)
    }

    /// Whether `coord` is any cell of the body, the head included.
    pub fn is_overlap(&self, coord: &GameState_Coord, width: i32, height: i32) -> (r: bool)
        requires
            self.wf(),
            board_ok(width as int, height as int),
        ensures
            r == self.cells(width as int, height as int).contains(coord.cell()),
    {
        proof {
            lemma_concat_contains(
                seq![self.head()],
                cells_from(self.head(), self.runs(), width as int, height as int),
                coord.cell(),
            );
            assert(seq![self.head()][0] == self.head());
        }
        let head = self.get_head_position();
        if head.x == coord.x && head.y == coord.y {
            return true;
        }
        self.is_overlap_except_head(coord, width, height)
    }

    /// The last cell of the body.
    pub fn get_tail_position(&self, width: i32, height: i32) -> (r: GameState_Coord)
        requires
            self.wf(),
            board_ok(width as int, height as int),
        ensures
            r.cell() == self.cells(width as int, height as int).last(),
    {
        let ghost w = width as int;
        let ghost h = height as int;
        let n = self.points.len();
        let mut cur = self.points[0];
        let mut i: usize = 1;
        proof {
            assert(self.runs() =~= self.points@.subrange(1, n as int));
        }
        while i < n
            invariant
                1 <= i <= n,
                n == self.points.len(),
                self.wf(),
                board_ok(width as int, height as int),
                w == width as int,
                h == height as int,
                end_from(self.head(), self.runs(), w, h) == end_from(cur.cell(), self.points@.subrange(i as int, n as int), w, h),
            decreases n - i,
        {
            let run = self.points[i];
            proof {
                let rest = self.points@.subrange(i as int, n as int);
                assert(rest.drop_first() =~= self.points@.subrange(i + 1, n as int));
                assert(rest[0] == run);
            }
            cur = cur.next(&run, width, height);
            i += 1;
        }
        proof {
            assert(self.points@.subrange(n as int, n as int).len() == 0);
            if n > 1 {
                assert forall|k: int| 0 <= k < self.runs().len() implies single_axis(#[trigger] self.runs()[k].cell()) by {
                    assert(self.runs()[k] == self.points[k + 1]);
                }
                lemma_cells_from_last(self.head(), self.runs(), w, h);
            } else {
                assert(cells_from(self.head(), self.runs(), w, h).len() == 0);
                assert(self.cells(w, h) =~= seq![self.head()]);
            }
        }
        cur
    }
}

} // verus!
