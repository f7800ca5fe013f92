use vstd::prelude::*;
use vstd::string::StringExecFns;

use std::collections::HashMap;

use crate::config::GameConfig;
use crate::coord::{board_ok, interior, step_cell, GameState_Coord};
use crate::direction::Direction;
use crate::player::{GamePlayer, NodeRole};
use crate::random::random_in_range;
use crate::snake::{cells_from, forward_points, lemma_cells_from_interior, tail_points, GameState_Snake};

verus! {

broadcast use vstd::std_specs::hash::group_hash_axioms;

/// The replicated game: the unit the master advances and broadcasts.
#[derive(Debug)]
pub struct GameState {
    pub state_order: u64,
    pub snakes: Vec<GameState_Snake>,
    pub foods: Vec<GameState_Coord>,
    pub players: Vec<GamePlayer>,
}

/// Two player records agree on everything but the score.
pub open spec fn same_but_score(a: GamePlayer, b: GamePlayer) -> bool {
    &&& a.name@ == b.name@
    &&& a.id == b.id
    &&& a.ip_address@ == b.ip_address@
    &&& a.port == b.port
    &&& a.role == b.role
    &&& a.player_type == b.player_type
}

/// What a node advertises about its game in reply to a discovery.
#[derive(Debug)]
pub struct GameAnnouncement {
    pub players: Vec<GamePlayer>,
    pub config: GameConfig,
    pub can_join: bool,
    pub game_name: String,
}

/// `a` is a field-by-field copy of `b`.
pub open spec fn same_player(a: GamePlayer, b: GamePlayer) -> bool {
    same_identity(a, b) && a.role == b.role && a.score == b.score
}

/// The name a game is announced under: its first master's name followed by
/// " Game", or "Unnamed Game" when it has no master.
pub open spec fn announced_name(players: Seq<GamePlayer>) -> Seq<char>
    decreases players.len(),
{
    if players.len() == 0 {
        "Unnamed Game"@
    } else if players[0].role == NodeRole::Master {
        players[0].name@ + " Game"@
    } else {
        announced_name(players.drop_first())
    }
}

/// Two player records name the same participant.
pub open spec fn same_identity(a: GamePlayer, b: GamePlayer) -> bool {
    &&& a.name@ == b.name@
    &&& a.id == b.id
    &&& a.ip_address@ == b.ip_address@
    &&& a.port == b.port
    &&& a.player_type == b.player_type
}

/// Two player records agree on everything but the role.
pub open spec fn same_but_role(a: GamePlayer, b: GamePlayer) -> bool {
    &&& a.name@ == b.name@
    &&& a.id == b.id
    &&& a.ip_address@ == b.ip_address@
    &&& a.port == b.port
    &&& a.player_type == b.player_type
    &&& a.score == b.score
}

/// The head of snake `i` lies on another snake, or on its own body behind
/// the head.
pub open spec fn collides(snakes: Seq<GameState_Snake>, i: int, w: int, h: int) -> bool {
    ||| cells_from(snakes[i].head(), snakes[i].runs(), w, h).contains(snakes[i].head())
    ||| exists|j: int| 0 <= j < snakes.len() && j != i && #[trigger] snakes[j].cells(w, h).contains(snakes[i].head())
}

/// The snake of player `id` runs into a body this turn.
pub open spec fn dies(snakes: Seq<GameState_Snake>, id: i32, w: int, h: int) -> bool {
    exists|i: int| 0 <= i < snakes.len() && #[trigger] snakes[i].player_id == id && collides(snakes, i, w, h)
}

pub(crate) fn contains_id(ids: &Vec<i32>, id: i32) -> (r: bool)
    ensures
        r == ids@.contains(id),
{
    let mut i: usize = 0;
    while i < ids.len()
        invariant
            i <= ids.len(),
            forall|q: int| 0 <= q < i ==> ids[q] != id,
        decreases ids.len() - i,
    {
        if ids[i] == id {
            assert(ids@[i as int] == id);
            return true;
        }
        i += 1;
    }
    false
}

/// How many random cells a single food placement tries before giving up.
pub const FOOD_ATTEMPTS: u32 = 1000;

/// Why a turn could not complete.
#[derive(Clone, Copy, Debug, PartialEq, Eq, Structural)]
pub enum EngineError {
    /// No free interior cell was found for a mandated food.
    BoardFull,
    /// The state counter or a score is at the largest value it can hold.
    CounterOverflow,
}

fn all_distinct(v: &Vec<i32>) -> (r: bool)
    ensures
        r == forall|a: int, b: int| 0 <= a < v.len() && 0 <= b < v.len() && a != b ==> v[a] != v[b],
{
    let mut a: usize = 0;
    while a < v.len()
        invariant
            a <= v.len(),
            forall|x: int, y: int| 0 <= x < a && 0 <= y < v.len() && x != y ==> v[x] != v[y],
        decreases v.len() - a,
    {
        let mut b: usize = 0;
        while b < v.len()
            invariant
                a < v.len(),
                b <= v.len(),
                forall|x: int, y: int| 0 <= x < a && 0 <= y < v.len() && x != y ==> v[x] != v[y],
                forall|y: int| 0 <= y < b && a != y ==> v[a as int] != v[y],
            decreases v.len() - b,
        {
            if a != b && v[a] == v[b] {
                return false;
            }
            b += 1;
        }
        a += 1;
    }
    true
}

/// The heading a snake takes this turn: the submitted one if any.
pub open spec fn chosen_dir(dirs: Map<i32, Direction>, s: GameState_Snake) -> Direction {
    if dirs.contains_key(s.player_id) {
        dirs[s.player_id]
    } else {
        s.head_direction
    }
}

/// Where the head of `s` goes this turn.
pub open spec fn new_head(s: GameState_Snake, dirs: Map<i32, Direction>, w: int, h: int) -> (int, int) {
    step_cell(s.head(), chosen_dir(dirs, s).delta(), w, h)
}

/// Some food of `foods` lies on cell `c`.
pub open spec fn food_at(foods: Seq<GameState_Coord>, c: (int, int)) -> bool {
    exists|p: int| 0 <= p < foods.len() && #[trigger] foods[p].cell() == c
}

/// Snake `i` eats this turn: food lies under its new head, and no snake
/// that moves before it has its new head there.
pub open spec fn eats(snakes: Seq<GameState_Snake>, foods: Seq<GameState_Coord>, i: int, dirs: Map<i32, Direction>, w: int, h: int) -> bool {
    &&& food_at(foods, new_head(snakes[i], dirs, w, h))
    &&& forall|j: int| 0 <= j < i ==> new_head(#[trigger] snakes[j], dirs, w, h) != new_head(snakes[i], dirs, w, h)
}

/// The new head of some snake lands on `c` this turn.
pub open spec fn head_lands(snakes: Seq<GameState_Snake>, c: (int, int), dirs: Map<i32, Direction>, w: int, h: int) -> bool {
    exists|j: int| 0 <= j < snakes.len() && new_head(#[trigger] snakes[j], dirs, w, h) == c
}

/// `s` is `old` after its move: grown by one cell when it ate, else with
/// its tail retracted.
pub open spec fn stepped(s: GameState_Snake, old: GameState_Snake, ate: bool, dirs: Map<i32, Direction>, w: int, h: int) -> bool {
    &&& moved_from(s, old, dirs, w, h)
    &&& s.points@ == if ate {
        forward_points(old.points@, chosen_dir(dirs, old), w, h)
    } else {
        tail_points(forward_points(old.points@, chosen_dir(dirs, old), w, h))
    }
    &&& s.length() == old.length() + if ate { 1int } else { 0int }
}

/// Removing the one food on cell `c0` from a list without repeats leaves
/// every other cell as it was.
proof fn lemma_remove_food(foods: Seq<GameState_Coord>, p: int, c0: (int, int))
    requires
        0 <= p < foods.len(),
        foods[p].cell() == c0,
        forall|a: int, b: int| 0 <= a < foods.len() && 0 <= b < foods.len() && a != b ==> #[trigger] foods[a] != #[trigger] foods[b],
    ensures
        forall|c: (int, int)| #[trigger] food_at(foods.remove(p), c) == (food_at(foods, c) && c != c0),
{
    let r = foods.remove(p);
    assert forall|c: (int, int)| #[trigger] food_at(r, c) == (food_at(foods, c) && c != c0) by {
        if food_at(r, c) {
            let q = choose|q: int| 0 <= q < r.len() && #[trigger] r[q].cell() == c;
            let q2 = if q < p { q } else { q + 1 };
            assert(r[q] == foods[q2]);
            if c == c0 {
                assert(foods[q2] == foods[p]);
            }
        }
        if food_at(foods, c) && c != c0 {
            let q = choose|q: int| 0 <= q < foods.len() && #[trigger] foods[q].cell() == c;
            if q < p {
                assert(r[q] == foods[q]);
            } else {
                assert(q != p);
                assert(r[q - 1] == foods[q]);
            }
        }
    }
}

/// `s` is `old` moved one step along its chosen heading.
pub open spec fn moved_from(s: GameState_Snake, old: GameState_Snake, dirs: Map<i32, Direction>, w: int, h: int) -> bool {
    let d = chosen_dir(dirs, old);
    &&& s.player_id == old.player_id
    &&& s.state == old.state
    &&& s.head_direction == d
    &&& s.head() == step_cell(old.head(), d.delta(), w, h)
    &&& s.points@ == forward_points(old.points@, d, w, h) || s.points@ == tail_points(
        forward_points(old.points@, d, w, h),
    )
}

impl GameState {
    pub open spec fn has_player(&self, id: i32) -> bool {
        exists|k: int| 0 <= k < self.players.len() && #[trigger] self.players[k].id == id
    }

    /// A player with this id is present and not a viewer.
    pub open spec fn live_player(&self, id: i32) -> bool {
        exists|k: int|
            0 <= k < self.players.len() && #[trigger] self.players[k].id == id && self.players[k].role
                != NodeRole::Viewer
    }

    pub open spec fn has_snake(&self, id: i32) -> bool {
        exists|i: int| 0 <= i < self.snakes.len() && #[trigger] self.snakes[i].player_id == id
    }

    pub open spec fn is_viewer(&self, id: i32) -> bool {
        exists|k: int|
            0 <= k < self.players.len() && #[trigger] self.players[k].id == id && self.players[k].role
                == NodeRole::Viewer
    }

    pub open spec fn has_food(&self, c: (int, int)) -> bool {
        exists|p: int| 0 <= p < self.foods.len() && #[trigger] self.foods[p].cell() == c
    }

    /// Structural invariant: well-formed snakes, unique ids, every snake
    /// owned by a live player, no food listed twice.
    pub open spec fn wf(&self) -> bool {
        &&& forall|i: int| 0 <= i < self.snakes.len() ==> (#[trigger] self.snakes[i]).wf()
        &&& forall|i: int, j: int|
            0 <= i < self.snakes.len() && 0 <= j < self.snakes.len() && i != j
                ==> #[trigger] self.snakes[i].player_id != #[trigger] self.snakes[j].player_id
        &&& forall|i: int, j: int|
            0 <= i < self.players.len() && 0 <= j < self.players.len() && i != j
                ==> #[trigger] self.players[i].id != #[trigger] self.players[j].id
        &&& forall|i: int| 0 <= i < self.snakes.len() ==> self.live_player(#[trigger] self.snakes[i].player_id)
        &&& forall|p: int, q: int|
            0 <= p < self.foods.len() && 0 <= q < self.foods.len() && p != q
                ==> #[trigger] self.foods[p] != #[trigger] self.foods[q]
    }

    /// Every head and every food lies in the interior of the board.
    pub open spec fn inside(&self, w: int, h: int) -> bool {
        &&& forall|i: int| 0 <= i < self.snakes.len() ==> (#[trigger] self.snakes[i]).inside(w, h)
        &&& forall|p: int| 0 <= p < self.foods.len() ==> interior(#[trigger] self.foods[p].cell(), w, h)
    }

    pub open spec fn score_can_grow(&self, id: i32) -> bool {
        forall|k: int| 0 <= k < self.players.len() && #[trigger] self.players[k].id == id ==> self.players[k].score < i32::MAX
    }

    pub open spec fn scores_below_max(&self) -> bool {
        forall|k: int| 0 <= k < self.players.len() ==> #[trigger] self.players[k].score < i32::MAX
    }

    pub fn find_player(&self, id: i32) -> (r: Option<usize>)
        ensures
            match r {
                Some(k) => k < self.players.len() && self.players[k as int].id == id,
                None => !self.has_player(id),
            },
    {
        let mut k: usize = 0;
        while k < self.players.len()
            invariant
                k <= self.players.len(),
                forall|q: int| 0 <= q < k ==> #[trigger] self.players[q].id != id,
            decreases self.players.len() - k,
        {
            if self.players[k].id == id {
                return Some(k);
            }
            k += 1;
        }
        None
    }

    pub fn find_snake(&self, id: i32) -> (r: Option<usize>)
        ensures
            match r {
                Some(i) => i < self.snakes.len() && self.snakes[i as int].player_id == id,
                None => forall|i: int| 0 <= i < self.snakes.len() ==> #[trigger] self.snakes[i].player_id != id,
            },
    {
        let mut i: usize = 0;
        while i < self.snakes.len()
            invariant
                i <= self.snakes.len(),
                forall|q: int| 0 <= q < i ==> #[trigger] self.snakes[q].player_id != id,
            decreases self.snakes.len() - i,
        {
            if self.snakes[i].player_id == id {
                return Some(i);
            }
            i += 1;
        }
        None
    }

    /// The acceptance rule of steer requests, as `steer_validate` decides it.
    pub open spec fn steer_accepted(&self, direction: Direction, sender_id: i32) -> bool {
        !(self.is_viewer(sender_id) || exists|i: int|
            0 <= i < self.snakes.len() && #[trigger] self.snakes[i].player_id == sender_id
                && self.snakes[i].head_direction.spec_opposite() == direction)
    }

    /// Whether every score can still grow by one.
    pub fn scores_ok(&self) -> (r: bool)
        ensures
            r == self.scores_below_max(),
    {
        let mut k: usize = 0;
        while k < self.players.len()
            invariant
                k <= self.players.len(),
                forall|q: int| 0 <= q < k ==> #[trigger] self.players[q].score < i32::MAX,
            decreases self.players.len() - k,
        {
            if self.players[k].score == i32::MAX {
                return false;
            }
            k += 1;
        }
        true
    }

    /// The id of the player reachable at `ip`:`port`, if any.
    pub fn find_player_by_address(&self, ip: &String, port: i32) -> (r: Option<i32>)
        ensures
            match r {
                Some(id) => exists|k: int|
                    0 <= k < self.players.len() && #[trigger] self.players[k].id == id && self.players[k].ip_address@ == ip@
                        && self.players[k].port == port,
                None => forall|k: int|
                    0 <= k < self.players.len() ==> !(#[trigger] self.players[k].ip_address@ == ip@ && self.players[k].port
                        == port),
            },
    {
        let mut k: usize = 0;
        while k < self.players.len()
            invariant
                k <= self.players.len(),
                forall|q: int|
                    0 <= q < k ==> !(#[trigger] self.players[q].ip_address@ == ip@ && self.players[q].port == port),
            decreases self.players.len() - k,
        {
            if self.players[k].port == port && self.players[k].ip_address == *ip {
                return Some(self.players[k].id);
            }
            k += 1;
        }
        None
    }

    /// A steer request is refused when its sender is a viewer, or when it
    /// points exactly against the sender's snake's heading.
    pub fn steer_validate(&self, direction: Direction, sender_id: i32) -> (r: bool)
        ensures
            r == self.steer_accepted(direction, sender_id),
    {
        let mut k: usize = 0;
        while k < self.players.len()
            invariant
                k <= self.players.len(),
                forall|q: int|
                    0 <= q < k ==> !(#[trigger] self.players[q].id == sender_id && self.players[q].role
                        == NodeRole::Viewer),
            decreases self.players.len() - k,
        {
            if self.players[k].id == sender_id && self.players[k].role == NodeRole::Viewer {
                return false;
            }
            k += 1;
        }
        let mut i: usize = 0;
        while i < self.snakes.len()
            invariant
                i <= self.snakes.len(),
                !self.is_viewer(sender_id),
                forall|q: int|
                    0 <= q < i ==> !(#[trigger] self.snakes[q].player_id == sender_id
                        && self.snakes[q].head_direction.spec_opposite() == direction),
            decreases self.snakes.len() - i,
        {
            if self.snakes[i].player_id == sender_id && self.snakes[i].head_direction.opposite() == direction {
                return false;
            }
            i += 1;
        }
        true
    }

    pub fn find_food(&self, c: &GameState_Coord) -> (r: Option<usize>)
        ensures
            match r {
                Some(p) => p < self.foods.len() && self.foods[p as int].cell() == c.cell(),
                None => !self.has_food(c.cell()),
            },
    {
        let mut p: usize = 0;
        while p < self.foods.len()
            invariant
                p <= self.foods.len(),
                forall|q: int| 0 <= q < p ==> #[trigger] self.foods[q].cell() != c.cell(),
            decreases self.foods.len() - p,
        {
            if self.foods[p].x == c.x && self.foods[p].y == c.y {
                return Some(p);
            }
            p += 1;
        }
        None
    }

    /// Whether snake `i` survives this turn: its head lies on no other
    /// snake and not on its own body behind the head.
    pub fn check_if_the_snake_alive(&self, i: usize, width: i32, height: i32) -> (r: bool)
        requires
            self.wf(),
            i < self.snakes.len(),
            board_ok(width as int, height as int),
        ensures
            r == !collides(self.snakes@, i as int, width as int, height as int),
    {
        let head = *self.snakes[i].get_head_position();
        let mut j: usize = 0;
        while j < self.snakes.len()
            invariant
                j <= self.snakes.len(),
                i < self.snakes.len(),
                self.wf(),
                board_ok(width as int, height as int),
                head.cell() == self.snakes[i as int].head(),
                j > i ==> !cells_from(self.snakes[i as int].head(), self.snakes[i as int].runs(), width as int, height as int).contains(
                    self.snakes[i as int].head(),
                ),
                forall|q: int|
                    0 <= q < j && q != i ==> !#[trigger] self.snakes[q].cells(width as int, height as int).contains(
                        self.snakes[i as int].head(),
                    ),
            decreases self.snakes.len() - j,
        {
            let hit = if j == i {
                self.snakes[j].is_overlap_except_head(&head, width, height)
            } else {
                self.snakes[j].is_overlap(&head, width, height)
            };
            if hit {
                return false;
            }
            j += 1;
        }
        true
    }

    /// If snake `i`'s head is on a food cell, that food is eaten: it leaves
    /// the food list and the owner scores one point.
    pub fn process_eating(&mut self, i: usize) -> (r: bool)
        requires
            old(self).wf(),
            i < old(self).snakes.len(),
            old(self).score_can_grow(old(self).snakes[i as int].player_id),
        ensures
            r == old(self).has_food(old(self).snakes[i as int].head()),
            final(self).state_order == old(self).state_order,
            final(self).snakes@ == old(self).snakes@,
            final(self).players.len() == old(self).players.len(),
            forall|k: int|
                0 <= k < old(self).players.len() ==> same_but_score(#[trigger] final(self).players[k], old(self).players[k])
                    && final(self).players[k].score == old(self).players[k].score + if r
                    && old(self).players[k].id == old(self).snakes[i as int].player_id {
                    1int
                } else {
                    0int
                },
            r ==> exists|p: int|
                0 <= p < old(self).foods.len() && #[trigger] old(self).foods[p].cell() == old(self).snakes[i as int].head()
                    && final(self).foods@ == old(self).foods@.remove(p),
            !r ==> final(self).foods@ == old(self).foods@,
            final(self).wf(),
    {
        let ghost before = *self;
        let head = *self.snakes[i].get_head_position();
        let id = self.snakes[i].player_id;
        let p = match self.find_food(&head) {
            Some(p) => p,
            None => {
                return false;
            },
        };
        match self.find_player(id) {
            Some(k) => {
                let mut pl = self.players.remove(k);
                pl.score = pl.score + 1;
                self.players.insert(k, pl);
                proof {
                    assert forall|q: int| 0 <= q < before.players.len() && q != k implies #[trigger] self.players[q]
                        == before.players[q] by {
                        if q < k {
                            assert(self.players[q] == before.players[q]);
                        } else {
                            assert(self.players[q] == before.players[q]);
                        }
                    }
                }
            },
            None => {},
        }
        self.foods.remove(p);
        proof {
            assert forall|a: int, b: int|
                0 <= a < self.foods.len() && 0 <= b < self.foods.len() && a != b implies #[trigger] self.foods[a]
                != #[trigger] self.foods[b] by {
                let a2 = if a < p { a } else { a + 1 };
                let b2 = if b < p { b } else { b + 1 };
                assert(self.foods[a] == before.foods[a2]);
                assert(self.foods[b] == before.foods[b2]);
            }
            assert forall|j: int| 0 <= j < self.snakes.len() implies self.live_player(#[trigger] self.snakes[j].player_id) by {
                let k = choose|k: int| 0 <= k < before.players.len() && #[trigger] before.players[k].id == before.snakes[j].player_id
                    && before.players[k].role != NodeRole::Viewer;
                assert(self.players[k].id == before.players[k].id);
            }
        }
        true
    }

    /// Moves snake `i` one step along its chosen heading; it keeps its tail
    /// (and so grows by one cell) exactly when its new head is on food.
    pub fn move_snake(&mut self, i: usize, dirs: &HashMap<i32, Direction>, width: i32, height: i32) -> (r: bool)
        requires
            old(self).wf(),
            old(self).inside(width as int, height as int),
            i < old(self).snakes.len(),
            old(self).score_can_grow(old(self).snakes[i as int].player_id),
            board_ok(width as int, height as int),
        ensures
            ({
                let w = width as int;
                let h = height as int;
                let sn = old(self).snakes[i as int];
                let d = chosen_dir(dirs@, sn);
                let nh = step_cell(sn.head(), d.delta(), w, h);
                let moved = final(self).snakes[i as int];
                &&& r == old(self).has_food(nh)
                &&& moved.player_id == sn.player_id
                &&& moved.state == sn.state
                &&& moved.head_direction == d
                &&& moved.head() == nh
                &&& r ==> moved.points@ == forward_points(sn.points@, d, w, h)
                &&& !r ==> moved.points@ == tail_points(forward_points(sn.points@, d, w, h))
                &&& r ==> moved.length() == sn.length() + 1
                &&& r ==> moved.cells(w, h) == seq![nh] + sn.cells(w, h)
                &&& !r ==> moved.length() == sn.length()
                &&& r ==> exists|p: int|
                    0 <= p < old(self).foods.len() && #[trigger] old(self).foods[p].cell() == nh
                        && final(self).foods@ == old(self).foods@.remove(p)
                &&& !r ==> final(self).foods@ == old(self).foods@
                &&& forall|k: int|
                    0 <= k < old(self).players.len() ==> same_but_score(#[trigger] final(self).players[k], old(self).players[k])
                        && final(self).players[k].score == old(self).players[k].score + if r && old(self).players[k].id
                        == sn.player_id {
                        1int
                    } else {
                        0int
                    }
            }),
            final(self).state_order == old(self).state_order,
            final(self).snakes.len() == old(self).snakes.len(),
            final(self).players.len() == old(self).players.len(),
            forall|j: int| 0 <= j < old(self).snakes.len() && j != i ==> #[trigger] final(self).snakes[j] == old(self).snakes[j],
            final(self).wf(),
            final(self).inside(width as int, height as int),
    {
        let ghost w = width as int;
        let ghost h = height as int;
        let ghost before = *self;
        let id = self.snakes[i].player_id;
        let dir = match dirs.get(&id) {
            Some(d) => Some(*d),
            None => None,
        };
        let mut s = self.snakes.remove(i);
        s.move_forward_except_tail(dir, width, height);
        self.snakes.insert(i, s);
        let ghost grown = *self;
        proof {
            assert(before.snakes@.remove(i as int).insert(i as int, s) =~= before.snakes@.update(i as int, s));
            assert(self.snakes@ =~= before.snakes@.update(i as int, s));
            assert(s.heading(dir) == chosen_dir(dirs@, before.snakes[i as int]));
            assert forall|a: int, b: int|
                0 <= a < self.snakes.len() && 0 <= b < self.snakes.len() && a != b implies #[trigger] self.snakes[a].player_id
                != #[trigger] self.snakes[b].player_id by {
                assert(self.snakes[a].player_id == before.snakes[a].player_id);
                assert(self.snakes[b].player_id == before.snakes[b].player_id);
            }
            assert forall|j: int| 0 <= j < self.snakes.len() implies self.live_player(#[trigger] self.snakes[j].player_id) by {
                assert(self.snakes[j].player_id == before.snakes[j].player_id);
                let k = choose|k: int| 0 <= k < before.players.len() && #[trigger] before.players[k].id == before.snakes[j].player_id
                    && before.players[k].role != NodeRole::Viewer;
                assert(self.players[k].id == before.players[k].id);
            }
            assert forall|j: int| 0 <= j < self.snakes.len() implies (#[trigger] self.snakes[j]).wf() by {
                if j != i {
                    assert(self.snakes[j] == before.snakes[j]);
                }
            }
        }
        let ate = self.process_eating(i);
        if !ate {
            let mut t = self.snakes.remove(i);
            t.move_tail();
            self.snakes.insert(i, t);
            proof {
                assert(grown.snakes@.remove(i as int).insert(i as int, t) =~= grown.snakes@.update(i as int, t));
                assert(self.snakes@ =~= grown.snakes@.update(i as int, t));
                assert forall|a: int, b: int|
                    0 <= a < self.snakes.len() && 0 <= b < self.snakes.len() && a != b implies #[trigger] self.snakes[a].player_id
                    != #[trigger] self.snakes[b].player_id by {
                    assert(self.snakes[a].player_id == grown.snakes[a].player_id);
                    assert(self.snakes[b].player_id == grown.snakes[b].player_id);
                }
                assert forall|j: int| 0 <= j < self.snakes.len() implies self.live_player(#[trigger] self.snakes[j].player_id) by {
                    assert(self.snakes[j].player_id == grown.snakes[j].player_id);
                    let k = choose|k: int| 0 <= k < grown.players.len() && #[trigger] grown.players[k].id == grown.snakes[j].player_id
                        && grown.players[k].role != NodeRole::Viewer;
                    assert(self.players[k].id == grown.players[k].id);
                }
                assert forall|j: int| 0 <= j < self.snakes.len() implies (#[trigger] self.snakes[j]).wf() by {
                    if j != i {
                        assert(self.snakes[j] == grown.snakes[j]);
                    }
                }
            }
        }
        proof {
            assert forall|j: int| 0 <= j < self.snakes.len() implies (#[trigger] self.snakes[j]).inside(w, h) by {
                if j != i {
                    assert(self.snakes[j] == before.snakes[j]);
                }
            }
            assert forall|p: int| 0 <= p < self.foods.len() implies interior(#[trigger] self.foods[p].cell(), w, h) by {
                if ate {
                    let q = choose|q: int|
                        0 <= q < grown.foods.len() && #[trigger] grown.foods[q].cell() == grown.snakes[i as int].head()
                            && self.foods@ == grown.foods@.remove(q);
                    if p < q {
                        assert(self.foods[p] == grown.foods[p]);
                    } else {
                        assert(self.foods[p] == grown.foods[p + 1]);
                    }
                }
            }
        }
        ate
    }

    /// Demotes the player `player_id` to viewer and takes its snake off
    /// the board.
    pub fn kill_player(&mut self, player_id: i32)
        requires
            old(self).wf(),
        ensures
            final(self).state_order == old(self).state_order,
            final(self).foods@ == old(self).foods@,
            final(self).players.len() == old(self).players.len(),
            forall|k: int|
                0 <= k < old(self).players.len() ==> same_but_role(#[trigger] final(self).players[k], old(self).players[k])
                    && final(self).players[k].role == if old(self).players[k].id == player_id {
                    NodeRole::Viewer
                } else {
                    old(self).players[k].role
                },
            forall|j: int|
                0 <= j < old(self).snakes.len() && #[trigger] old(self).snakes[j].player_id == player_id
                    ==> final(self).snakes@ == old(self).snakes@.remove(j),
            (forall|j: int| 0 <= j < old(self).snakes.len() ==> #[trigger] old(self).snakes[j].player_id != player_id)
                ==> final(self).snakes@ == old(self).snakes@,
            final(self).wf(),
            forall|w: int, h: int| #[trigger] old(self).inside(w, h) ==> final(self).inside(w, h),
    {
        let ghost before = *self;
        match self.find_player(player_id) {
            Some(k) => {
                let mut pl = self.players.remove(k);
                pl.role = NodeRole::Viewer;
                self.players.insert(k, pl);
                proof {
                    assert(self.players@ =~= before.players@.update(k as int, pl));
                    assert forall|a: int, b: int|
                        0 <= a < self.players.len() && 0 <= b < self.players.len() && a != b implies #[trigger] self.players[a].id
                        != #[trigger] self.players[b].id by {
                        assert(self.players[a].id == before.players[a].id);
                        assert(self.players[b].id == before.players[b].id);
                    }
                }
                let ghost mid = *self;
                match self.find_snake(player_id) {
                    Some(j) => {
                        self.snakes.remove(j);
                        proof {
                            assert forall|w: int, h: int| before.inside(w, h) implies self.inside(w, h) by {
                                assert forall|q: int| 0 <= q < self.snakes.len() implies (#[trigger] self.snakes[q]).inside(w, h) by {
                                    let q2 = if q < j { q } else { q + 1 };
                                    assert(self.snakes[q] == before.snakes[q2]);
                                }
                            }
                            assert forall|a: int, b: int|
                                0 <= a < self.snakes.len() && 0 <= b < self.snakes.len() && a != b implies #[trigger] self.snakes[a].player_id
                                != #[trigger] self.snakes[b].player_id by {
                                let a2 = if a < j { a } else { a + 1 };
                                let b2 = if b < j { b } else { b + 1 };
                                assert(self.snakes[a] == before.snakes[a2]);
                                assert(self.snakes[b] == before.snakes[b2]);
                            }
                            assert forall|q: int| 0 <= q < self.snakes.len() implies (#[trigger] self.snakes[q]).wf() by {
                                let q2 = if q < j { q } else { q + 1 };
                                assert(self.snakes[q] == before.snakes[q2]);
                            }
                            assert forall|q: int| 0 <= q < self.snakes.len() implies self.live_player(#[trigger] self.snakes[q].player_id) by {
                                let q2 = if q < j { q } else { q + 1 };
                                assert(self.snakes[q] == before.snakes[q2]);
                                assert(q2 != j);
                                let m = choose|m: int| 0 <= m < before.players.len() && #[trigger] before.players[m].id == before.snakes[q2].player_id
                                    && before.players[m].role != NodeRole::Viewer;
                                assert(m != k);
                                assert(self.players[m] == before.players[m]);
                            }
                        }
                    },
                    None => {
                        proof {
                            assert forall|q: int| 0 <= q < self.snakes.len() implies self.live_player(#[trigger] self.snakes[q].player_id) by {
                                let m = choose|m: int| 0 <= m < before.players.len() && #[trigger] before.players[m].id == before.snakes[q].player_id
                                    && before.players[m].role != NodeRole::Viewer;
                                assert(m != k);
                                assert(self.players[m] == before.players[m]);
                            }
                        }
                    },
                }
            },
            None => {
                proof {
                    assert forall|j: int| 0 <= j < before.snakes.len() implies #[trigger] before.snakes[j].player_id != player_id by {
                        if before.snakes[j].player_id == player_id {
                            let m = choose|m: int| 0 <= m < before.players.len() && #[trigger] before.players[m].id == before.snakes[j].player_id
                                && before.players[m].role != NodeRole::Viewer;
                        }
                    }
                }
            },
        }
    }

    /// Moves every snake in order. A snake eats when food lies under its new
    /// head and no snake that moved before it took that food: it then grows
    /// by one cell, its owner scores one and the food leaves the list.
    pub fn move_snakes(&mut self, dirs: &HashMap<i32, Direction>, width: i32, height: i32)
        requires
            old(self).wf(),
            old(self).inside(width as int, height as int),
            old(self).scores_below_max(),
            board_ok(width as int, height as int),
        ensures
            final(self).wf(),
            final(self).inside(width as int, height as int),
            final(self).state_order == old(self).state_order,
            final(self).snakes.len() == old(self).snakes.len(),
            final(self).players.len() == old(self).players.len(),
            forall|i: int| 0 <= i < old(self).snakes.len() ==> moved_from(
                #[trigger] final(self).snakes[i],
                old(self).snakes[i],
                dirs@,
                width as int,
                height as int,
            ),
            forall|k: int|
                0 <= k < old(self).players.len() ==> same_but_score(#[trigger] final(self).players[k], old(self).players[k]),
            forall|i: int, k: int|
                0 <= i < old(self).snakes.len() && 0 <= k < old(self).players.len() && #[trigger] old(self).players[k].id
                    == #[trigger] old(self).snakes[i].player_id ==> final(self).snakes[i].length() == old(self).snakes[i].length()
                    + final(self).players[k].score - old(self).players[k].score,
            forall|k: int|
                0 <= k < old(self).players.len() ==> #[trigger] final(self).players[k].score == old(self).players[k].score
                    || final(self).players[k].score == old(self).players[k].score + 1,
            forall|k: int|
                0 <= k < old(self).players.len() && !old(self).has_snake(old(self).players[k].id)
                    ==> #[trigger] final(self).players[k].score == old(self).players[k].score,
            forall|i: int| 0 <= i < old(self).snakes.len() ==> stepped(
                #[trigger] final(self).snakes[i],
                old(self).snakes[i],
                eats(old(self).snakes@, old(self).foods@, i, dirs@, width as int, height as int),
                dirs@,
                width as int,
                height as int,
            ),
            forall|i: int, k: int|
                0 <= i < old(self).snakes.len() && 0 <= k < old(self).players.len() && #[trigger] old(self).players[k].id
                    == #[trigger] old(self).snakes[i].player_id ==> final(self).players[k].score == old(self).players[k].score
                    + if eats(old(self).snakes@, old(self).foods@, i, dirs@, width as int, height as int) {
                    1int
                } else {
                    0int
                },
            forall|c: (int, int)| #[trigger] food_at(final(self).foods@, c) == (food_at(old(self).foods@, c) && !head_lands(
                old(self).snakes@,
                c,
                dirs@,
                width as int,
                height as int,
            )),
    {
        let ghost before = *self;
        let ghost w = width as int;
        let ghost h = height as int;
        let n = self.snakes.len();
        let mut i: usize = 0;
        while i < n
            invariant
                0 <= i <= n,
                n == before.snakes.len(),
                before.wf(),
                board_ok(width as int, height as int),
                self.wf(),
                self.inside(width as int, height as int),
                self.state_order == before.state_order,
                self.snakes.len() == n,
                self.players.len() == before.players.len(),
                forall|j: int| 0 <= j < i ==> moved_from(#[trigger] self.snakes[j], before.snakes[j], dirs@, width as int, height as int),
                forall|j: int| i <= j < n ==> #[trigger] self.snakes[j] == before.snakes[j],
                forall|k: int| 0 <= k < before.players.len() ==> same_but_score(#[trigger] self.players[k], before.players[k]),
                forall|j: int, k: int|
                    0 <= j < i && 0 <= k < before.players.len() && #[trigger] before.players[k].id == #[trigger] before.snakes[j].player_id
                        ==> self.snakes[j].length() == before.snakes[j].length() + self.players[k].score - before.players[k].score,
                forall|k: int|
                    0 <= k < before.players.len() ==> #[trigger] self.players[k].score == before.players[k].score
                        || self.players[k].score == before.players[k].score + 1,
                forall|k: int|
                    0 <= k < before.players.len() && (forall|j: int| 0 <= j < i ==> #[trigger] before.snakes[j].player_id != before.players[k].id)
                        ==> #[trigger] self.players[k].score == before.players[k].score,
                forall|k: int| 0 <= k < before.players.len() ==> #[trigger] before.players[k].score < i32::MAX,
                w == width as int,
                h == height as int,
                forall|j: int| 0 <= j < i ==> stepped(#[trigger] self.snakes[j], before.snakes[j], eats(before.snakes@, before.foods@, j, dirs@, w, h), dirs@, w, h),
                forall|j: int, k: int|
                    0 <= j < i && 0 <= k < before.players.len() && #[trigger] before.players[k].id == #[trigger] before.snakes[j].player_id
                        ==> self.players[k].score == before.players[k].score + if eats(before.snakes@, before.foods@, j, dirs@, w, h) {
                        1int
                    } else {
                        0int
                    },
                forall|c: (int, int)| #[trigger] food_at(self.foods@, c) == (food_at(before.foods@, c) && !exists|j: int|
                    0 <= j < i && new_head(#[trigger] before.snakes[j], dirs@, w, h) == c),
            decreases n - i,
        {
            let ghost cur = *self;
            let ghost nh = new_head(before.snakes[i as int], dirs@, w, h);
            proof {
                assert forall|k: int| 0 <= k < self.players.len() && #[trigger] self.players[k].id == self.snakes[i as int].player_id
                    implies self.players[k].score < i32::MAX by {
                    assert(self.players[k].id == before.players[k].id);
                    assert(self.snakes[i as int] == before.snakes[i as int]);
                    assert forall|j: int| 0 <= j < i implies #[trigger] before.snakes[j].player_id != before.players[k].id by {
                        assert(j != i);
                    }
                }
            }
            let ate = self.move_snake(i, dirs, width, height);
            proof {
                assert(cur.snakes[i as int] == before.snakes[i as int]);
                assert(cur.has_food(nh) == food_at(cur.foods@, nh));
                assert(food_at(cur.foods@, nh) == eats(before.snakes@, before.foods@, i as int, dirs@, w, h)) by {
                    if food_at(cur.foods@, nh) {
                        assert(food_at(before.foods@, nh));
                        assert forall|j: int| 0 <= j < i implies new_head(#[trigger] before.snakes[j], dirs@, w, h) != nh by {}
                    }
                    if eats(before.snakes@, before.foods@, i as int, dirs@, w, h) {
                        assert(!exists|j: int| 0 <= j < i && new_head(#[trigger] before.snakes[j], dirs@, w, h) == nh);
                    }
                }
                if ate {
                    let p = choose|p: int|
                        0 <= p < cur.foods.len() && #[trigger] cur.foods[p].cell() == nh && self.foods@ == cur.foods@.remove(p);
                    lemma_remove_food(cur.foods@, p, nh);
                }
                assert forall|c: (int, int)| #[trigger] food_at(self.foods@, c) == (food_at(before.foods@, c) && !exists|j: int|
                    0 <= j < i + 1 && new_head(#[trigger] before.snakes[j], dirs@, w, h) == c) by {
                    assert(food_at(self.foods@, c) == (food_at(cur.foods@, c) && c != nh));
                    if exists|j: int| 0 <= j < i + 1 && new_head(#[trigger] before.snakes[j], dirs@, w, h) == c {
                        let j = choose|j: int| 0 <= j < i + 1 && new_head(#[trigger] before.snakes[j], dirs@, w, h) == c;
                        if j < i {
                        }
                    }
                }
                assert forall|j: int| 0 <= j < i + 1 implies stepped(#[trigger] self.snakes[j], before.snakes[j], eats(before.snakes@, before.foods@, j, dirs@, w, h), dirs@, w, h) by {
                    if j < i {
                        assert(self.snakes[j] == cur.snakes[j]);
                    }
                }
                assert forall|j: int, k: int|
                    0 <= j < i + 1 && 0 <= k < before.players.len() && #[trigger] before.players[k].id == #[trigger] before.snakes[j].player_id
                        implies self.players[k].score == before.players[k].score + if eats(before.snakes@, before.foods@, j, dirs@, w, h) {
                        1int
                    } else {
                        0int
                    } by {
                    assert(cur.players[k].id == before.players[k].id);
                    if j < i {
                        assert(before.snakes[j].player_id != before.snakes[i as int].player_id);
                    } else {
                        assert forall|q: int| 0 <= q < i implies #[trigger] before.snakes[q].player_id != before.players[k].id by {
                            assert(q != i);
                        }
                    }
                }
                assert forall|j: int, k: int|
                    0 <= j < i + 1 && 0 <= k < before.players.len() && #[trigger] before.players[k].id == #[trigger] before.snakes[j].player_id
                        implies self.snakes[j].length() == before.snakes[j].length() + self.players[k].score - before.players[k].score by {
                    if j < i {
                        assert(before.snakes[j].player_id != before.snakes[i as int].player_id);
                        assert(cur.players[k].id == before.players[k].id);
                    } else {
                        assert(cur.players[k].id == before.players[k].id);
                        assert(cur.snakes[i as int] == before.snakes[i as int]);
                        assert forall|q: int| 0 <= q < i implies #[trigger] before.snakes[q].player_id != before.players[k].id by {
                            assert(q != i);
                        }
                    }
                }
                assert forall|k: int|
                    0 <= k < before.players.len() implies #[trigger] self.players[k].score == before.players[k].score
                        || self.players[k].score == before.players[k].score + 1 by {
                    if self.players[k].score != cur.players[k].score {
                        assert(cur.players[k].id == before.players[k].id);
                        assert(cur.snakes[i as int] == before.snakes[i as int]);
                        assert forall|q: int| 0 <= q < i implies #[trigger] before.snakes[q].player_id != before.players[k].id by {
                            assert(q != i);
                        }
                    }
                }
                assert forall|k: int|
                    0 <= k < before.players.len() && (forall|j: int| 0 <= j < i + 1 ==> #[trigger] before.snakes[j].player_id != before.players[k].id)
                        implies #[trigger] self.players[k].score == before.players[k].score by {
                    assert(before.snakes[i as int].player_id != before.players[k].id);
                    assert(cur.snakes[i as int] == before.snakes[i as int]);
                }
            }
            i += 1;
        }
        proof {
            assert forall|k: int|
                0 <= k < before.players.len() && !before.has_snake(before.players[k].id)
                    implies #[trigger] self.players[k].score == before.players[k].score by {
                assert forall|j: int| 0 <= j < n implies #[trigger] before.snakes[j].player_id != before.players[k].id by {}
            }
        }
    }

    /// Ids of the players whose snakes collide, in snake order.
    pub fn collect_dead(&self, width: i32, height: i32) -> (r: Vec<i32>)
        requires
            self.wf(),
            board_ok(width as int, height as int),
        ensures
            forall|id: i32| r@.contains(id) <==> dies(self.snakes@, id, width as int, height as int),
    {
        let mut dead: Vec<i32> = Vec::new();
        let mut i: usize = 0;
        while i < self.snakes.len()
            invariant
                i <= self.snakes.len(),
                self.wf(),
                board_ok(width as int, height as int),
                forall|id: i32|
                    dead@.contains(id) <==> exists|j: int|
                        0 <= j < i && #[trigger] self.snakes[j].player_id == id && collides(
                            self.snakes@,
                            j,
                            width as int,
                            height as int,
                        ),
            decreases self.snakes.len() - i,
        {
            let ghost prev = dead@;
            if !self.check_if_the_snake_alive(i, width, height) {
                dead.push(self.snakes[i].player_id);
                proof {
                    assert forall|id: i32| dead@.contains(id) <==> exists|j: int|
                        0 <= j < i + 1 && #[trigger] self.snakes[j].player_id == id && collides(
                            self.snakes@,
                            j,
                            width as int,
                            height as int,
                        ) by {
                        if dead@.contains(id) && id != self.snakes[i as int].player_id {
                            let q = choose|q: int| 0 <= q < dead@.len() && dead@[q] == id;
                            assert(prev[q] == id);
                        }
                        if id == self.snakes[i as int].player_id {
                            assert(dead@[dead@.len() - 1] == id);
                        }
                        if prev.contains(id) {
                            let q = choose|q: int| 0 <= q < prev.len() && prev[q] == id;
                            assert(dead@[q] == id);
                        }
                    }
                }
            } else {
                proof {
                    assert forall|id: i32| dead@.contains(id) <==> exists|j: int|
                        0 <= j < i + 1 && #[trigger] self.snakes[j].player_id == id && collides(
                            self.snakes@,
                            j,
                            width as int,
                            height as int,
                        ) by {
                        if exists|j: int|
                            0 <= j < i + 1 && #[trigger] self.snakes[j].player_id == id && collides(
                                self.snakes@,
                                j,
                                width as int,
                                height as int,
                            ) {
                            let j = choose|j: int|
                                0 <= j < i + 1 && #[trigger] self.snakes[j].player_id == id && collides(
                                    self.snakes@,
                                    j,
                                    width as int,
                                    height as int,
                                );
                            assert(j != i);
                        }
                    }
                }
            }
            i += 1;
        }
        dead
    }

    /// Every colliding snake is taken off the board and its player becomes
    /// a viewer; the collisions are judged on the board as it stands.
    pub fn resolve_deaths(&mut self, width: i32, height: i32)
        requires
            old(self).wf(),
            old(self).inside(width as int, height as int),
            board_ok(width as int, height as int),
        ensures
            final(self).wf(),
            final(self).inside(width as int, height as int),
            final(self).state_order == old(self).state_order,
            final(self).foods@ == old(self).foods@,
            final(self).snakes@ == old(self).snakes@.filter(
                |s: GameState_Snake| !dies(old(self).snakes@, s.player_id, width as int, height as int),
            ),
            forall|a: int| #![trigger final(self).snakes[a]]
                0 <= a < final(self).snakes.len() ==> exists|j: int| #![trigger old(self).snakes[j]]
                    0 <= j < old(self).snakes.len() && old(self).snakes[j] == final(self).snakes[a],
            final(self).players.len() == old(self).players.len(),
            forall|k: int|
                0 <= k < old(self).players.len() ==> same_but_role(#[trigger] final(self).players[k], old(self).players[k])
                    && final(self).players[k].role == if dies(old(self).snakes@, old(self).players[k].id, width as int, height as int) {
                    NodeRole::Viewer
                } else {
                    old(self).players[k].role
                },
    {
        let ghost before = *self;
        let ghost w = width as int;
        let ghost h = height as int;
        let ghost pred = |s: GameState_Snake| !dies(before.snakes@, s.player_id, w, h);
        let dead = self.collect_dead(width, height);
        self.drop_players(&dead);
        proof {
            assert(pred =~= (|s: GameState_Snake| !dead@.contains(s.player_id)));
        }
    }

    /// Demotes every player whose id is in `dead` to viewer and takes the
    /// snakes of those players off the board, keeping the others in order.
    pub fn drop_players(&mut self, dead: &Vec<i32>)
        requires
            old(self).wf(),
        ensures
            final(self).wf(),
            forall|w: int, h: int| #[trigger] old(self).inside(w, h) ==> final(self).inside(w, h),
            final(self).state_order == old(self).state_order,
            final(self).foods@ == old(self).foods@,
            final(self).snakes@ == old(self).snakes@.filter(|s: GameState_Snake| !dead@.contains(s.player_id)),
            forall|a: int| #![trigger final(self).snakes[a]]
                0 <= a < final(self).snakes.len() ==> exists|j: int| #![trigger old(self).snakes[j]]
                    0 <= j < old(self).snakes.len() && old(self).snakes[j] == final(self).snakes[a],
            final(self).players.len() == old(self).players.len(),
            forall|k: int|
                0 <= k < old(self).players.len() ==> same_but_role(#[trigger] final(self).players[k], old(self).players[k])
                    && final(self).players[k].role == if dead@.contains(old(self).players[k].id) {
                    NodeRole::Viewer
                } else {
                    old(self).players[k].role
                },
    {
        let ghost before = *self;
        let ghost pred = |s: GameState_Snake| !dead@.contains(s.player_id);
        let mut rest: Vec<GameState_Snake> = Vec::new();
        std::mem::swap(&mut self.snakes, &mut rest);
        let n = rest.len();
        let mut k: usize = 0;
        proof {
            reveal(Seq::filter);
            assert(before.snakes@.subrange(0, 0).filter(pred) =~= Seq::<GameState_Snake>::empty());
            assert(rest@ =~= before.snakes@.subrange(0, n as int));
        }
        while rest.len() > 0
            invariant
                k <= n,
                n == before.snakes.len(),
                rest@ == before.snakes@.subrange(k as int, n as int),
                self.snakes@ == before.snakes@.subrange(0, k as int).filter(pred),
                forall|a: int| #![trigger self.snakes[a]] 0 <= a < self.snakes.len() ==> exists|j: int| #![trigger before.snakes[j]] 0 <= j < k && before.snakes[j] == self.snakes[a],
                forall|a: int, b: int|
                    0 <= a < self.snakes.len() && 0 <= b < self.snakes.len() && a != b ==> #[trigger] self.snakes[a].player_id
                        != #[trigger] self.snakes[b].player_id,
                forall|a: int| 0 <= a < self.snakes.len() ==> pred(#[trigger] self.snakes[a]),
                before.wf(),
                pred == (|s: GameState_Snake| !dead@.contains(s.player_id)),
                self.players@ == before.players@,
                self.foods@ == before.foods@,
                self.state_order == before.state_order,
            decreases rest.len(),
        {
            let s = rest.remove(0);
            let ghost prev = self.snakes@;
            proof {
                assert(s == before.snakes[k as int]);
                assert(before.snakes@.subrange(0, k + 1).drop_last() =~= before.snakes@.subrange(0, k as int));
                assert(before.snakes@.subrange(0, k + 1).last() == s);
            }
            if !contains_id(&dead, s.player_id) {
                self.snakes.push(s);
                proof {
                    assert forall|a: int, b: int|
                        0 <= a < self.snakes.len() && 0 <= b < self.snakes.len() && a != b implies #[trigger] self.snakes[a].player_id
                            != #[trigger] self.snakes[b].player_id by {
                        if a == self.snakes.len() - 1 && b < a {
                            let j = choose|j: int| 0 <= j < k && before.snakes[j] == prev[b];
                            assert(self.snakes[b] == prev[b]);
                        } else if b == self.snakes.len() - 1 && a < b {
                            let j = choose|j: int| 0 <= j < k && before.snakes[j] == prev[a];
                            assert(self.snakes[a] == prev[a]);
                        } else {
                            assert(self.snakes[a] == prev[a]);
                            assert(self.snakes[b] == prev[b]);
                        }
                    }
                    assert forall|a: int| #![trigger self.snakes[a]] 0 <= a < self.snakes.len() implies exists|j: int| #![trigger before.snakes[j]] 0 <= j < k + 1 && before.snakes[j] == self.snakes[a] by {
                        if a < prev.len() {
                            assert(self.snakes[a] == prev[a]);
                            let j = choose|j: int| 0 <= j < k && before.snakes[j] == prev[a];
                        } else {
                            assert(before.snakes[k as int] == self.snakes[a]);
                        }
                    }
                    assert forall|a: int| 0 <= a < self.snakes.len() implies pred(#[trigger] self.snakes[a]) by {
                        if a < prev.len() {
                            assert(self.snakes[a] == prev[a]);
                        }
                    }
                }
            } else {
                proof {
                    assert forall|a: int| #![trigger self.snakes[a]] 0 <= a < self.snakes.len() implies exists|j: int| #![trigger before.snakes[j]] 0 <= j < k + 1 && before.snakes[j] == self.snakes[a] by {
                        let j = choose|j: int| 0 <= j < k && before.snakes[j] == self.snakes[a];
                    }
                }
            }
            proof {
                assert(rest@ =~= before.snakes@.subrange(k + 1, n as int));
                let sub = before.snakes@.subrange(0, k + 1);
                reveal(Seq::filter);
                assert(sub.filter(pred) == if pred(sub.last()) {
                    sub.drop_last().filter(pred).push(sub.last())
                } else {
                    sub.drop_last().filter(pred)
                });
                assert(pred(s) == !dead@.contains(s.player_id));
            }
            k += 1;
        }
        proof {
            assert(before.snakes@.subrange(0, n as int) =~= before.snakes@);
        }
        let ghost mid = *self;
        let mut p: usize = 0;
        while p < self.players.len()
            invariant
                p <= self.players.len(),
                self.players.len() == before.players.len(),
                self.snakes@ == mid.snakes@,
                self.foods@ == before.foods@,
                self.state_order == before.state_order,
                forall|q: int| p <= q < self.players.len() ==> #[trigger] self.players[q] == before.players[q],
                forall|q: int|
                    0 <= q < p ==> same_but_role(#[trigger] self.players[q], before.players[q]) && self.players[q].role == if dead@.contains(before.players[q].id) {
                        NodeRole::Viewer
                    } else {
                        before.players[q].role
                    },
            decreases self.players.len() - p,
        {
            if contains_id(&dead, self.players[p].id) {
                let mut pl = self.players.remove(p);
                pl.role = NodeRole::Viewer;
                self.players.insert(p, pl);
            }
            p += 1;
        }
        proof {
            assert forall|w: int, h: int| #[trigger] before.inside(w, h) implies self.inside(w, h) by {
                assert forall|a: int| 0 <= a < self.snakes.len() implies (#[trigger] self.snakes[a]).inside(w, h) by {
                    let j = choose|j: int| 0 <= j < n && before.snakes[j] == self.snakes[a];
                    assert(before.snakes[j].inside(w, h));
                }
            }
            assert forall|a: int| 0 <= a < self.snakes.len() implies (#[trigger] self.snakes[a]).wf()
                && self.live_player(self.snakes[a].player_id) by {
                let j = choose|j: int| 0 <= j < n && before.snakes[j] == self.snakes[a];
                assert(before.snakes[j].wf());
                assert(before.live_player(before.snakes[j].player_id));
                let m = choose|m: int|
                    0 <= m < before.players.len() && #[trigger] before.players[m].id == before.snakes[j].player_id
                        && before.players[m].role != NodeRole::Viewer;
                assert(pred(self.snakes[a]));
                assert(self.players[m].id == before.players[m].id);
            }
            assert forall|a: int, b: int|
                0 <= a < self.players.len() && 0 <= b < self.players.len() && a != b implies #[trigger] self.players[a].id
                != #[trigger] self.players[b].id by {
                assert(self.players[a].id == before.players[a].id);
                assert(self.players[b].id == before.players[b].id);
            }
        }
    }


    /// Whether some snake covers cell `c`.
    pub open spec fn occupied(&self, c: (int, int), w: int, h: int) -> bool {
        exists|i: int| 0 <= i < self.snakes.len() && #[trigger] self.snakes[i].cells(w, h).contains(c)
    }

    /// Whether `c` is free of every snake.
    pub fn is_free(&self, c: &GameState_Coord, width: i32, height: i32) -> (r: bool)
        requires
            self.wf(),
            board_ok(width as int, height as int),
        ensures
            r == !self.occupied(c.cell(), width as int, height as int),
    {
        let mut i: usize = 0;
        while i < self.snakes.len()
            invariant
                i <= self.snakes.len(),
                self.wf(),
                board_ok(width as int, height as int),
                forall|q: int| 0 <= q < i ==> !#[trigger] self.snakes[q].cells(width as int, height as int).contains(c.cell()),
            decreases self.snakes.len() - i,
        {
            if self.snakes[i].is_overlap(c, width, height) {
                return false;
            }
            i += 1;
        }
        true
    }

    /// Puts food on `c` when no snake covers it and no food is there yet.
    pub fn try_place_food(&mut self, c: GameState_Coord, width: i32, height: i32) -> (r: bool)
        requires
            old(self).wf(),
            old(self).inside(width as int, height as int),
            board_ok(width as int, height as int),
            interior(c.cell(), width as int, height as int),
        ensures
            r == (!old(self).occupied(c.cell(), width as int, height as int) && !old(self).has_food(c.cell())),
            r ==> final(self).foods@ == old(self).foods@.push(c),
            !r ==> final(self).foods@ == old(self).foods@,
            final(self).snakes@ == old(self).snakes@,
            final(self).players@ == old(self).players@,
            final(self).state_order == old(self).state_order,
            final(self).wf(),
            final(self).inside(width as int, height as int),
    {
        if !self.is_free(&c, width, height) {
            return false;
        }
        match self.find_food(&c) {
            Some(_) => false,
            None => {
                let ghost before = self.foods@;
                self.foods.push(c);
                proof {
                    assert forall|p: int, q: int|
                        0 <= p < self.foods.len() && 0 <= q < self.foods.len() && p != q implies #[trigger] self.foods[p]
                        != #[trigger] self.foods[q] by {
                        if p == before.len() {
                            assert(self.foods[q] == before[q]);
                        } else if q == before.len() {
                            assert(self.foods[p] == before[p]);
                        } else {
                            assert(self.foods[p] == before[p]);
                            assert(self.foods[q] == before[q]);
                        }
                    }
                    assert forall|p: int| 0 <= p < self.foods.len() implies interior(#[trigger] self.foods[p].cell(), width as int, height as int) by {
                        if p < before.len() {
                            assert(self.foods[p] == before[p]);
                        }
                    }
                }
                true
            },
        }
    }

    /// Tries random interior cells, a bounded number of times, until one
    /// takes a food.
    pub fn add_food(&mut self, width: i32, height: i32) -> (r: bool)
        requires
            old(self).wf(),
            old(self).inside(width as int, height as int),
            board_ok(width as int, height as int),
        ensures
            r ==> exists|c: GameState_Coord|
                #![trigger c.cell()]
                {
                    &&& final(self).foods@ == old(self).foods@.push(c)
                    &&& interior(c.cell(), width as int, height as int)
                    &&& !old(self).occupied(c.cell(), width as int, height as int)
                    &&& !old(self).has_food(c.cell())
                },
            r ==> final(self).foods.len() == old(self).foods.len() + 1,
            !r ==> final(self).foods@ == old(self).foods@,
            final(self).foods@.subrange(0, old(self).foods.len() as int) == old(self).foods@,
            final(self).snakes@ == old(self).snakes@,
            final(self).players@ == old(self).players@,
            final(self).state_order == old(self).state_order,
            final(self).wf(),
            final(self).inside(width as int, height as int),
    {
        let ghost before = self.foods@;
        let ghost start = *self;
        let mut attempt: u32 = 0;
        while attempt < FOOD_ATTEMPTS
            invariant
                self.wf(),
                self.inside(width as int, height as int),
                board_ok(width as int, height as int),
                self.foods@ == before,
                before == old(self).foods@,
                start == *old(self),
                self.snakes@ == old(self).snakes@,
                self.players@ == old(self).players@,
                self.state_order == old(self).state_order,
            decreases FOOD_ATTEMPTS - attempt,
        {
            let x = random_in_range(1, width - 1);
            let y = random_in_range(1, height - 1);
            let c = GameState_Coord::new_custom(x, y);
            let ghost cur = *self;
            if self.try_place_food(c, width, height) {
                proof {
                    assert(self.foods@.subrange(0, before.len() as int) =~= before);
                    assert(cur.snakes@ == start.snakes@);
                    assert(cur.occupied(c.cell(), width as int, height as int) == start.occupied(c.cell(), width as int, height as int));
                    assert(cur.has_food(c.cell()) == start.has_food(c.cell()));
                }
                return true;
            }
            attempt += 1;
        }
        proof {
            assert(self.foods@.subrange(0, before.len() as int) =~= before);
        }
        false
    }

    /// Adds food until the board holds `food_static` of it, or reports a
    /// full board.
    pub fn restock_food(&mut self, config: &GameConfig) -> (r: Result<(), EngineError>)
        requires
            old(self).wf(),
            old(self).inside(config.width as int, config.height as int),
            config.wf(),
        ensures
            r is Ok || r == Err::<(), EngineError>(EngineError::BoardFull),
            r is Ok ==> final(self).foods.len() >= config.food_static,
            r is Ok && old(self).foods.len() <= config.food_static ==> final(self).foods.len() == config.food_static,
            old(self).foods.len() >= config.food_static ==> r is Ok && final(self).foods@ == old(self).foods@,
            final(self).foods@.subrange(0, old(self).foods.len() as int) == old(self).foods@,
            forall|p: int|
                old(self).foods.len() <= p < final(self).foods.len() ==> !old(self).occupied(
                    #[trigger] final(self).foods[p].cell(),
                    config.width as int,
                    config.height as int,
                ),
            final(self).snakes@ == old(self).snakes@,
            final(self).players@ == old(self).players@,
            final(self).state_order == old(self).state_order,
            final(self).wf(),
            final(self).inside(config.width as int, config.height as int),
    {
        let ghost before = self.foods@;
        while self.foods.len() < config.food_static as usize
            invariant
                self.wf(),
                self.inside(config.width as int, config.height as int),
                config.wf(),
                self.foods@.subrange(0, before.len() as int) == before,
                self.foods.len() >= before.len(),
                self.foods.len() <= before.len() || self.foods.len() <= config.food_static,
                before.len() >= config.food_static ==> self.foods@ == before,
                before == old(self).foods@,
                forall|p: int|
                    before.len() <= p < self.foods.len() ==> !old(self).occupied(
                        #[trigger] self.foods[p].cell(),
                        config.width as int,
                        config.height as int,
                    ),
                self.snakes@ == old(self).snakes@,
                self.players@ == old(self).players@,
                self.state_order == old(self).state_order,
            decreases config.food_static as usize - self.foods.len(),
        {
            let ghost prev = *self;
            if !self.add_food(config.width, config.height) {
                return Err(EngineError::BoardFull);
            }
            proof {
                assert(self.foods@.subrange(0, before.len() as int) =~= prev.foods@.subrange(0, before.len() as int));
                let c = choose|c: GameState_Coord|
                    #![trigger c.cell()]
                    {
                        &&& self.foods@ == prev.foods@.push(c)
                        &&& interior(c.cell(), config.width as int, config.height as int)
                        &&& !prev.occupied(c.cell(), config.width as int, config.height as int)
                        &&& !prev.has_food(c.cell())
                    };
                assert forall|p: int|
                    before.len() <= p < self.foods.len() implies !old(self).occupied(
                        #[trigger] self.foods[p].cell(),
                        config.width as int,
                        config.height as int,
                    ) by {
                    if p < prev.foods.len() {
                        assert(self.foods[p] == prev.foods[p]);
                    } else {
                        assert(self.foods[p] == c);
                        assert(prev.snakes@ == old(self).snakes@);
                        if old(self).occupied(c.cell(), config.width as int, config.height as int) {
                            let i = choose|i: int| 0 <= i < old(self).snakes.len() && #[trigger] old(self).snakes[i].cells(config.width as int, config.height as int).contains(c.cell());
                            assert(prev.snakes[i] == old(self).snakes[i]);
                        }
                    }
                }
            }
        }
        Ok(())
    }

    /// One turn: bumps `state_order`, moves every snake along its chosen
    /// heading (eating and growing where a head meets food), removes the
    /// snakes that collide and demotes their players, then restocks food on
    /// cells no snake covers until `food_static` is reached.
    pub fn update_snakes(&mut self, dirs: &HashMap<i32, Direction>, config: &GameConfig) -> (r: Result<(), EngineError>)
        requires
            old(self).wf(),
            old(self).inside(config.width as int, config.height as int),
            old(self).scores_below_max(),
            old(self).state_order < u64::MAX,
            config.wf(),
        ensures
            final(self).state_order == old(self).state_order + 1,
            final(self).wf(),
            final(self).inside(config.width as int, config.height as int),
            forall|i: int, c: int|
                0 <= i < final(self).snakes.len() && 0 <= c < final(self).snakes[i].cells(config.width as int, config.height as int).len()
                    ==> interior(#[trigger] final(self).snakes[i].cells(config.width as int, config.height as int)[c], config.width as int, config.height as int),
            final(self).players.len() == old(self).players.len(),
            forall|k: int|
                0 <= k < old(self).players.len() ==> {
                    &&& same_identity(#[trigger] final(self).players[k], old(self).players[k])
                    &&& final(self).players[k].score == old(self).players[k].score || final(self).players[k].score
                        == old(self).players[k].score + 1
                    &&& final(self).players[k].role == old(self).players[k].role || final(self).players[k].role
                        == NodeRole::Viewer
                },
            forall|a: int| 0 <= a < final(self).snakes.len() ==> #[trigger] old(self).has_snake(final(self).snakes[a].player_id),
            forall|a: int, i: int|
                0 <= a < final(self).snakes.len() && 0 <= i < old(self).snakes.len() && #[trigger] final(self).snakes[a].player_id
                    == #[trigger] old(self).snakes[i].player_id ==> moved_from(
                    final(self).snakes[a],
                    old(self).snakes[i],
                    dirs@,
                    config.width as int,
                    config.height as int,
                ),
            forall|a: int, i: int, k: int|
                0 <= a < final(self).snakes.len() && 0 <= i < old(self).snakes.len() && 0 <= k < old(self).players.len()
                    && #[trigger] final(self).snakes[a].player_id == #[trigger] old(self).snakes[i].player_id
                    && #[trigger] old(self).players[k].id == old(self).snakes[i].player_id ==> final(self).snakes[a].length()
                    == old(self).snakes[i].length() + final(self).players[k].score - old(self).players[k].score,
            exists|m: Seq<GameState_Snake>| #![trigger m.len()]
                {
                    &&& m.len() == old(self).snakes.len()
                    &&& forall|i: int|
                        0 <= i < m.len() ==> moved_from(#[trigger] m[i], old(self).snakes[i], dirs@, config.width as int, config.height as int)
                    &&& forall|i: int|
                        0 <= i < m.len() ==> stepped(
                            #[trigger] m[i],
                            old(self).snakes[i],
                            eats(old(self).snakes@, old(self).foods@, i, dirs@, config.width as int, config.height as int),
                            dirs@,
                            config.width as int,
                            config.height as int,
                        )
                    &&& final(self).snakes@ == m.filter(|s: GameState_Snake| !dies(m, s.player_id, config.width as int, config.height as int))
                    &&& forall|k: int|
                        0 <= k < old(self).players.len() ==> #[trigger] final(self).players[k].role == if dies(
                            m,
                            old(self).players[k].id,
                            config.width as int,
                            config.height as int,
                        ) {
                            NodeRole::Viewer
                        } else {
                            old(self).players[k].role
                        }
                },
            forall|i: int, k: int|
                0 <= i < old(self).snakes.len() && 0 <= k < old(self).players.len() && #[trigger] old(self).players[k].id
                    == #[trigger] old(self).snakes[i].player_id ==> final(self).players[k].score == old(self).players[k].score
                    + if eats(old(self).snakes@, old(self).foods@, i, dirs@, config.width as int, config.height as int) {
                    1int
                } else {
                    0int
                },
            forall|k: int|
                0 <= k < old(self).players.len() && !old(self).has_snake(old(self).players[k].id)
                    ==> #[trigger] final(self).players[k].score == old(self).players[k].score,
            exists|e: Seq<GameState_Coord>| #![trigger e.len()]
                {
                    &&& forall|c: (int, int)| #[trigger] food_at(e, c) == (food_at(old(self).foods@, c) && !head_lands(
                        old(self).snakes@,
                        c,
                        dirs@,
                        config.width as int,
                        config.height as int,
                    ))
                    &&& final(self).foods@.subrange(0, e.len() as int) == e
                    &&& forall|p: int|
                        e.len() <= p < final(self).foods.len() ==> !final(self).occupied(
                            #[trigger] final(self).foods[p].cell(),
                            config.width as int,
                            config.height as int,
                        )
                    &&& e.len() >= config.food_static ==> r is Ok && final(self).foods@ == e
                    &&& r is Ok && e.len() <= config.food_static ==> final(self).foods.len() == config.food_static
                },
            r is Ok ==> final(self).foods.len() >= config.food_static,
            r is Ok || r == Err::<(), EngineError>(EngineError::BoardFull),
    {
        let ghost before = *self;
        let ghost w = config.width as int;
        let ghost h = config.height as int;
        self.state_order = self.state_order + 1;
        self.move_snakes(dirs, config.width, config.height);
        let ghost moved = *self;
        self.resolve_deaths(config.width, config.height);
        let ghost settled = *self;
        let r = self.restock_food(config);
        proof {
            assert forall|k: int|
                0 <= k < before.players.len() implies {
                    &&& same_identity(#[trigger] self.players[k], before.players[k])
                    &&& self.players[k].score == before.players[k].score || self.players[k].score == before.players[k].score + 1
                    &&& self.players[k].role == before.players[k].role || self.players[k].role == NodeRole::Viewer
                } by {
                assert(self.players[k] == settled.players[k]);
                assert(same_but_role(settled.players[k], moved.players[k]));
                assert(same_but_score(moved.players[k], before.players[k]));
            }
            assert forall|a: int, i: int|
                0 <= a < self.snakes.len() && 0 <= i < before.snakes.len() && #[trigger] self.snakes[a].player_id
                    == #[trigger] before.snakes[i].player_id implies moved_from(self.snakes[a], before.snakes[i], dirs@, w, h) by {
                assert(self.snakes[a] == settled.snakes[a]);
                let j = choose|j: int| #![trigger moved.snakes[j]] 0 <= j < moved.snakes.len() && moved.snakes[j] == settled.snakes[a];
                assert(moved_from(moved.snakes[j], before.snakes[j], dirs@, w, h));
                assert(moved.snakes[j].player_id == before.snakes[j].player_id);
            }
            assert forall|a: int, i: int, k: int|
                0 <= a < self.snakes.len() && 0 <= i < before.snakes.len() && 0 <= k < before.players.len()
                    && #[trigger] self.snakes[a].player_id == #[trigger] before.snakes[i].player_id
                    && #[trigger] before.players[k].id == before.snakes[i].player_id implies self.snakes[a].length()
                    == before.snakes[i].length() + self.players[k].score - before.players[k].score by {
                assert(self.snakes[a] == settled.snakes[a]);
                let j = choose|j: int| #![trigger moved.snakes[j]] 0 <= j < moved.snakes.len() && moved.snakes[j] == settled.snakes[a];
                assert(moved_from(moved.snakes[j], before.snakes[j], dirs@, w, h));
                assert(before.snakes[j].player_id == before.snakes[i].player_id);
                assert(j == i);
                assert(self.players[k] == settled.players[k]);
                assert(same_but_role(settled.players[k], moved.players[k]));
            }
            assert forall|a: int| 0 <= a < self.snakes.len() implies #[trigger] before.has_snake(self.snakes[a].player_id) by {
                assert(self.snakes[a] == settled.snakes[a]);
                let j = choose|j: int| #![trigger moved.snakes[j]] 0 <= j < moved.snakes.len() && moved.snakes[j] == settled.snakes[a];
                assert(moved_from(moved.snakes[j], before.snakes[j], dirs@, w, h));
                assert(before.snakes[j].player_id == self.snakes[a].player_id);
            }
            assert forall|i: int, c: int|
                0 <= i < self.snakes.len() && 0 <= c < self.snakes[i].cells(w, h).len()
                    implies interior(#[trigger] self.snakes[i].cells(w, h)[c], w, h) by {
                lemma_snake_interior(self.snakes[i], w, h);
            }
            let m = moved.snakes@;
            assert forall|k: int| 0 <= k < before.players.len() implies #[trigger] self.players[k].role == if dies(m, before.players[k].id, w, h) {
                NodeRole::Viewer
            } else {
                before.players[k].role
            } by {
                assert(self.players[k] == settled.players[k]);
                assert(same_but_score(moved.players[k], before.players[k]));
            }
            assert(m.len() == before.snakes.len());
            assert(self.snakes@ == m.filter(|s: GameState_Snake| !dies(m, s.player_id, w, h)));
            assert forall|i: int| 0 <= i < m.len() implies stepped(
                #[trigger] m[i],
                old(self).snakes[i],
                eats(old(self).snakes@, old(self).foods@, i, dirs@, w, h),
                dirs@,
                w,
                h,
            ) by {
                assert(before.snakes@ == old(self).snakes@);
            }
            assert forall|i: int, k: int|
                0 <= i < before.snakes.len() && 0 <= k < before.players.len() && #[trigger] before.players[k].id
                    == #[trigger] before.snakes[i].player_id implies self.players[k].score == before.players[k].score
                    + if eats(before.snakes@, before.foods@, i, dirs@, w, h) {
                    1int
                } else {
                    0int
                } by {
                assert(self.players[k] == settled.players[k]);
                assert(same_but_role(settled.players[k], moved.players[k]));
            }
            assert forall|k: int|
                0 <= k < before.players.len() && !before.has_snake(before.players[k].id)
                    implies #[trigger] self.players[k].score == before.players[k].score by {
                assert(self.players[k] == settled.players[k]);
                assert(same_but_role(settled.players[k], moved.players[k]));
            }
            let e = settled.foods@;
            assert(settled.foods@ == moved.foods@);
            assert forall|p: int|
                e.len() <= p < self.foods.len() implies !self.occupied(#[trigger] self.foods[p].cell(), w, h) by {
                assert(!settled.occupied(self.foods[p].cell(), w, h));
                if self.occupied(self.foods[p].cell(), w, h) {
                    let i = choose|i: int| 0 <= i < self.snakes.len() && #[trigger] self.snakes[i].cells(w, h).contains(self.foods[p].cell());
                    assert(self.snakes[i] == settled.snakes[i]);
                }
            }
            assert(e.len() >= config.food_static ==> r is Ok && self.foods@ == e);
        }
        r
    }

    /// A fresh game hosted by `name`: the host (id 1) is master and owns a
    /// snake at (2, 2); one food lies at (3, 3).
    pub fn new_custom(name: String, ip: String, port: i32) -> (r: GameState)
        ensures
            r.wf(),
            r.state_order == 0,
            r.players.len() == 1,
            r.players[0].id == 1,
            r.players[0].name@ == name@,
            r.players[0].ip_address@ == ip@,
            r.players[0].port == port,
            r.players[0].role == NodeRole::Master,
            r.players[0].score == 0,
            r.snakes.len() == 1,
            r.snakes[0].player_id == 1,
            r.snakes[0].head() == (2int, 2int),
            r.snakes[0].head_direction == Direction::Right,
            r.foods@ == seq![GameState_Coord { x: 3, y: 3 }],
    {
        let host_id: i32 = 1;
        let mut players: Vec<GamePlayer> = Vec::new();
        players.push(GamePlayer::new_with_ip(name, host_id, NodeRole::Master, ip, port));
        let mut foods: Vec<GameState_Coord> = Vec::new();
        foods.push(GameState_Coord::new_custom(3, 3));
        let mut snakes: Vec<GameState_Snake> = Vec::new();
        snakes.push(GameState_Snake::new_custom(2, 2, host_id));
        let r = GameState { state_order: 0, snakes, foods, players };
        proof {
            assert(r.foods@ =~= seq![GameState_Coord { x: 3, y: 3 }]);
            assert(r.players[0].id == 1);
            assert(r.live_player(r.snakes[0].player_id));
        }
        r
    }

    pub fn custom_default() -> (r: GameState)
        ensures
            r.wf(),
            r.state_order == 0,
            r.players.len() == 1,
            r.players[0].role == NodeRole::Master,
            r.snakes.len() == 1,
    {
        GameState::new_custom(String::from_str("random"), String::from_str("0.0.0.0"), 0)
    }

    /// Gives player `id` a fresh snake with its head at `(x, y)`, when the
    /// player is live and has no snake yet.
    pub fn add_snake_at(&mut self, id: i32, x: i32, y: i32, width: i32, height: i32) -> (r: bool)
        requires
            old(self).wf(),
            old(self).inside(width as int, height as int),
            interior((x as int, y as int), width as int, height as int),
        ensures
            r == (old(self).live_player(id) && !old(self).has_snake(id)),
            r ==> final(self).snakes.len() == old(self).snakes.len() + 1,
            r ==> final(self).snakes@.drop_last() == old(self).snakes@,
            r ==> final(self).snakes@.last().player_id == id,
            r ==> final(self).snakes@.last().head() == (x as int, y as int),
            r ==> final(self).snakes@.last().length() == 2,
            r ==> final(self).snakes@.last().points.len() == 2 && final(self).snakes@.last().points[1].cell() == (-1int, 0int),
            r ==> final(self).snakes@.last().head_direction == Direction::Right,
            r ==> final(self).snakes@.last().state == crate::snake::SnakeState::Alive,
            !r ==> final(self).snakes@ == old(self).snakes@,
            final(self).players@ == old(self).players@,
            final(self).foods@ == old(self).foods@,
            final(self).state_order == old(self).state_order,
            final(self).wf(),
            final(self).inside(width as int, height as int),
    {
        match self.find_player(id) {
            Some(k) => {
                if self.players[k].role == NodeRole::Viewer {
                    return false;
                }
            },
            None => {
                return false;
            },
        }
        if self.find_snake(id).is_some() {
            return false;
        }
        let ghost before = self.snakes@;
        self.snakes.push(GameState_Snake::new_custom(x, y, id));
        proof {
            assert(self.snakes@.drop_last() =~= before);
            assert forall|a: int, b: int|
                0 <= a < self.snakes.len() && 0 <= b < self.snakes.len() && a != b implies #[trigger] self.snakes[a].player_id
                != #[trigger] self.snakes[b].player_id by {
                if a < before.len() {
                    assert(self.snakes[a] == before[a]);
                }
                if b < before.len() {
                    assert(self.snakes[b] == before[b]);
                }
            }
            assert forall|a: int| 0 <= a < self.snakes.len() implies (#[trigger] self.snakes[a]).wf() && self.snakes[a].inside(
                width as int,
                height as int,
            ) && self.live_player(self.snakes[a].player_id) by {
                if a < before.len() {
                    assert(self.snakes[a] == before[a]);
                }
            }
        }
        true
    }

    /// Spawns player `id`'s snake on a random interior cell.
    pub fn add_snake(&mut self, id: i32, config: &GameConfig) -> (r: bool)
        requires
            old(self).wf(),
            old(self).inside(config.width as int, config.height as int),
            config.wf(),
        ensures
            r == (old(self).live_player(id) && !old(self).has_snake(id)),
            r ==> final(self).snakes@.drop_last() == old(self).snakes@ && final(self).snakes@.last().player_id == id,
            r ==> interior(final(self).snakes@.last().head(), config.width as int, config.height as int),
            r ==> final(self).snakes@.last().length() == 2,
            r ==> final(self).snakes@.last().points.len() == 2 && final(self).snakes@.last().points[1].cell() == (-1int, 0int),
            r ==> final(self).snakes@.last().head_direction == Direction::Right,
            r ==> final(self).snakes@.last().state == crate::snake::SnakeState::Alive,
            !r ==> final(self).snakes@ == old(self).snakes@,
            final(self).players@ == old(self).players@,
            final(self).foods@ == old(self).foods@,
            final(self).state_order == old(self).state_order,
            final(self).wf(),
            final(self).inside(config.width as int, config.height as int),
    {
        let x = random_in_range(1, config.width - 1);
        let y = random_in_range(1, config.height - 1);
        self.add_snake_at(id, x, y, config.width, config.height)
    }

    /// Takes a snapshot from the master when it is newer than the local
    /// one; an older or equal snapshot changes nothing.
    pub fn apply_state(&mut self, incoming: GameState) -> (r: bool)
        ensures
            r == (incoming.state_order > old(self).state_order),
            r ==> *final(self) == incoming,
            !r ==> *final(self) == *old(self),
    {
        if incoming.state_order > self.state_order {
            *self = incoming;
            true
        } else {
            false
        }
    }

    /// Copies of all player records, in order.
    pub fn copy_players(&self) -> (r: Vec<GamePlayer>)
        ensures
            r.len() == self.players.len(),
            forall|k: int| 0 <= k < r.len() ==> same_player(#[trigger] r[k], self.players[k]),
    {
        let mut r: Vec<GamePlayer> = Vec::new();
        let mut k: usize = 0;
        while k < self.players.len()
            invariant
                k <= self.players.len(),
                r.len() == k,
                forall|q: int| 0 <= q < k ==> same_player(#[trigger] r[q], self.players[q]),
            decreases self.players.len() - k,
        {
            r.push(self.players[k].duplicate());
            k += 1;
        }
        r
    }

    /// A copy of the whole state, as it goes on the wire.
    pub fn duplicate(&self) -> (r: GameState)
        ensures
            crate::codec::state_w(r) == crate::codec::state_w(*self),
    {
        let mut snakes: Vec<GameState_Snake> = Vec::new();
        let mut i: usize = 0;
        while i < self.snakes.len()
            invariant
                i <= self.snakes.len(),
                snakes.len() == i,
                forall|q: int| 0 <= q < i ==> crate::codec::snake_w(#[trigger] snakes[q]) == crate::codec::snake_w(self.snakes[q]),
            decreases self.snakes.len() - i,
        {
            let s = self.snakes[i].duplicate();
            snakes.push(s);
            proof {
                assert(crate::codec::snake_w(snakes[i as int]) == crate::codec::snake_w(self.snakes[i as int]));
            }
            i += 1;
        }
        let mut foods: Vec<GameState_Coord> = Vec::new();
        let mut p: usize = 0;
        while p < self.foods.len()
            invariant
                p <= self.foods.len(),
                foods@ == self.foods@.subrange(0, p as int),
            decreases self.foods.len() - p,
        {
            foods.push(self.foods[p]);
            proof {
                assert(self.foods@.subrange(0, p + 1) =~= self.foods@.subrange(0, p as int).push(self.foods[p as int]));
            }
            p += 1;
        }
        proof {
            assert(self.foods@.subrange(0, self.foods.len() as int) =~= self.foods@);
        }
        let r = GameState { state_order: self.state_order, snakes, foods, players: self.copy_players() };
        proof {
            assert(crate::codec::snake_list_view(r.snakes@) =~= crate::codec::snake_list_view(self.snakes@));
            assert(crate::codec::player_list_view(r.players@) =~= crate::codec::player_list_view(self.players@));
        }
        r
    }

    /// Describes this game for a discovering node; it is named after its
    /// master.
    pub fn generate_announcement(&self, config: GameConfig) -> (r: GameAnnouncement)
        ensures
            r.can_join,
            r.config == config,
            r.players.len() == self.players.len(),
            forall|k: int| 0 <= k < r.players.len() ==> same_player(#[trigger] r.players[k], self.players[k]),
            r.game_name@ == announced_name(self.players@),
            (exists|k: int|
                0 <= k < self.players.len() && #[trigger] self.players[k].role == NodeRole::Master && r.game_name@
                    == self.players[k].name@ + " Game"@) || ((forall|k: int|
                0 <= k < self.players.len() ==> #[trigger] self.players[k].role != NodeRole::Master) && r.game_name@
                == "Unnamed Game"@),
    {
        let mut k: usize = 0;
        let mut found: Option<usize> = None;
        proof {
            assert(self.players@.subrange(0, self.players.len() as int) =~= self.players@);
        }
        while k < self.players.len()
            invariant
                k <= self.players.len(),
                found is None ==> forall|q: int| 0 <= q < k ==> #[trigger] self.players[q].role != NodeRole::Master,
                found is None ==> announced_name(self.players@) == announced_name(self.players@.subrange(k as int, self.players.len() as int)),
                found matches Some(m) ==> m < self.players.len() && self.players[m as int].role == NodeRole::Master
                    && announced_name(self.players@) == self.players[m as int].name@ + " Game"@,
            decreases self.players.len() - k,
        {
            proof {
                let sub = self.players@.subrange(k as int, self.players.len() as int);
                assert(sub[0] == self.players[k as int]);
                assert(sub.drop_first() =~= self.players@.subrange(k + 1, self.players.len() as int));
            }
            if found.is_none() && self.players[k].role == NodeRole::Master {
                found = Some(k);
            }
            k += 1;
        }
        proof {
            assert(self.players@.subrange(0, self.players.len() as int) =~= self.players@);
            assert(self.players@.subrange(self.players.len() as int, self.players.len() as int).len() == 0);
        }
        let game_name = match found {
            Some(m) => self.players[m].name.clone().concat(" Game"),
            None => String::from_str("Unnamed Game"),
        };
        GameAnnouncement { players: self.copy_players(), config, can_join: true, game_name }
    }

    /// Checks at run time that this state is one the engine may advance on
    /// a board of the given size.
    pub fn is_valid(&self, width: i32, height: i32) -> (r: bool)
        ensures
            r == (self.wf() && self.inside(width as int, height as int)),
    {
        let mut snake_ids: Vec<i32> = Vec::new();
        let mut i: usize = 0;
        while i < self.snakes.len()
            invariant
                i <= self.snakes.len(),
                snake_ids.len() == i,
                forall|q: int| 0 <= q < i ==> snake_ids[q] == #[trigger] self.snakes[q].player_id,
                forall|q: int| 0 <= q < i ==> (#[trigger] self.snakes[q]).wf() && self.snakes[q].inside(width as int, height as int)
                    && self.live_player(self.snakes[q].player_id),
            decreases self.snakes.len() - i,
        {
            if !self.snakes[i].is_well_formed() {
                return false;
            }
            let h = *self.snakes[i].get_head_position();
            if h.x < 1 || h.x as i64 > width as i64 - 2 || h.y < 1 || h.y as i64 > height as i64 - 2 {
                assert(!self.snakes[i as int].inside(width as int, height as int));
                return false;
            }
            match self.find_player(self.snakes[i].player_id) {
                Some(k) => {
                    if self.players[k].role == NodeRole::Viewer {
                        proof {
                            if self.wf() {
                                assert(self.live_player(self.snakes[i as int].player_id));
                                let m = choose|m: int| 0 <= m < self.players.len() && #[trigger] self.players[m].id == self.snakes[i as int].player_id
                                    && self.players[m].role != NodeRole::Viewer;
                                assert(self.players[m].id == self.players[k as int].id);
                            }
                        }
                        return false;
                    }
                },
                None => {
                    return false;
                },
            }
            snake_ids.push(self.snakes[i].player_id);
            i += 1;
        }
        if !all_distinct(&snake_ids) {
            proof {
                let (a, b) = choose|a: int, b: int| 0 <= a < snake_ids.len() && 0 <= b < snake_ids.len() && a != b && snake_ids[a] == snake_ids[b];
                assert(self.snakes[a].player_id == self.snakes[b].player_id);
            }
            return false;
        }
        if !self.players_distinct() {
            return false;
        }
        let mut p: usize = 0;
        while p < self.foods.len()
            invariant
                p <= self.foods.len(),
                forall|q: int| 0 <= q < p ==> interior(#[trigger] self.foods[q].cell(), width as int, height as int),
            decreases self.foods.len() - p,
        {
            let f = self.foods[p];
            if f.x < 1 || f.x as i64 > width as i64 - 2 || f.y < 1 || f.y as i64 > height as i64 - 2 {
                assert(!interior(self.foods[p as int].cell(), width as int, height as int));
                return false;
            }
            p += 1;
        }
        let mut a: usize = 0;
        while a < self.foods.len()
            invariant
                a <= self.foods.len(),
                forall|x: int, y: int| 0 <= x < a && 0 <= y < self.foods.len() && x != y ==> self.foods[x] != self.foods[y],
            decreases self.foods.len() - a,
        {
            let mut b: usize = 0;
            while b < self.foods.len()
                invariant
                    a < self.foods.len(),
                    b <= self.foods.len(),
                    forall|x: int, y: int| 0 <= x < a && 0 <= y < self.foods.len() && x != y ==> self.foods[x] != self.foods[y],
                    forall|y: int| 0 <= y < b && a != y ==> self.foods[a as int] != self.foods[y],
                decreases self.foods.len() - b,
            {
                if a != b && self.foods[a].x == self.foods[b].x && self.foods[a].y == self.foods[b].y {
                    assert(self.foods[a as int] == self.foods[b as int]);
                    return false;
                }
                b += 1;
            }
            a += 1;
        }
        proof {
            assert forall|x: int, y: int|
                0 <= x < self.snakes.len() && 0 <= y < self.snakes.len() && x != y implies #[trigger] self.snakes[x].player_id
                != #[trigger] self.snakes[y].player_id by {
                assert(snake_ids[x] == self.snakes[x].player_id);
                assert(snake_ids[y] == self.snakes[y].player_id);
            }
        }
        true
    }

    fn players_distinct(&self) -> (r: bool)
        ensures
            r == forall|a: int, b: int|
                0 <= a < self.players.len() && 0 <= b < self.players.len() && a != b ==> #[trigger] self.players[a].id
                    != #[trigger] self.players[b].id,
    {
        let mut ids: Vec<i32> = Vec::new();
        let mut k: usize = 0;
        while k < self.players.len()
            invariant
                k <= self.players.len(),
                ids.len() == k,
                forall|q: int| 0 <= q < k ==> ids[q] == #[trigger] self.players[q].id,
            decreases self.players.len() - k,
        {
            ids.push(self.players[k].id);
            k += 1;
        }
        let r = all_distinct(&ids);
        proof {
            if r {
                assert forall|a: int, b: int|
                    0 <= a < self.players.len() && 0 <= b < self.players.len() && a != b implies #[trigger] self.players[a].id
                    != #[trigger] self.players[b].id by {
                    assert(ids[a] == self.players[a].id);
                    assert(ids[b] == self.players[b].id);
                }
            } else {
                let (a, b) = choose|a: int, b: int| 0 <= a < ids.len() && 0 <= b < ids.len() && a != b && ids[a] == ids[b];
                assert(self.players[a].id == self.players[b].id);
            }
        }
        r
    }
}

/// A snake whose head is off the outer ring covers no cell of the ring.
pub proof fn lemma_snake_interior(s: GameState_Snake, w: int, h: int)
    requires
        s.wf(),
        s.inside(w, h),
        board_ok(w, h),
    ensures
        forall|c: int| 0 <= c < s.cells(w, h).len() ==> interior(#[trigger] s.cells(w, h)[c], w, h),
{
    assert forall|i: int| 0 <= i < s.runs().len() implies crate::snake::single_axis(#[trigger] s.runs()[i].cell()) by {
        assert(s.runs()[i] == s.points[i + 1]);
    }
    lemma_cells_from_interior(s.head(), s.runs(), w, h);
    assert forall|c: int| 0 <= c < s.cells(w, h).len() implies interior(#[trigger] s.cells(w, h)[c], w, h) by {
        if c > 0 {
            assert(s.cells(w, h)[c] == cells_from(s.head(), s.runs(), w, h)[c - 1]);
        }
    }
}

/// Turn validation refuses a steer request that points exactly against a
/// live snake's heading, whatever role its sender has.
pub proof fn lemma_reverse_steer_rejected(s: GameState, i: int)
    requires
        0 <= i < s.snakes.len(),
    ensures
        !s.steer_accepted(s.snakes[i].head_direction.spec_opposite(), s.snakes[i].player_id),
{
}

/// Whatever turns a game goes through, no snake ever covers a cell of the
/// reserved outer ring: every state the engine keeps has its heads in the
/// interior, and such a state has every body cell there.
pub proof fn lemma_bodies_avoid_outer_ring(s: GameState, w: int, h: int)
    requires
        s.wf(),
        s.inside(w, h),
        board_ok(w, h),
    ensures
        forall|i: int, c: int|
            0 <= i < s.snakes.len() && 0 <= c < s.snakes[i].cells(w, h).len() ==> interior(
                #[trigger] s.snakes[i].cells(w, h)[c],
                w,
                h,
            ),
{
    assert forall|i: int, c: int|
        0 <= i < s.snakes.len() && 0 <= c < s.snakes[i].cells(w, h).len() implies interior(#[trigger] s.snakes[i].cells(w, h)[c], w, h) by {
        lemma_snake_interior(s.snakes[i], w, h);
    }
}
} // verus!
