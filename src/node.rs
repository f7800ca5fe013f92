use vstd::prelude::*;

use std::collections::HashMap;

use crate::codec::Payload;
use crate::config::GameConfig;
use crate::coord::GameState_Coord;
use crate::direction::Direction;
use crate::peers::{HeardSet, PendingAcks};
use crate::player::{GamePlayer, IdGenerator, NodeRole, PlayerType};
use crate::snake::GameState_Snake;
use crate::state::{dies, eats, food_at, head_lands, stepped, announced_name, chosen_dir, same_but_role, same_identity, EngineError, GameState};

verus! {

broadcast use vstd::std_specs::hash::group_hash_axioms;

/// Every message but an acknowledgment or an announcement is acknowledged.
pub fn needs_ack(p: &Payload) -> (r: bool)
    ensures
        r == !(p is Ack || p is Announcement),
{
    match p {
        Payload::Ack => false,
        Payload::Announcement(_) => false,
        _ => true,
    }
}

/// The heading the master's turn gives snake `s`: the steer request of its
/// player when turn validation accepts it, else its current heading.
pub open spec fn honoured_dir(state: GameState, moves: Map<i32, Direction>, s: GameState_Snake) -> Direction {
    if moves.contains_key(s.player_id) && state.steer_accepted(moves[s.player_id], s.player_id) {
        moves[s.player_id]
    } else {
        s.head_direction
    }
}

/// What the dispatcher answers to one envelope.
#[derive(Clone, Copy, Debug, PartialEq, Eq, Structural)]
pub enum Reply {
    /// Nothing goes back.
    Nothing,
    /// An acknowledgment of the envelope goes to player `to`.
    Ack { to: i32 },
    /// A join was admitted: an acknowledgment names the new player `id`.
    JoinAccepted { id: i32 },
    /// A join was refused: an error goes back to the requester.
    JoinRefused(JoinError),
    /// A discovery is answered with this node's announcement.
    Announce,
}

/// Why a join request is refused.
#[derive(Clone, Copy, Debug, PartialEq, Eq, Structural)]
pub enum JoinError {
    /// The request names another game than the one hosted here.
    WrongGame,
    /// No fresh player id could be minted.
    NoFreeId,
}

/// One participant's view of the game and of its peers: the state every
/// role handler and the master's turn work on.
#[derive(Debug)]
pub struct Node {
    pub my_id: i32,
    pub master_id: i32,
    pub state: GameState,
    pub config: GameConfig,
    /// The latest steer request of each player.
    pub moves: HashMap<i32, Direction>,
    pub heard: HeardSet,
    pub pending: PendingAcks,
    pub ids: IdGenerator,
    pub next_seq: i64,
}

impl Node {
    /// The game state is one the engine can advance.
    pub open spec fn wf(&self) -> bool {
        &&& self.config.wf()
        &&& self.state.wf()
        &&& self.state.inside(self.config.width as int, self.config.height as int)
    }

    /// A node for a game it hosts, as master; ids for joiners start after
    /// the host's.
    pub fn new_master(state: GameState, config: GameConfig, my_id: i32) -> (r: Node)
        requires
            my_id < i32::MAX,
        ensures
            r.my_id == my_id,
            r.master_id == my_id,
            r.state == state,
            r.config == config,
            r.moves@ == Map::<i32, Direction>::empty(),
            r.ids.next_id == my_id + 1,
    {
        Node {
            my_id,
            master_id: my_id,
            state,
            config,
            moves: HashMap::new(),
            heard: HeardSet::new(),
            pending: PendingAcks::new(),
            ids: IdGenerator::starting_at(my_id + 1),
            next_seq: 1,
        }
    }

    /// A node that joined the game of `master_id` and was given `my_id`.
    pub fn new_follower(state: GameState, config: GameConfig, my_id: i32, master_id: i32) -> (r: Node)
        ensures
            r.my_id == my_id,
            r.master_id == master_id,
            r.state == state,
            r.config == config,
            r.moves@ == Map::<i32, Direction>::empty(),
    {
        Node {
            my_id,
            master_id,
            state,
            config,
            moves: HashMap::new(),
            heard: HeardSet::new(),
            pending: PendingAcks::new(),
            ids: IdGenerator::new(),
            next_seq: 1,
        }
    }

    /// Checks at run time that this node may run its handlers and turns.
    pub fn is_ready(&self) -> (r: bool)
        ensures
            r == self.wf(),
    {
        self.config.width >= 3 && self.config.height >= 3 && self.config.food_static >= 0 && self.config.state_delay_ms > 0
            && self.state.is_valid(self.config.width, self.config.height)
    }

    pub fn is_master(&self) -> (r: bool)
        ensures
            r == (self.my_id == self.master_id),
    {
        self.my_id == self.master_id
    }

    /// The next sequence number for an outbound envelope.
    pub fn next_msg_seq(&mut self) -> (r: i64)
        requires
            old(self).next_seq < i64::MAX,
        ensures
            r == old(self).next_seq,
            final(self).next_seq == old(self).next_seq + 1,
            final(self).state == old(self).state,
            final(self).my_id == old(self).my_id,
            final(self).master_id == old(self).master_id,
    {
        let r = self.next_seq;
        self.next_seq = self.next_seq + 1;
        r
    }

    /// Remembers the latest steer request of `sender_id`.
    pub fn on_steer(&mut self, sender_id: i32, direction: Direction)
        ensures
            final(self).heard == old(self).heard,
            final(self).pending == old(self).pending,
            final(self).moves@ == old(self).moves@.insert(sender_id, direction),
            final(self).state == old(self).state,
            final(self).my_id == old(self).my_id,
            final(self).master_id == old(self).master_id,
            final(self).config == old(self).config,
    {
        self.moves.insert(sender_id, direction);
    }

    /// A snapshot from `sender_id`: taken only from the recognised master,
    /// only when newer than the local one, and only when it is a state the
    /// engine can work on; anything else is dropped.
    pub fn on_state(&mut self, sender_id: i32, incoming: GameState) -> (r: bool)
        requires
            old(self).wf(),
        ensures
            final(self).heard == old(self).heard,
            final(self).pending == old(self).pending,
            r == (sender_id == old(self).master_id && incoming.state_order > old(self).state.state_order && incoming.wf()
                && incoming.inside(old(self).config.width as int, old(self).config.height as int)),
            r ==> final(self).state == incoming,
            !r ==> final(self).state == old(self).state,
            final(self).my_id == old(self).my_id,
            final(self).master_id == old(self).master_id,
            final(self).config == old(self).config,
            final(self).wf(),
    {
        if sender_id != self.master_id || !incoming.is_valid(self.config.width, self.config.height) {
            return false;
        }
        self.state.apply_state(incoming)
    }

    /// A role change announced by `sender_id`. A master ignores it, so a
    /// stale promotion cannot demote the current leader; otherwise a
    /// sender claiming the master role becomes the recognised master.
    pub fn on_role_change(&mut self, sender_id: i32, sender_role: Option<NodeRole>) -> (r: bool)
        ensures
            final(self).heard == old(self).heard,
            final(self).pending == old(self).pending,
            r == (old(self).my_id != old(self).master_id && sender_role == Some(NodeRole::Master)),
            r ==> final(self).master_id == sender_id,
            !r ==> final(self).master_id == old(self).master_id,
            final(self).state == old(self).state,
            final(self).my_id == old(self).my_id,
            final(self).config == old(self).config,
    {
        if self.is_master() {
            return false;
        }
        match sender_role {
            Some(NodeRole::Master) => {
                self.master_id = sender_id;
                true
            },
            _ => false,
        }
    }

    /// End of a liveness window on a node that is not master: if the
    /// master was not heard from and this node is the deputy, it takes
    /// over: the old master becomes a viewer and this node the master.
    /// The window starts afresh either way.
    pub fn master_window_elapsed(&mut self) -> (r: bool)
        requires
            old(self).wf(),
        ensures
            r == (old(self).my_id != old(self).master_id && !old(self).heard.ids@.contains(old(self).master_id)
                && old(self).state.role_of(old(self).my_id, NodeRole::Deputy)),
            r ==> final(self).master_id == old(self).my_id,
            r ==> final(self).state.role_of(old(self).my_id, NodeRole::Master),
            r && old(self).state.has_player(old(self).master_id) ==> final(self).state.role_of(
                old(self).master_id,
                NodeRole::Viewer,
            ),
            !r ==> final(self).master_id == old(self).master_id && final(self).state == old(self).state,
            final(self).state.state_order == old(self).state.state_order,
            final(self).state.foods@ == old(self).state.foods@,
            final(self).state.players.len() == old(self).state.players.len(),
            r ==> forall|k: int|
                0 <= k < old(self).state.players.len() ==> same_but_role(#[trigger] final(self).state.players[k], old(self).state.players[k])
                    && final(self).state.players[k].role == if old(self).state.players[k].id == old(self).master_id {
                    NodeRole::Viewer
                } else if old(self).state.players[k].id == old(self).my_id {
                    NodeRole::Master
                } else {
                    old(self).state.players[k].role
                },
            r ==> forall|j: int|
                0 <= j < old(self).state.snakes.len() && #[trigger] old(self).state.snakes[j].player_id == old(self).master_id
                    ==> final(self).state.snakes@ == old(self).state.snakes@.remove(j),
            r ==> (forall|j: int| 0 <= j < old(self).state.snakes.len() ==> #[trigger] old(self).state.snakes[j].player_id != old(self).master_id)
                ==> final(self).state.snakes@ == old(self).state.snakes@,
            final(self).heard.ids@.len() == 0,
            final(self).my_id == old(self).my_id,
            final(self).config == old(self).config,
            final(self).wf(),
    {
        let heard_master = self.heard.was_heard(self.master_id);
        self.heard.clear();
        if self.is_master() || heard_master {
            return false;
        }
        let promoted = self.state.take_over_from(self.my_id, self.master_id);
        if promoted {
            self.master_id = self.my_id;
        }
        promoted
    }

    /// The steer requests that the turn honours: one per live snake whose
    /// player asked for a heading that is neither from a viewer nor the
    /// reverse of the snake's heading.
    pub fn validated_moves(&self) -> (r: HashMap<i32, Direction>)
        requires
            self.state.wf(),
        ensures
            forall|i: int|
                0 <= i < self.state.snakes.len() ==> #[trigger] chosen_dir(r@, self.state.snakes[i]) == if self.moves@.contains_key(
                    self.state.snakes[i].player_id,
                ) && self.state.steer_accepted(self.moves@[self.state.snakes[i].player_id], self.state.snakes[i].player_id) {
                    self.moves@[self.state.snakes[i].player_id]
                } else {
                    self.state.snakes[i].head_direction
                },
    {
        let mut r: HashMap<i32, Direction> = HashMap::new();
        let mut i: usize = 0;
        while i < self.state.snakes.len()
            invariant
                i <= self.state.snakes.len(),
                self.state.wf(),
                forall|q: int| 0 <= q < self.state.snakes.len() && #[trigger] r@.contains_key(self.state.snakes[q].player_id) ==> q < i,
                forall|q: int|
                    0 <= q < i ==> #[trigger] chosen_dir(r@, self.state.snakes[q]) == if self.moves@.contains_key(
                        self.state.snakes[q].player_id,
                    ) && self.state.steer_accepted(self.moves@[self.state.snakes[q].player_id], self.state.snakes[q].player_id) {
                        self.moves@[self.state.snakes[q].player_id]
                    } else {
                        self.state.snakes[q].head_direction
                    },
            decreases self.state.snakes.len() - i,
        {
            let id = self.state.snakes[i].player_id;
            let ghost prev = r@;
            match self.moves.get(&id) {
                Some(d) => {
                    if self.state.steer_validate(*d, id) {
                        r.insert(id, *d);
                    }
                },
                None => {},
            }
            proof {
                assert forall|q: int| 0 <= q < self.state.snakes.len() && #[trigger] r@.contains_key(self.state.snakes[q].player_id)
                    implies q < i + 1 by {
                    if q > i {
                        assert(self.state.snakes[q].player_id != id);
                        assert(prev.contains_key(self.state.snakes[q].player_id));
                    }
                }
                assert forall|q: int| 0 <= q < i implies #[trigger] chosen_dir(r@, self.state.snakes[q]) == chosen_dir(prev, self.state.snakes[q]) by {
                    assert(self.state.snakes[q].player_id != id);
                }
                assert(!prev.contains_key(id));
            }
            i += 1;
        }
        r
    }

    /// The master's turn: advances the game with the validated steer
    /// requests, demotes every player that was silent during the window,
    /// and names a deputy if none is left; returns the index of a newly
    /// promoted deputy. The window starts afresh.
    pub fn play_turn(&mut self) -> (r: Result<Option<usize>, EngineError>)
        requires
            old(self).wf(),
        ensures
            final(self).wf(),
            final(self).my_id == old(self).my_id,
            final(self).master_id == old(self).master_id,
            final(self).config == old(self).config,
            final(self).heard.ids@.len() == 0,
            (r == Err::<Option<usize>, EngineError>(EngineError::CounterOverflow)) == (old(self).state.state_order == u64::MAX
                || !old(self).state.scores_below_max()),
            r is Ok ==> final(self).state.state_order == old(self).state.state_order + 1,
            final(self).state.players.len() == old(self).state.players.len(),
            forall|k: int|
                0 <= k < old(self).state.players.len() ==> same_identity(#[trigger] final(self).state.players[k], old(self).state.players[k]),
            r != Err::<Option<usize>, EngineError>(EngineError::CounterOverflow) ==> final(self).state.state_order
                == old(self).state.state_order + 1,
            r matches Ok(Some(k)) ==> k < final(self).state.players.len() && final(self).state.players[k as int].role
                == NodeRole::Deputy,
            r != Err::<Option<usize>, EngineError>(EngineError::CounterOverflow) ==> exists|
                v: Map<i32, Direction>,
                m: Seq<GameState_Snake>,
                e: Seq<GameState_Coord>,
            |
                #![trigger v.dom(), m.len(), e.len()]
                {
                    let w = old(self).config.width as int;
                    let h = old(self).config.height as int;
                    &&& forall|i: int|
                        0 <= i < old(self).state.snakes.len() ==> #[trigger] chosen_dir(v, old(self).state.snakes[i])
                            == honoured_dir(old(self).state, old(self).moves@, old(self).state.snakes[i])
                    &&& m.len() == old(self).state.snakes.len()
                    &&& forall|i: int|
                        0 <= i < m.len() ==> stepped(
                            #[trigger] m[i],
                            old(self).state.snakes[i],
                            eats(old(self).state.snakes@, old(self).state.foods@, i, v, w, h),
                            v,
                            w,
                            h,
                        )
                    &&& final(self).state.snakes@ == m.filter(|s: GameState_Snake| !dies(m, s.player_id, w, h)).filter(
                        |s: GameState_Snake| s.player_id == old(self).my_id || old(self).heard.ids@.contains(s.player_id),
                    )
                    &&& forall|c: (int, int)| #[trigger] food_at(e, c) == (food_at(old(self).state.foods@, c) && !head_lands(
                        old(self).state.snakes@,
                        c,
                        v,
                        w,
                        h,
                    ))
                    &&& final(self).state.foods@.subrange(0, e.len() as int) == e
                    &&& e.len() >= old(self).config.food_static ==> r is Ok
                },
            r != Err::<Option<usize>, EngineError>(EngineError::CounterOverflow) ==> forall|k: int|
                0 <= k < old(self).state.players.len() && old(self).state.players[k].id != old(self).my_id
                    && !old(self).heard.ids@.contains(old(self).state.players[k].id) ==> #[trigger] final(self).state.players[k].role
                    == NodeRole::Viewer,
    {
        if self.state.state_order == u64::MAX || !self.state.scores_ok() {
            self.heard.clear();
            return Err(EngineError::CounterOverflow);
        }
        let ghost before = self.state;
        let ghost heard = self.heard.ids@;
        let moves = self.validated_moves();
        let outcome = self.state.update_snakes(&moves, &self.config);
        let ghost advanced = self.state;
        self.state.demote_silent(&self.heard.ids, self.my_id);
        self.heard.clear();
        let ghost settled = self.state;
        let deputy = self.state.assign_deputy();
        proof {
            assert forall|k: int| 0 <= k < before.players.len() implies same_identity(#[trigger] self.state.players[k], before.players[k]) by {
                assert(same_but_role(self.state.players[k], settled.players[k]));
                assert(same_but_role(settled.players[k], advanced.players[k]));
                assert(same_identity(advanced.players[k], before.players[k]));
            }
            assert forall|k: int|
                0 <= k < before.players.len() && before.players[k].id != self.my_id && !heard.contains(before.players[k].id)
                    implies #[trigger] self.state.players[k].role == NodeRole::Viewer by {
                assert(same_identity(advanced.players[k], before.players[k]));
                assert(settled.players[k].role == NodeRole::Viewer);
                assert(same_but_role(self.state.players[k], settled.players[k]));
            }
            let w = self.config.width as int;
            let h = self.config.height as int;
            assert forall|i: int| 0 <= i < self.state.snakes.len() implies (#[trigger] self.state.snakes[i]).inside(w, h) by {
                assert(self.state.snakes[i] == settled.snakes[i]);
            }
            assert forall|p: int| 0 <= p < self.state.foods.len() implies crate::coord::interior(#[trigger] self.state.foods[p].cell(), w, h) by {
                assert(self.state.foods[p] == settled.foods[p]);
            }
            let v = moves@;
            assert forall|i: int| 0 <= i < before.snakes.len() implies #[trigger] chosen_dir(v, before.snakes[i]) == honoured_dir(
                before,
                old(self).moves@,
                before.snakes[i],
            ) by {}
            let m = choose|m: Seq<GameState_Snake>| #![trigger m.len()]
                {
                    &&& m.len() == before.snakes.len()
                    &&& forall|i: int| 0 <= i < m.len() ==> crate::state::moved_from(#[trigger] m[i], before.snakes[i], v, w, h)
                    &&& forall|i: int|
                        0 <= i < m.len() ==> stepped(#[trigger] m[i], before.snakes[i], eats(before.snakes@, before.foods@, i, v, w, h), v, w, h)
                    &&& advanced.snakes@ == m.filter(|s: GameState_Snake| !dies(m, s.player_id, w, h))
                    &&& forall|k: int|
                        0 <= k < before.players.len() ==> #[trigger] advanced.players[k].role == if dies(m, before.players[k].id, w, h) {
                            NodeRole::Viewer
                        } else {
                            before.players[k].role
                        }
                };
            let e = choose|e: Seq<GameState_Coord>| #![trigger e.len()]
                {
                    &&& forall|c: (int, int)| #[trigger] food_at(e, c) == (food_at(before.foods@, c) && !head_lands(before.snakes@, c, v, w, h))
                    &&& advanced.foods@.subrange(0, e.len() as int) == e
                    &&& forall|p: int| e.len() <= p < advanced.foods.len() ==> !advanced.occupied(#[trigger] advanced.foods[p].cell(), w, h)
                    &&& e.len() >= self.config.food_static ==> outcome is Ok && advanced.foods@ == e
                    &&& outcome is Ok && e.len() <= self.config.food_static ==> advanced.foods.len() == self.config.food_static
                };
            assert(self.state.foods@ == advanced.foods@);
            assert(self.state.snakes@ == advanced.snakes@.filter(|s: GameState_Snake| s.player_id == self.my_id || heard.contains(s.player_id)));
        }
        match outcome {
            Ok(()) => Ok(deputy),
            Err(e) => Err(e),
        }
    }

    /// Admits a player asking to join the game named `game_name`: it gets
    /// a fresh id, the requested role (normal unless it asked to watch)
    /// and, unless it only watches, a snake.
    pub fn on_join(
        &mut self,
        game_name: &String,
        player_name: String,
        player_type: PlayerType,
        requested_role: NodeRole,
        ip: String,
        port: i32,
    ) -> (r: Result<i32, JoinError>)
        requires
            old(self).wf(),
        ensures
            final(self).heard == old(self).heard,
            final(self).pending == old(self).pending,
            final(self).wf(),
            final(self).my_id == old(self).my_id,
            final(self).master_id == old(self).master_id,
            final(self).config == old(self).config,
            final(self).state.state_order == old(self).state.state_order,
            final(self).state.foods@ == old(self).state.foods@,
            (r == Err::<i32, JoinError>(JoinError::WrongGame)) == (game_name@ != announced_name(old(self).state.players@)),
            (r == Err::<i32, JoinError>(JoinError::NoFreeId)) == (game_name@ == announced_name(old(self).state.players@) && (
            old(self).ids.next_id == i32::MAX || old(self).state.has_player(old(self).ids.next_id))),
            r == Err::<i32, JoinError>(JoinError::WrongGame) ==> final(self).ids == old(self).ids,
            match r {
                Ok(id) => {
                    &&& id == old(self).ids.next_id
                    &&& !old(self).state.has_player(id)
                    &&& final(self).state.players@.last().ip_address@ == ip@
                    &&& final(self).state.players@.last().port == port
                    &&& final(self).state.players@.last().player_type == player_type
                    &&& requested_role != NodeRole::Viewer ==> final(self).state.snakes@.drop_last() == old(self).state.snakes@
                        && final(self).state.snakes@.last().player_id == id
                    &&& requested_role == NodeRole::Viewer ==> final(self).state.snakes@ == old(self).state.snakes@
                    &&& final(self).state.players.len() == old(self).state.players.len() + 1
                    &&& final(self).state.players@.drop_last() == old(self).state.players@
                    &&& final(self).state.players@.last().id == id
                    &&& final(self).state.players@.last().name@ == player_name@
                    &&& final(self).state.players@.last().score == 0
                    &&& final(self).state.players@.last().role == if requested_role == NodeRole::Viewer {
                        NodeRole::Viewer
                    } else {
                        NodeRole::Normal
                    }
                },
                Err(_) => final(self).state.players@ == old(self).state.players@ && final(self).state.snakes@
                    == old(self).state.snakes@,
            },
    {
        let announced = self.state.generate_announcement(self.config);
        if !(announced.game_name == *game_name) {
            return Err(JoinError::WrongGame);
        }
        if self.ids.next_id == i32::MAX {
            return Err(JoinError::NoFreeId);
        }
        let id = self.ids.generate_id();
        if self.state.find_player(id).is_some() {
            return Err(JoinError::NoFreeId);
        }
        let role = if requested_role == NodeRole::Viewer {
            NodeRole::Viewer
        } else {
            NodeRole::Normal
        };
        let ghost before = self.state;
        self.state.players.push(GamePlayer::custom_new(player_name, id, ip, port, role, player_type, 0));
        proof {
            assert(self.state.players@.drop_last() =~= before.players@);
            assert forall|a: int, b: int|
                0 <= a < self.state.players.len() && 0 <= b < self.state.players.len() && a != b implies #[trigger] self.state.players[a].id
                != #[trigger] self.state.players[b].id by {
                if a < before.players.len() {
                    assert(self.state.players[a] == before.players[a]);
                }
                if b < before.players.len() {
                    assert(self.state.players[b] == before.players[b]);
                }
            }
            assert forall|q: int| 0 <= q < self.state.snakes.len() implies self.state.live_player(#[trigger] self.state.snakes[q].player_id) by {
                let m = choose|m: int| 0 <= m < before.players.len() && #[trigger] before.players[m].id == before.snakes[q].player_id
                    && before.players[m].role != NodeRole::Viewer;
                assert(self.state.players[m] == before.players[m]);
            }
        }
        if role != NodeRole::Viewer {
            proof {
                assert(self.state.players[before.players.len() as int].id == id);
                assert(self.state.live_player(id));
                assert forall|q: int| 0 <= q < self.state.snakes.len() implies #[trigger] self.state.snakes[q].player_id != id by {
                    if self.state.snakes[q].player_id == id {
                        assert(before.live_player(before.snakes[q].player_id));
                    }
                }
            }
            self.state.add_snake(id, &self.config);
        }
        Ok(id)
    }

    /// The inbound dispatcher: routes one decoded envelope from the
    /// player `sender` (if the address is known) at `ip`:`port` to its
    /// handler, counts the sender as heard from unless it is joining, and
    /// says what goes back. Only a master admits players.
    pub fn dispatch(&mut self, payload: Payload, msg_seq: i64, sender: Option<i32>, ip: String, port: i32) -> (r: Reply)
        requires
            old(self).wf(),
        ensures
            final(self).wf(),
            final(self).my_id == old(self).my_id,
            final(self).config == old(self).config,
            forall|x: i32| #[trigger] final(self).heard.ids@.contains(x) == (old(self).heard.ids@.contains(x) || (sender == Some(x)
                && !(payload is Join))),
            match payload {
                Payload::Join(j) => if old(self).my_id == old(self).master_id {
                    &&& (r == Reply::JoinRefused(JoinError::WrongGame)) == (j.game_name@ != announced_name(old(self).state.players@))
                    &&& (r == Reply::JoinRefused(JoinError::NoFreeId)) == (j.game_name@ == announced_name(old(self).state.players@)
                        && (old(self).ids.next_id == i32::MAX || old(self).state.has_player(old(self).ids.next_id)))
                    &&& r is JoinAccepted || r is JoinRefused
                    &&& r matches Reply::JoinAccepted { id } ==> id == old(self).ids.next_id && final(self).state.players@.drop_last()
                        == old(self).state.players@ && final(self).state.players@.last().id == id
                        && final(self).state.players@.last().ip_address@ == ip@ && final(self).state.players@.last().port == port
                } else {
                    r == Reply::Nothing && final(self).state == old(self).state
                },
                Payload::Discover => r == Reply::Announce && final(self).state == old(self).state,
                Payload::Announcement(_) => r == Reply::Nothing && final(self).state == old(self).state,
                Payload::Ack => {
                    &&& r == Reply::Nothing
                    &&& final(self).state == old(self).state
                    &&& forall|p: i32, q: i64| #[trigger] final(self).pending.pending(p, q) == (old(self).pending.pending(p, q)
                        && !(sender == Some(p) && q == msg_seq))
                },
                Payload::Steer(d) => {
                    &&& final(self).state == old(self).state
                    &&& final(self).moves@ == match sender {
                        Some(id) => old(self).moves@.insert(id, d),
                        None => old(self).moves@,
                    }
                    &&& r == match sender {
                        Some(id) => Reply::Ack { to: id },
                        None => Reply::Nothing,
                    }
                },
                Payload::State(st) => {
                    &&& final(self).master_id == old(self).master_id
                    &&& if sender == Some(old(self).master_id) && st.state_order > old(self).state.state_order && st.wf()
                        && st.inside(old(self).config.width as int, old(self).config.height as int) {
                        final(self).state == st
                    } else {
                        final(self).state == old(self).state
                    }
                    &&& r == match sender {
                        Some(id) => Reply::Ack { to: id },
                        None => Reply::Nothing,
                    }
                },
                Payload::RoleChange(c) => {
                    &&& final(self).state == old(self).state
                    &&& final(self).master_id == match sender {
                        Some(id) => if old(self).my_id != old(self).master_id && c.sender_role == Some(NodeRole::Master) {
                            id
                        } else {
                            old(self).master_id
                        },
                        None => old(self).master_id,
                    }
                    &&& r == match sender {
                        Some(id) => Reply::Ack { to: id },
                        None => Reply::Nothing,
                    }
                },
                _ => {
                    &&& final(self).state == old(self).state
                    &&& r == match sender {
                        Some(id) => Reply::Ack { to: id },
                        None => Reply::Nothing,
                    }
                },
            },
    {
        let joining = match &payload {
            Payload::Join(_) => true,
            _ => false,
        };
        if !joining {
            if let Some(id) = sender {
                self.heard.touch(id);
            }
        }
        let ack = needs_ack(&payload);
        match payload {
            Payload::Join(j) => {
                if !self.is_master() {
                    return Reply::Nothing;
                }
                return match self.on_join(&j.game_name, j.player_name, j.player_type, j.requested_role, ip, port) {
                    Ok(id) => Reply::JoinAccepted { id },
                    Err(e) => Reply::JoinRefused(e),
                };
            },
            Payload::Discover => {
                return Reply::Announce;
            },
            Payload::Announcement(_) => {
                return Reply::Nothing;
            },
            Payload::Ack => {
                if let Some(id) = sender {
                    self.pending.acknowledge(id, msg_seq);
                }
                return Reply::Nothing;
            },
            Payload::Steer(d) => {
                if let Some(id) = sender {
                    self.on_steer(id, d);
                }
            },
            Payload::State(st) => {
                if let Some(id) = sender {
                    self.on_state(id, st);
                }
            },
            Payload::RoleChange(c) => {
                if let Some(id) = sender {
                    self.on_role_change(id, c.sender_role);
                }
            },
            _ => {},
        }
        match sender {
            Some(id) => if ack {
                Reply::Ack { to: id }
            } else {
                Reply::Nothing
            },
            None => Reply::Nothing,
        }
    }
}

} // verus!
