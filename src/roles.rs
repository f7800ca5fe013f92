use vstd::prelude::*;

use crate::player::NodeRole;
use crate::snake::GameState_Snake;
use crate::state::{same_but_role, GameState};

verus! {

impl GameState {
    pub open spec fn has_role(&self, role: NodeRole) -> bool {
        exists|k: int| 0 <= k < self.players.len() && #[trigger] self.players[k].role == role
    }

    pub open spec fn role_of(&self, id: i32, role: NodeRole) -> bool {
        exists|k: int| 0 <= k < self.players.len() && #[trigger] self.players[k].id == id && self.players[k].role == role
    }

    /// Sets the role of player `id`, leaving everything else alone.
    pub fn set_role(&mut self, id: i32, role: NodeRole) -> (r: bool)
        requires
            old(self).wf(),
            role != NodeRole::Viewer,
        ensures
            r == old(self).has_player(id),
            final(self).players.len() == old(self).players.len(),
            forall|k: int|
                0 <= k < old(self).players.len() ==> same_but_role(#[trigger] final(self).players[k], old(self).players[k])
                    && final(self).players[k].role == if old(self).players[k].id == id {
                    role
                } else {
                    old(self).players[k].role
                },
            final(self).snakes@ == old(self).snakes@,
            final(self).foods@ == old(self).foods@,
            final(self).state_order == old(self).state_order,
            final(self).wf(),
    {
        let ghost before = *self;
        match self.find_player(id) {
            Some(k) => {
                let mut pl = self.players.remove(k);
                pl.role = role;
                self.players.insert(k, pl);
                proof {
                    assert(self.players@ =~= before.players@.update(k as int, pl));
                    assert forall|a: int, b: int|
                        0 <= a < self.players.len() && 0 <= b < self.players.len() && a != b implies #[trigger] self.players[a].id
                        != #[trigger] self.players[b].id by {
                        assert(self.players[a].id == before.players[a].id);
                        assert(self.players[b].id == before.players[b].id);
                    }
                    assert forall|q: int| 0 <= q < self.snakes.len() implies self.live_player(#[trigger] self.snakes[q].player_id) by {
                        let m = choose|m: int| 0 <= m < before.players.len() && #[trigger] before.players[m].id == before.snakes[q].player_id
                            && before.players[m].role != NodeRole::Viewer;
                        assert(self.players[m].id == before.players[m].id);
                    }
                }
                true
            },
            None => false,
        }
    }

    /// When nobody is deputy, the first normal player becomes one; returns
    /// the index of the promoted player.
    pub fn assign_deputy(&mut self) -> (r: Option<usize>)
        requires
            old(self).wf(),
        ensures
            match r {
                Some(k) => {
                    &&& !old(self).has_role(NodeRole::Deputy)
                    &&& k < old(self).players.len()
                    &&& old(self).players[k as int].role == NodeRole::Normal
                    &&& forall|q: int| 0 <= q < k ==> #[trigger] old(self).players[q].role != NodeRole::Normal
                    &&& final(self).players[k as int].role == NodeRole::Deputy
                    &&& forall|q: int|
                        0 <= q < old(self).players.len() && q != k ==> #[trigger] final(self).players[q] == old(self).players[q]
                },
                None => {
                    &&& old(self).has_role(NodeRole::Deputy) || !old(self).has_role(NodeRole::Normal)
                    &&& final(self).players@ == old(self).players@
                },
            },
            final(self).players.len() == old(self).players.len(),
            forall|q: int|
                0 <= q < old(self).players.len() ==> same_but_role(#[trigger] final(self).players[q], old(self).players[q]),
            final(self).snakes@ == old(self).snakes@,
            final(self).foods@ == old(self).foods@,
            final(self).state_order == old(self).state_order,
            final(self).wf(),
    {
        let mut k: usize = 0;
        while k < self.players.len()
            invariant
                k <= self.players.len(),
                *self == *old(self),
                self.wf(),
                forall|q: int| 0 <= q < k ==> #[trigger] self.players[q].role != NodeRole::Deputy,
            decreases self.players.len() - k,
        {
            if self.players[k].role == NodeRole::Deputy {
                return None;
            }
            k += 1;
        }
        let mut n: usize = 0;
        while n < self.players.len()
            invariant
                n <= self.players.len(),
                *self == *old(self),
                self.wf(),
                !self.has_role(NodeRole::Deputy),
                forall|q: int| 0 <= q < n ==> #[trigger] self.players[q].role != NodeRole::Normal,
            decreases self.players.len() - n,
        {
            if self.players[n].role == NodeRole::Normal {
                let ghost before = *self;
                let mut pl = self.players.remove(n);
                pl.role = NodeRole::Deputy;
                self.players.insert(n, pl);
                proof {
                    assert(self.players@ =~= before.players@.update(n as int, pl));
                    assert forall|a: int, b: int|
                        0 <= a < self.players.len() && 0 <= b < self.players.len() && a != b implies #[trigger] self.players[a].id
                        != #[trigger] self.players[b].id by {
                        assert(self.players[a].id == before.players[a].id);
                        assert(self.players[b].id == before.players[b].id);
                    }
                    assert forall|q: int| 0 <= q < self.snakes.len() implies self.live_player(#[trigger] self.snakes[q].player_id) by {
                        let m = choose|m: int| 0 <= m < before.players.len() && #[trigger] before.players[m].id == before.snakes[q].player_id
                            && before.players[m].role != NodeRole::Viewer;
                        assert(self.players[m].id == before.players[m].id);
                    }
                }
                return Some(n);
            }
            n += 1;
        }
        None
    }

    /// Failover, seen from a deputy that heard nothing from the master
    /// `master_id` for a whole window: the old master becomes a viewer (its
    /// snake leaves the board) and the deputy `my_id` becomes master.
    /// Anyone but the deputy changes nothing.
    pub fn take_over_from(&mut self, my_id: i32, master_id: i32) -> (r: bool)
        requires
            old(self).wf(),
            my_id != master_id,
        ensures
            r == old(self).role_of(my_id, NodeRole::Deputy),
            r ==> final(self).role_of(my_id, NodeRole::Master),
            r && old(self).has_player(master_id) ==> final(self).role_of(master_id, NodeRole::Viewer),
            r ==> !final(self).has_snake(master_id),
            !r ==> *final(self) == *old(self),
            forall|w: int, h: int| #[trigger] old(self).inside(w, h) ==> final(self).inside(w, h),
            final(self).foods@ == old(self).foods@,
            r ==> forall|k: int|
                0 <= k < old(self).players.len() ==> same_but_role(#[trigger] final(self).players[k], old(self).players[k])
                    && final(self).players[k].role == if old(self).players[k].id == master_id {
                    NodeRole::Viewer
                } else if old(self).players[k].id == my_id {
                    NodeRole::Master
                } else {
                    old(self).players[k].role
                },
            r ==> forall|j: int|
                0 <= j < old(self).snakes.len() && #[trigger] old(self).snakes[j].player_id == master_id
                    ==> final(self).snakes@ == old(self).snakes@.remove(j),
            r ==> (forall|j: int| 0 <= j < old(self).snakes.len() ==> #[trigger] old(self).snakes[j].player_id != master_id)
                ==> final(self).snakes@ == old(self).snakes@,
            final(self).players.len() == old(self).players.len(),
            final(self).state_order == old(self).state_order,
            final(self).wf(),
    {
        let me = match self.find_player(my_id) {
            Some(k) => k,
            None => {
                return false;
            },
        };
        if self.players[me].role != NodeRole::Deputy {
            return false;
        }
        let ghost before = *self;
        self.kill_player(master_id);
        let ghost mid = *self;
        proof {
            assert(mid.players[me as int].id == my_id);
            assert(mid.players[me as int].role == NodeRole::Deputy);
            assert forall|j: int| 0 <= j < mid.snakes.len() implies #[trigger] mid.snakes[j].player_id != master_id by {
                if mid.snakes[j].player_id == master_id {
                    assert(mid.live_player(mid.snakes[j].player_id));
                    let m = choose|m: int| 0 <= m < mid.players.len() && #[trigger] mid.players[m].id == mid.snakes[j].player_id
                        && mid.players[m].role != NodeRole::Viewer;
                    assert(mid.players[m].id == before.players[m].id);
                }
            }
            if before.has_player(master_id) {
                let m = choose|m: int| 0 <= m < before.players.len() && #[trigger] before.players[m].id == master_id;
                assert(mid.players[m].role == NodeRole::Viewer);
            }
        }
        self.set_role(my_id, NodeRole::Master);
        proof {
            assert(self.players[me as int].id == my_id);
            assert(self.players[me as int].role == NodeRole::Master);
            if before.has_player(master_id) {
                let m = choose|m: int| 0 <= m < before.players.len() && #[trigger] before.players[m].id == master_id;
                assert(self.players[m].id == master_id);
                assert(self.players[m].role == NodeRole::Viewer);
            }
            assert forall|j: int| 0 <= j < self.snakes.len() implies #[trigger] self.snakes[j].player_id != master_id by {
                assert(self.snakes[j] == mid.snakes[j]);
            }
        }
        true
    }

    /// Every player other than `my_id` that was not heard from in the last
    /// window, and is not a viewer already, is demoted and loses its snake.
    pub fn demote_silent(&mut self, heard: &Vec<i32>, my_id: i32)
        requires
            old(self).wf(),
        ensures
            final(self).wf(),
            forall|w: int, h: int| #[trigger] old(self).inside(w, h) ==> final(self).inside(w, h),
            final(self).players.len() == old(self).players.len(),
            final(self).state_order == old(self).state_order,
            final(self).foods@ == old(self).foods@,
            final(self).snakes@ == old(self).snakes@.filter(|s: GameState_Snake| s.player_id == my_id || heard@.contains(s.player_id)),
            forall|k: int|
                0 <= k < old(self).players.len() ==> same_but_role(#[trigger] final(self).players[k], old(self).players[k])
                    && final(self).players[k].role == if old(self).players[k].id != my_id && !heard@.contains(
                    old(self).players[k].id,
                ) {
                    NodeRole::Viewer
                } else {
                    old(self).players[k].role
                },
    {
        let ghost before = *self;
        let mut silent: Vec<i32> = Vec::new();
        let mut k: usize = 0;
        while k < self.players.len()
            invariant
                k <= self.players.len(),
                *self == before,
                forall|x: i32| #[trigger] silent@.contains(x) <==> exists|q: int|
                    0 <= q < k && #[trigger] self.players[q].id == x && x != my_id && !heard@.contains(x),
            decreases self.players.len() - k,
        {
            let id = self.players[k].id;
            let ghost prev = silent@;
            if id != my_id && !crate::state::contains_id(heard, id) {
                silent.push(id);
                proof {
                    assert forall|x: i32| #[trigger] silent@.contains(x) <==> exists|q: int|
                        0 <= q < k + 1 && #[trigger] self.players[q].id == x && x != my_id && !heard@.contains(x) by {
                        if silent@.contains(x) && x != id {
                            let i = choose|i: int| 0 <= i < silent@.len() && silent@[i] == x;
                            assert(prev[i] == x);
                        }
                        if x == id {
                            assert(silent@[prev.len() as int] == x);
                        }
                        if prev.contains(x) {
                            let i = choose|i: int| 0 <= i < prev.len() && prev[i] == x;
                            assert(silent@[i] == x);
                        }
                    }
                }
            } else {
                proof {
                    assert forall|x: i32| #[trigger] silent@.contains(x) <==> exists|q: int|
                        0 <= q < k + 1 && #[trigger] self.players[q].id == x && x != my_id && !heard@.contains(x) by {
                        if exists|q: int| 0 <= q < k + 1 && #[trigger] self.players[q].id == x && x != my_id && !heard@.contains(x) {
                            let q = choose|q: int| 0 <= q < k + 1 && #[trigger] self.players[q].id == x && x != my_id && !heard@.contains(x);
                            assert(q != k);
                        }
                    }
                }
            }
            k += 1;
        }
        self.drop_players(&silent);
        proof {
            assert forall|i: int| 0 <= i < before.snakes.len() implies (|s: GameState_Snake| !silent@.contains(s.player_id))(
                #[trigger] before.snakes[i],
            ) == (|s: GameState_Snake| s.player_id == my_id || heard@.contains(s.player_id))(before.snakes[i]) by {
                assert(before.live_player(before.snakes[i].player_id));
                let m = choose|m: int| 0 <= m < before.players.len() && #[trigger] before.players[m].id == before.snakes[i].player_id
                    && before.players[m].role != NodeRole::Viewer;
            }
            lemma_filter_congruent(
                before.snakes@,
                |s: GameState_Snake| !silent@.contains(s.player_id),
                |s: GameState_Snake| s.player_id == my_id || heard@.contains(s.player_id),
            );
            assert forall|k: int| 0 <= k < before.players.len() implies silent@.contains(before.players[k].id) == (before.players[k].id
                != my_id && !heard@.contains(before.players[k].id)) by {}
        }
    }
}

/// Filtering with two tests that agree on every element gives the same
/// result.
pub proof fn lemma_filter_congruent(s: Seq<GameState_Snake>, p1: spec_fn(GameState_Snake) -> bool, p2: spec_fn(GameState_Snake) -> bool)
    requires
        forall|i: int| 0 <= i < s.len() ==> p1(#[trigger] s[i]) == p2(s[i]),
    ensures
        s.filter(p1) == s.filter(p2),
    decreases s.len(),
{
    reveal(Seq::filter);
    if s.len() > 0 {
        assert forall|i: int| 0 <= i < s.drop_last().len() implies p1(#[trigger] s.drop_last()[i]) == p2(s.drop_last()[i]) by {
            assert(s.drop_last()[i] == s[i]);
        }
        lemma_filter_congruent(s.drop_last(), p1, p2);
        assert(p1(s.last()) == p2(s[s.len() - 1]));
    }
}

} // verus!
