use vstd::prelude::*;

verus! {

/// How many times a reliable send transmits before it is abandoned.
pub const MAX_SEND_ATTEMPTS: u32 = 8;

/// The retry rule of a reliable send: transmit again while the message is
/// unacknowledged and the attempts are not used up.
pub fn should_transmit(attempts_done: u32, still_pending: bool) -> (r: bool)
    ensures
        r == (still_pending && attempts_done < MAX_SEND_ATTEMPTS),
{
    still_pending && attempts_done < MAX_SEND_ATTEMPTS
}

/// Sequence numbers sent to each peer and not acknowledged yet.
#[derive(Debug)]
pub struct PendingAcks {
    pub entries: Vec<(i32, i64)>,
}

impl PendingAcks {
    pub open spec fn pending(&self, peer: i32, seq: i64) -> bool {
        exists|i: int| 0 <= i < self.entries.len() && #[trigger] self.entries[i] == (peer, seq)
    }

    pub fn new() -> (r: PendingAcks)
        ensures
            forall|p: i32, s: i64| !r.pending(p, s),
    {
        PendingAcks { entries: Vec::new() }
    }

    pub fn is_pending(&self, peer: i32, seq: i64) -> (r: bool)
        ensures
            r == self.pending(peer, seq),
    {
        let mut i: usize = 0;
        while i < self.entries.len()
            invariant
                i <= self.entries.len(),
                forall|q: int| 0 <= q < i ==> #[trigger] self.entries[q] != (peer, seq),
            decreases self.entries.len() - i,
        {
            if self.entries[i].0 == peer && self.entries[i].1 == seq {
                return true;
            }
            i += 1;
        }
        false
    }

    /// Records a send that now waits for its acknowledgment.
    pub fn register(&mut self, peer: i32, seq: i64)
        ensures
            forall|p: i32, s: i64| #[trigger] final(self).pending(p, s) == (old(self).pending(p, s) || (p == peer && s == seq)),
    {
        let ghost before = self.entries@;
        self.entries.push((peer, seq));
        proof {
            assert forall|p: i32, s: i64| #[trigger] self.pending(p, s) == (old(self).pending(p, s) || (p == peer && s == seq)) by {
                if old(self).pending(p, s) {
                    let i = choose|i: int| 0 <= i < before.len() && #[trigger] before[i] == (p, s);
                    assert(self.entries[i] == before[i]);
                }
                if p == peer && s == seq {
                    assert(self.entries[before.len() as int] == (p, s));
                }
                if self.pending(p, s) {
                    let i = choose|i: int| 0 <= i < self.entries.len() && #[trigger] self.entries[i] == (p, s);
                    if i < before.len() {
                        assert(before[i] == self.entries[i]);
                    }
                }
            }
        }
    }

    /// Drops the entries of `peer`: all of them when `whole_peer`, else
    /// only the one for `seq`.
    fn retain_other(&mut self, peer: i32, seq: i64, whole_peer: bool)
        ensures
            forall|p: i32, s: i64|
                #[trigger] final(self).pending(p, s) == (old(self).pending(p, s) && !(p == peer && (whole_peer || s == seq))),
    {
        let mut kept: Vec<(i32, i64)> = Vec::new();
        let mut i: usize = 0;
        while i < self.entries.len()
            invariant
                i <= self.entries.len(),
                self.entries@ == old(self).entries@,
                forall|q: int| 0 <= q < kept.len() ==> !((#[trigger] kept[q]).0 == peer && (whole_peer || kept[q].1 == seq)),
                forall|q: int| #![trigger kept[q]] 0 <= q < kept.len() ==> exists|j: int| #![trigger self.entries[j]] 0 <= j < i && self.entries[j] == kept[q],
                forall|j: int|
                    0 <= j < i && !((#[trigger] self.entries[j]).0 == peer && (whole_peer || self.entries[j].1 == seq))
                        ==> exists|q: int| 0 <= q < kept.len() && #[trigger] kept[q] == self.entries[j],
            decreases self.entries.len() - i,
        {
            let e = self.entries[i];
            if !(e.0 == peer && (whole_peer || e.1 == seq)) {
                let ghost prev = kept@;
                kept.push(e);
                proof {
                    assert forall|q: int| #![trigger kept[q]] 0 <= q < kept.len() implies exists|j: int| #![trigger self.entries[j]] 0 <= j < i + 1 && self.entries[j] == kept[q] by {
                        if q < prev.len() {
                            assert(kept[q] == prev[q]);
                            let j = choose|j: int| #![trigger self.entries[j]] 0 <= j < i && self.entries[j] == prev[q];
                        } else {
                            assert(self.entries[i as int] == kept[q]);
                        }
                    }
                    assert forall|j: int|
                        0 <= j < i + 1 && !((#[trigger] self.entries[j]).0 == peer && (whole_peer || self.entries[j].1 == seq))
                            implies exists|q: int| 0 <= q < kept.len() && #[trigger] kept[q] == self.entries[j] by {
                        if j < i {
                            let q = choose|q: int| 0 <= q < prev.len() && #[trigger] prev[q] == self.entries[j];
                            assert(kept[q] == self.entries[j]);
                            assert(kept[q] == prev[q]);
                        } else {
                            assert(kept[prev.len() as int] == self.entries[j]);
                        }
                    }
                }
            }
            i += 1;
        }
        self.entries = kept;
        proof {
            assert forall|p: i32, s: i64|
                #[trigger] self.pending(p, s) == (old(self).pending(p, s) && !(p == peer && (whole_peer || s == seq))) by {
                if self.pending(p, s) {
                    let q = choose|q: int| 0 <= q < self.entries.len() && #[trigger] self.entries[q] == (p, s);
                    let j = choose|j: int| #![trigger old(self).entries[j]] 0 <= j < old(self).entries.len() && old(self).entries[j] == self.entries[q];
                }
                if old(self).pending(p, s) && !(p == peer && (whole_peer || s == seq)) {
                    let j = choose|j: int| 0 <= j < old(self).entries.len() && #[trigger] old(self).entries[j] == (p, s);
                    let q = choose|q: int| 0 <= q < self.entries.len() && #[trigger] self.entries[q] == old(self).entries[j];
                }
            }
        }
    }

    /// An acknowledgment of `seq` from `peer` arrived; returns whether it
    /// was awaited.
    pub fn acknowledge(&mut self, peer: i32, seq: i64) -> (r: bool)
        ensures
            r == old(self).pending(peer, seq),
            forall|p: i32, s: i64| #[trigger] final(self).pending(p, s) == (old(self).pending(p, s) && !(p == peer && s == seq)),
    {
        let r = self.is_pending(peer, seq);
        self.retain_other(peer, seq, false);
        r
    }

    /// Drops everything awaited from `peer`.
    pub fn forget(&mut self, peer: i32)
        ensures
            forall|p: i32, s: i64| #[trigger] final(self).pending(p, s) == (old(self).pending(p, s) && p != peer),
    {
        self.retain_other(peer, 0, true);
    }
}

/// The ids heard from during the current liveness window.
#[derive(Debug)]
pub struct HeardSet {
    pub ids: Vec<i32>,
}

impl HeardSet {
    pub fn new() -> (r: HeardSet)
        ensures
            r.ids@.len() == 0,
    {
        HeardSet { ids: Vec::new() }
    }

    /// Marks `id` as heard from in this window.
    pub fn touch(&mut self, id: i32)
        ensures
            forall|x: i32| #[trigger] final(self).ids@.contains(x) == (old(self).ids@.contains(x) || x == id),
    {
        if !crate::state::contains_id(&self.ids, id) {
            let ghost before = self.ids@;
            self.ids.push(id);
            proof {
                assert forall|x: i32| #[trigger] self.ids@.contains(x) == (before.contains(x) || x == id) by {
                    if before.contains(x) {
                        let q = choose|q: int| 0 <= q < before.len() && before[q] == x;
                        assert(self.ids@[q] == x);
                    }
                    if x == id {
                        assert(self.ids@[before.len() as int] == x);
                    }
                    if self.ids@.contains(x) {
                        let q = choose|q: int| 0 <= q < self.ids@.len() && self.ids@[q] == x;
                        if q < before.len() {
                            assert(before[q] == x);
                        }
                    }
                }
            }
        }
    }

    pub fn was_heard(&self, id: i32) -> (r: bool)
        ensures
            r == self.ids@.contains(id),
    {
        crate::state::contains_id(&self.ids, id)
    }

    /// Starts a new window.
    pub fn clear(&mut self)
        ensures
            final(self).ids@.len() == 0,
    {
        self.ids = Vec::new();
    }
}

} // verus!
