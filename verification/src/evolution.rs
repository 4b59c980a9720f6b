use vstd::prelude::*;

verus! {

/// The history after recording `snap`: the oldest entry makes room when the history
/// already holds `max_history` entries or more.
pub open spec fn after_record<S>(history: Seq<S>, max_history: nat, snap: S) -> Seq<S> {
    if history.len() >= max_history {
        history.drop_first().push(snap)
    } else {
        history.push(snap)
    }
}

/// The history after recording each of `snaps`, in order.
pub open spec fn after_records<S>(history: Seq<S>, max_history: nat, snaps: Seq<S>) -> Seq<S>
    decreases snaps.len(),
{
    if snaps.len() == 0 {
        history
    } else {
        after_record(after_records(history, max_history, snaps.drop_last()), max_history, snaps.last())
    }
}

/// The last `n` entries of `s`, or all of `s` when it has no more than `n`.
pub open spec fn most_recent<S>(s: Seq<S>, n: nat) -> Seq<S> {
    if s.len() <= n {
        s
    } else {
        s.skip(s.len() - n)
    }
}

/// A bounded record of snapshots of a field, oldest first.
#[derive(Debug, Clone)]
pub struct FieldEvolution<S> {
    pub history: Vec<S>,
    pub max_history: usize,
}

impl<S> FieldEvolution<S> {
    /// The record holds no more snapshots than its bound.
    pub open spec fn bounded(&self) -> bool {
        self.history@.len() <= self.max_history
    }

    /// An empty record that keeps at most `max_history` snapshots.
    pub fn new(max_history: usize) -> (evolution: Self)
        ensures
            evolution.history@.len() == 0,
            evolution.max_history == max_history,
            evolution.bounded(),
    {
        FieldEvolution { history: Vec::new(), max_history }
    }

    /// Appends `snap`, first dropping the oldest snapshot when the record is full.
    pub fn record(&mut self, snap: S)
        requires
            old(self).max_history > 0 || old(self).history@.len() > 0,
        ensures
            final(self).history@ == after_record(
                old(self).history@,
                old(self).max_history as nat,
                snap,
            ),
            final(self).max_history == old(self).max_history,
            old(self).bounded() ==> final(self).bounded(),
    {
        if self.history.len() >= self.max_history {
            self.history.remove(0);
        }
        self.history.push(snap);
    }

    /// The snapshot recorded `back` places before the latest one (`0` is the latest),
    /// or `None` when the record holds no more than `back` snapshots.
    pub fn latest(&self, back: usize) -> (snap: Option<&S>)
        ensures
            snap is Some <==> back < self.history@.len(),
            snap matches Some(s) ==> *s == self.history@[self.history@.len() - 1 - back],
    {
        let len = self.history.len();
        if back < len {
            Some(&self.history[len - 1 - back])
        } else {
            None
        }
    }

    /// The rooms that change the most. Snapshots hold no per-room data, so no room
    /// can be ranked and the list is always empty.
    pub fn trending_rooms(&self, _n: usize) -> (rooms: Vec<String>)
        ensures
            rooms@.len() == 0,
    {
        Vec::new()
    }
}

impl<S> Default for FieldEvolution<S> {
    /// An empty record that keeps at most 1000 snapshots.
    fn default() -> (evolution: Self)
        ensures
            evolution.history@.len() == 0,
            evolution.max_history == 1000,
    {
        Self::new(1000)
    }
}

/// Recording snapshots one by one into a record that is not over its bound keeps
/// exactly the most recent `max_history` of all snapshots seen, oldest first.
pub proof fn law_history_keeps_most_recent<S>(history: Seq<S>, max_history: nat, snaps: Seq<S>)
    requires
        max_history > 0,
        history.len() <= max_history,
    ensures
        after_records(history, max_history, snaps) == most_recent(history + snaps, max_history),
        after_records(history, max_history, snaps).len() <= max_history,
    decreases snaps.len(),
{
    if snaps.len() > 0 {
        let rest = snaps.drop_last();
        let x = snaps.last();
        law_history_keeps_most_recent(history, max_history, rest);
        let seen = history + rest;
        assert(history + snaps =~= seen.push(x));
        let prev = most_recent(seen, max_history);
        assert(after_record(prev, max_history, x) =~= most_recent(seen.push(x), max_history));
    }
}

} // verus!
