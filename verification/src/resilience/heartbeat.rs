//! A monitor that remembers when each peer was last heard of, and names
//! the peers that have been silent for longer than a timeout.
//!
//! Times are counted in nanoseconds since the Unix epoch.

use crate::clock::unix_nanos;
use crate::node::{ids, lemma_ids_push};
use crate::resilience::caching::{elapsed, elapsed_since};
use vstd::prelude::*;

verus! {

/// When a peer was last heard of, as a mathematical value.
pub struct HeartbeatView {
    pub node_id: Seq<char>,
    pub seen_at: u128,
}

/// The first position at which `beats` holds the peer `id`; the length of
/// `beats` if it holds the peer nowhere.
pub open spec fn beat_of(beats: Seq<HeartbeatView>, id: Seq<char>) -> int
    decreases beats.len(),
{
    if beats.len() == 0 {
        0
    } else if beats[0].node_id == id {
        0
    } else {
        1 + beat_of(beats.drop_first(), id)
    }
}

/// What `beat_of` finds.
pub proof fn lemma_beat_of(beats: Seq<HeartbeatView>, id: Seq<char>)
    ensures
        0 <= beat_of(beats, id) <= beats.len(),
        beat_of(beats, id) < beats.len() ==> beats[beat_of(beats, id)].node_id == id,
        forall|i: int| 0 <= i < beat_of(beats, id) ==> (#[trigger] beats[i]).node_id != id,
    decreases beats.len(),
{
    if beats.len() > 0 && beats[0].node_id != id {
        let rest = beats.drop_first();
        lemma_beat_of(rest, id);
        assert forall|i: int| 0 <= i < beat_of(beats, id) implies (#[trigger] beats[i]).node_id
            != id by {
            if i > 0 {
                assert(rest[i - 1] == beats[i]);
            }
        }
    }
}

/// The record after the peer `id` was heard of at `now`: its entry is
/// brought up to date, or one is added at the end if it has none.
pub open spec fn heard(beats: Seq<HeartbeatView>, id: Seq<char>, now: u128) -> Seq<HeartbeatView> {
    if beat_of(beats, id) < beats.len() {
        beats.update(beat_of(beats, id), HeartbeatView { node_id: id, seen_at: now })
    } else {
        beats.push(HeartbeatView { node_id: id, seen_at: now })
    }
}

/// Whether a peer has been silent at `now` for longer than `timeout`.
pub open spec fn silent(beat: HeartbeatView, now: u128, timeout: u128) -> bool {
    elapsed(beat.seen_at, now) > timeout
}

/// The peers that are silent at `now`, in the order of the record.
pub open spec fn inactive(beats: Seq<HeartbeatView>, now: u128, timeout: u128) -> Seq<Seq<char>>
    decreases beats.len(),
{
    if beats.len() == 0 {
        Seq::empty()
    } else if silent(beats.last(), now, timeout) {
        inactive(beats.drop_last(), now, timeout).push(beats.last().node_id)
    } else {
        inactive(beats.drop_last(), now, timeout)
    }
}

/// When a peer was last heard of.
pub struct Heartbeat {
    pub node_id: String,
    pub seen_at: u128,
}

impl View for Heartbeat {
    type V = HeartbeatView;

    open spec fn view(&self) -> HeartbeatView {
        HeartbeatView { node_id: self.node_id@, seen_at: self.seen_at }
    }
}

/// A record of when each peer was last heard of.
pub struct HeartbeatMonitor {
    /// When each peer was last heard of, in the order in which the peers
    /// were first heard of.
    pub last_seen: Vec<Heartbeat>,
    /// How long a peer may be silent.
    pub timeout: u128,
}

impl HeartbeatMonitor {
    /// The record as a mathematical value.
    pub open spec fn beats(&self) -> Seq<HeartbeatView> {
        self.last_seen@.map_values(|beat: Heartbeat| beat@)
    }

    /// A monitor that has heard of no peer, and lets a peer be silent for
    /// `timeout`.
    pub fn new(timeout: u128) -> (monitor: Self)
        ensures
            monitor.beats() == Seq::<HeartbeatView>::empty(),
            monitor.timeout == timeout,
    {
        let monitor = Self { last_seen: Vec::new(), timeout };
        assert(monitor.beats() =~= Seq::<HeartbeatView>::empty());
        monitor
    }

    /// Records that the peer `node_id` was heard of at the time `now`.
    pub fn update_heartbeat_at(&mut self, node_id: String, now: u128)
        ensures
            final(self).beats() == heard(old(self).beats(), node_id@, now),
            final(self).timeout == old(self).timeout,
    {
        let ghost before = self.beats();
        let ghost beat = HeartbeatView { node_id: node_id@, seen_at: now };
        let mut i: usize = 0;
        while i < self.last_seen.len()
            invariant
                i <= self.last_seen@.len(),
                self.beats() == before,
                before == old(self).beats(),
                beat == (HeartbeatView { node_id: node_id@, seen_at: now }),
                self.timeout == old(self).timeout,
                forall|j: int| 0 <= j < i ==> (#[trigger] before[j]).node_id != node_id@,
            decreases self.last_seen@.len() - i,
        {
            if self.last_seen[i].node_id == node_id {
                proof {
                    assert(before[i as int].node_id == node_id@);
                    lemma_beat_of(before, node_id@);
                    let found = beat_of(before, node_id@);
                    if found < i {
                        assert(before[found].node_id != node_id@);
                    }
                    assert(found == i);
                }
                let ghost held = self.last_seen@;
                self.last_seen[i] = Heartbeat { node_id, seen_at: now };
                assert(self.last_seen@ =~= held.update(i as int, self.last_seen@[i as int]));
                assert(self.beats() =~= before.update(i as int, beat));
                return ;
            }
            assert(before[i as int].node_id != node_id@);
            i += 1;
        }
        proof {
            lemma_beat_of(before, node_id@);
            let found = beat_of(before, node_id@);
            if found < before.len() {
                assert(before[found].node_id != node_id@);
            }
        }
        self.last_seen.push(Heartbeat { node_id, seen_at: now });
        assert(self.beats() =~= before.push(beat));
    }

    /// Records that the peer `node_id` was heard of just now.
    pub fn update_heartbeat(&mut self, node_id: String)
        ensures
            exists|now: u128| final(self).beats() == heard(old(self).beats(), node_id@, now),
            final(self).timeout == old(self).timeout,
    {
        self.update_heartbeat_at(node_id, unix_nanos());
    }

    /// The peers that have been silent, at the time `now`, for longer than
    /// the timeout.
    pub fn check_inactive_nodes_at(&self, now: u128) -> (nodes: Vec<String>)
        ensures
            ids(nodes@) == inactive(self.beats(), now, self.timeout),
    {
        let ghost beats = self.beats();
        let mut nodes: Vec<String> = Vec::new();
        let mut i: usize = 0;
        assert(ids(nodes@) =~= inactive(beats.take(0), now, self.timeout));
        while i < self.last_seen.len()
            invariant
                i <= self.last_seen@.len(),
                beats == self.beats(),
                ids(nodes@) == inactive(beats.take(i as int), now, self.timeout),
            decreases self.last_seen@.len() - i,
        {
            assert(beats.take(i + 1).drop_last() =~= beats.take(i as int));
            assert(beats.take(i + 1).last() == self.last_seen@[i as int]@);
            if elapsed_since(self.last_seen[i].seen_at, now) > self.timeout {
                let node_id = self.last_seen[i].node_id.clone();
                proof {
                    lemma_ids_push(nodes@, node_id);
                }
                nodes.push(node_id);
            }
            i += 1;
        }
        assert(beats.take(i as int) =~= beats);
        nodes
    }

    /// The peers that have been silent for longer than the timeout.
    pub fn check_inactive_nodes(&self) -> (nodes: Vec<String>)
        ensures
            exists|now: u128| ids(nodes@) == inactive(self.beats(), now, self.timeout),
    {
        self.check_inactive_nodes_at(unix_nanos())
    }
}

} // verus!
