//! Gossip: a flood in which a visited node passes the transaction on to a
//! few of its neighbours, chosen at random, rather than to all of them.
//!
//! Like the flood, a round of gossip is a state machine, so that a caller
//! can wait between two steps. Which neighbours a step chooses is left to
//! the random generator; the step that takes the choice as an argument is
//! specified exactly.

use crate::clock::unix_millis;
use crate::entropy::{choose_multiple, drawn_without_repetition};
use crate::ledger::TangleView;
use crate::node::{ids, lemma_ids_push};
use crate::propagation::{lemma_submit_twice, unvisited};
use crate::tangle::Tangle;
use crate::transaction::{Transaction, TransactionView};
use vstd::hash_set::StringHashSet;
use vstd::prelude::*;

verus! {

broadcast use vstd::hash_set::group_hash_set_axioms;

/// The number of neighbours that a visited node passes a transaction on to.
pub const GOSSIP_FANOUT: usize = 2;

/// Whether `picked` is a choice that a node with the neighbours `neighbors`
/// can make: `GOSSIP_FANOUT` of them, or all if there are fewer, none twice.
pub open spec fn fanout_choice(neighbors: Seq<Seq<char>>, picked: Seq<Seq<char>>) -> bool {
    &&& picked.len() == if GOSSIP_FANOUT <= neighbors.len() {
        GOSSIP_FANOUT as nat
    } else {
        neighbors.len()
    }
    &&& drawn_without_repetition(neighbors, picked)
}

/// A round of gossip in progress, as a mathematical value.
pub struct GossipView {
    /// The ids that were visited.
    pub visited: Set<Seq<char>>,
    /// The ids that wait to be visited; the last is taken next.
    pub frontier: Seq<Seq<char>>,
}

impl GossipView {
    /// A round that is about to visit `origin`.
    pub open spec fn start(origin: Seq<char>) -> Self {
        GossipView { visited: Set::empty(), frontier: seq![origin] }
    }

    /// Nothing waits to be visited.
    pub open spec fn finished(self) -> bool {
        self.frontier.len() == 0
    }

    /// Whether the next step visits a new id.
    pub open spec fn visits(self) -> bool {
        !self.finished() && !self.visited.contains(self.frontier.last())
    }

    /// The ids that the next step puts on the frontier, if the neighbours
    /// `picked` are chosen: where it visits a new id, those of them that are
    /// not visited by then.
    pub open spec fn hops(self, picked: Seq<Seq<char>>) -> Seq<Seq<char>> {
        if self.visits() {
            unvisited(picked, self.visited.insert(self.frontier.last()))
        } else {
            Seq::empty()
        }
    }

    /// The round after one step in which the neighbours `picked` are chosen.
    pub open spec fn step(self, picked: Seq<Seq<char>>) -> Self {
        if self.finished() {
            self
        } else if self.visits() {
            GossipView {
                visited: self.visited.insert(self.frontier.last()),
                frontier: self.frontier.drop_last() + self.hops(picked),
            }
        } else {
            GossipView { frontier: self.frontier.drop_last(), ..self }
        }
    }

    /// What a step reports if the neighbours `picked` are chosen: nothing
    /// if the round was finished, and else the number of ids that it puts
    /// on the frontier.
    pub open spec fn reports(self, picked: Seq<Seq<char>>, hops: Option<usize>) -> bool {
        match hops {
            None => self.finished(),
            Some(count) => !self.finished() && count == self.hops(picked).len(),
        }
    }

    /// Whether a step from this state in the tangle `t` can choose the
    /// neighbours `picked`, lead to `next` and report `hops`.
    pub open spec fn steps_to(
        self,
        t: TangleView,
        picked: Seq<Seq<char>>,
        next: GossipView,
        hops: Option<usize>,
    ) -> bool {
        &&& self.visits() ==> fanout_choice(t.neighbors(self.frontier.last()), picked)
        &&& next == self.step(picked)
        &&& self.reports(picked, hops)
    }

    /// The pool after one step: where the step visits a new id, the
    /// transaction was offered there.
    pub open spec fn step_pool(
        self,
        t: TangleView,
        transaction: TransactionView,
        now: u64,
    ) -> TangleView {
        if self.visits() {
            t.submit(transaction, now)
        } else {
            t
        }
    }
}

/// A round of gossip in progress.
pub struct Gossip {
    /// The ids that were visited.
    pub visited: StringHashSet,
    /// The ids that wait to be visited; the last is taken next.
    pub frontier: Vec<String>,
}

impl View for Gossip {
    type V = GossipView;

    open spec fn view(&self) -> GossipView {
        GossipView { visited: self.visited@, frontier: ids(self.frontier@) }
    }
}

impl Gossip {
    /// A round that is about to visit `origin`.
    pub fn begin(origin: &str) -> (gossip: Self)
        ensures
            gossip@ == GossipView::start(origin@),
    {
        let mut frontier: Vec<String> = Vec::new();
        frontier.push(origin.to_owned());
        let gossip = Gossip { visited: StringHashSet::new(), frontier };
        assert(gossip@.frontier =~= seq![origin@]);
        gossip
    }

    /// Whether nothing waits to be visited.
    pub fn is_finished(&self) -> (finished: bool)
        ensures
            finished == self@.finished(),
    {
        self.frontier.len() == 0
    }

    /// Makes one step with a given choice of neighbours: takes the last id
    /// off the frontier and, if it has not been visited, visits it, offers
    /// the transaction to the pool at the time `now`, and puts those of
    /// `picked` that are not visited on the frontier.
    ///
    /// Returns the number of ids put on the frontier; `None` if the round
    /// was finished.
    pub fn advance_with(
        &mut self,
        tangle: &mut Tangle,
        transaction: &Transaction,
        now: u64,
        picked: &Vec<String>,
    ) -> (hops: Option<usize>)
        ensures
            final(self)@ == old(self)@.step(ids(picked@)),
            final(tangle)@ == old(self)@.step_pool(old(tangle)@, transaction@, now),
            old(tangle).wf() ==> final(tangle).wf(),
            old(self)@.reports(ids(picked@), hops),
    {
        let ghost before = self@;
        let current = match self.frontier.pop() {
            Some(current) => current,
            None => {
                assert(self@.frontier =~= before.frontier);
                return None;
            },
        };
        assert(ids(self.frontier@) =~= before.frontier.drop_last());
        assert(current@ == before.frontier.last());
        if self.visited.contains(current.as_str()) {
            return Some(0);
        }
        self.visited.insert(current);
        tangle.add_transaction_at(transaction.clone(), now);
        let ghost listed = ids(picked@);
        let ghost rest = before.frontier.drop_last();
        let mut hops: usize = 0;
        let mut i: usize = 0;
        assert(ids(self.frontier@) =~= rest + unvisited(listed.take(0), self.visited@));
        while i < picked.len()
            invariant
                i <= picked@.len(),
                listed == ids(picked@),
                self.visited@ == before.visited.insert(before.frontier.last()),
                ids(self.frontier@) == rest + unvisited(listed.take(i as int), self.visited@),
                hops == unvisited(listed.take(i as int), self.visited@).len(),
            decreases picked@.len() - i,
        {
            let neighbor = &picked[i];
            assert(listed.take(i + 1).drop_last() =~= listed.take(i as int));
            assert(listed.take(i + 1).last() == neighbor@);
            if !self.visited.contains(neighbor.as_str()) {
                proof {
                    lemma_ids_push(self.frontier@, *neighbor);
                    assert((rest + unvisited(listed.take(i as int), self.visited@)).push(neighbor@)
                        =~= rest + unvisited(listed.take(i as int), self.visited@).push(neighbor@));
                }
                self.frontier.push(neighbor.clone());
                assert(hops < self.frontier.len());
                hops = hops + 1;
            }
            i += 1;
        }
        assert(listed.take(i as int) =~= listed);
        Some(hops)
    }

    /// Makes one step, choosing at random `GOSSIP_FANOUT` neighbours of the
    /// id that it visits.
    pub fn advance(&mut self, tangle: &mut Tangle, transaction: &Transaction, now: u64) -> (hops:
        Option<usize>)
        ensures
            exists|picked: Seq<Seq<char>>|
                old(self)@.steps_to(old(tangle)@, picked, final(self)@, hops),
            final(tangle)@ == old(self)@.step_pool(old(tangle)@, transaction@, now),
            old(tangle).wf() ==> final(tangle).wf(),
    {
        let waiting = self.frontier.len();
        let picked = if waiting > 0 && !self.visited.contains(self.frontier[waiting - 1].as_str()) {
            assert(ids(self.frontier@).last() == self.frontier@[waiting - 1]@);
            let neighbors = tangle.get_neighbors(self.frontier[waiting - 1].as_str());
            let picked = choose_multiple(&neighbors, GOSSIP_FANOUT);
            assert(neighbors.deep_view() =~= ids(neighbors@));
            assert(picked.deep_view() =~= ids(picked@));
            picked
        } else {
            Vec::new()
        };
        let hops = self.advance_with(tangle, transaction, now, &picked);
        assert(old(self)@.steps_to(old(tangle)@, ids(picked@), self@, hops));
        hops
    }
}

/// Gossip over a tangle.
pub struct GossipProtocol {
    pub tangle: Tangle,
}

impl GossipProtocol {
    /// Gossip over `tangle`.
    pub fn new(tangle: Tangle) -> (protocol: Self)
        ensures
            protocol.tangle == tangle,
    {
        Self { tangle }
    }

    /// Spreads a transaction from `origin_node` at the time `now`.
    ///
    /// The origin is visited, then neighbours that visited nodes choose at
    /// random, each id once; the transaction is offered to the pool at each
    /// visit, and joins it at most once. As the origin is always visited,
    /// the pool ends as it would after the transaction was offered once.
    pub fn propagate_transaction_at(
        &mut self,
        transaction: Transaction,
        origin_node: &str,
        now: u64,
    )
        ensures
            final(self).tangle@ == old(self).tangle@.submit(transaction@, now),
            old(self).tangle.wf() ==> final(self).tangle.wf(),
    {
        let mut gossip = Gossip::begin(origin_node);
        loop
            invariant
                old(self).tangle.wf() ==> self.tangle.wf(),
                gossip@.visited.finite(),
                gossip@.visited.len() <= usize::MAX,
                gossip@.visited.len() == 0 ==> self.tangle@ == old(self).tangle@
                    && !gossip@.finished(),
                gossip@.visited.len() > 0 ==> self.tangle@ == old(self).tangle@.submit(
                    transaction@,
                    now,
                ),
            decreases usize::MAX - gossip@.visited.len(), gossip@.frontier.len(),
        {
            let ghost state = gossip@;
            let ghost pool = self.tangle@;
            let hops = gossip.advance(&mut self.tangle, &transaction, now);
            proof {
                let picked = choose|picked: Seq<Seq<char>>|
                    state.steps_to(pool, picked, gossip@, hops);
                assert(gossip@ == state.step(picked));
                // Each step visits one more id or takes one off the
                // frontier, and a set holds no more than `usize::MAX` ids.
                assert(gossip@.visited.len() == gossip.visited.spec_len());
                lemma_submit_twice(old(self).tangle@, transaction@, now);
            }
            if hops.is_none() {
                return ;
            }
        }
    }

    /// Spreads a transaction from `origin_node` at the current time.
    pub fn propagate_transaction(&mut self, transaction: Transaction, origin_node: &str)
        ensures
            exists|now: u64| final(self).tangle@ == old(self).tangle@.submit(transaction@, now),
            old(self).tangle.wf() ==> final(self).tangle.wf(),
    {
        self.propagate_transaction_at(transaction, origin_node, unix_millis())
    }
}

} // verus!
