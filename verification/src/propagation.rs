//! Flooding a transaction over the graph: from a start node to every node
//! that can be reached from it, each visited once.
//!
//! The flood is a state machine. One step takes an id off the frontier,
//! visits it if it has not been visited, offers the transaction to the pool
//! there, and puts its unvisited neighbours on the frontier. A caller that
//! models the latency of a hop waits between two steps;
//! `Tangle::propagate_transaction` runs the steps without waiting.

use crate::clock::unix_millis;
use crate::ledger::{lemma_submit_wf, TangleView};
use crate::node::{ids, lemma_ids_push};
use crate::tangle::Tangle;
use crate::transaction::{Transaction, TransactionView};
use vstd::hash_set::StringHashSet;
use vstd::prelude::*;
use vstd::set_lib::lemma_len_subset;

verus! {

broadcast use vstd::hash_set::group_hash_set_axioms;

/// The ids of `list` that are not in `visited`, in their order.
pub open spec fn unvisited(list: Seq<Seq<char>>, visited: Set<Seq<char>>) -> Seq<Seq<char>>
    decreases list.len(),
{
    if list.len() == 0 {
        Seq::empty()
    } else if visited.contains(list.last()) {
        unvisited(list.drop_last(), visited)
    } else {
        unvisited(list.drop_last(), visited).push(list.last())
    }
}

/// What `unvisited` holds: ids of the list that are not visited, and all of
/// them.
pub proof fn lemma_unvisited(list: Seq<Seq<char>>, visited: Set<Seq<char>>)
    ensures
        forall|j: int|
            0 <= j < unvisited(list, visited).len() ==> list.contains(
                #[trigger] unvisited(list, visited)[j],
            ) && !visited.contains(unvisited(list, visited)[j]),
        forall|n: Seq<char>| #[trigger]
            list.contains(n) && !visited.contains(n) ==> unvisited(list, visited).contains(n),
    decreases list.len(),
{
    let all = unvisited(list, visited);
    if list.len() > 0 {
        let rest = unvisited(list.drop_last(), visited);
        lemma_unvisited(list.drop_last(), visited);
        assert forall|j: int| 0 <= j < all.len() implies list.contains(#[trigger] all[j])
            && !visited.contains(all[j]) by {
            if j < rest.len() {
                assert(all[j] == rest[j]);
                let i = choose|i: int|
                    0 <= i < list.drop_last().len() && list.drop_last()[i] == rest[j];
                assert(list[i] == rest[j]);
            } else {
                assert(list[list.len() - 1] == all[j]);
            }
        }
        assert forall|n: Seq<char>| #[trigger]
            list.contains(n) && !visited.contains(n) implies all.contains(n) by {
            let i = choose|i: int| 0 <= i < list.len() && list[i] == n;
            if i < list.len() - 1 {
                assert(list.drop_last()[i] == n);
                assert(list.drop_last().contains(n));
                let j = choose|j: int| 0 <= j < rest.len() && rest[j] == n;
                assert(all[j] == n);
            } else {
                assert(all[all.len() - 1] == n);
            }
        }
    }
}

impl TangleView {
    /// A path of the graph: each id lists the next as a neighbour.
    pub open spec fn path(self, path: Seq<Seq<char>>) -> bool {
        &&& path.len() >= 1
        &&& forall|i: int|
            0 <= i < path.len() - 1 ==> self.neighbors(#[trigger] path[i]).contains(path[i + 1])
    }

    /// Whether a path leads from `from` to `to`.
    pub open spec fn reachable(self, from: Seq<char>, to: Seq<char>) -> bool {
        exists|path: Seq<Seq<char>>|
            #![trigger self.path(path)]
            self.path(path) && path[0] == from && path.last() == to
    }

    /// The ids that can be reached from `from`.
    pub open spec fn reachable_set(self, from: Seq<char>) -> Set<Seq<char>> {
        Set::new(|to: Seq<char>| self.reachable(from, to))
    }

    /// The tangle after a flood from `start` at the time `now`: the
    /// transaction was offered to the pool, unless `start` names no node.
    pub open spec fn flood(self, transaction: TransactionView, start: Seq<char>, now: u64) -> Self {
        if self.has_node(start) {
            self.submit(transaction, now)
        } else {
            self
        }
    }

    /// The number of nodes that a flood from `start` visits: those that can
    /// be reached from it, and none if `start` names no node.
    pub open spec fn flood_count(self, start: Seq<char>) -> nat {
        if self.has_node(start) {
            self.reachable_set(start).len()
        } else {
            0
        }
    }
}

/// Every id can be reached from itself.
pub proof fn lemma_reachable_self(t: TangleView, id: Seq<char>)
    ensures
        t.reachable(id, id),
{
    assert(t.path(seq![id]));
}

/// What can be reached can be left by one more edge.
pub proof fn lemma_reachable_step(t: TangleView, from: Seq<char>, via: Seq<char>, to: Seq<char>)
    requires
        t.reachable(from, via),
        t.neighbors(via).contains(to),
    ensures
        t.reachable(from, to),
{
    let path = choose|path: Seq<Seq<char>>|
        #![trigger t.path(path)]
        t.path(path) && path[0] == from && path.last() == via;
    let longer = path.push(to);
    assert forall|i: int| 0 <= i < longer.len() - 1 implies t.neighbors(
        #[trigger] longer[i],
    ).contains(longer[i + 1]) by {
        if i < path.len() - 1 {
            assert(longer[i] == path[i]);
            assert(t.neighbors(path[i]).contains(path[i + 1]));
        }
    }
    assert(t.path(longer));
}

/// A path that starts at a node stays among the nodes.
proof fn lemma_path_among_nodes(t: TangleView, path: Seq<Seq<char>>, i: int)
    requires
        t.graph_wf(),
        t.path(path),
        t.has_node(path[0]),
        0 <= i < path.len(),
    ensures
        t.has_node(path[i]),
    decreases i,
{
    if i > 0 {
        lemma_path_among_nodes(t, path, i - 1);
        assert(t.neighbors(path[i - 1]).contains(path[i - 1 + 1]));
        assert(t.node_wf(path[i - 1]));
    }
}

/// In a well-formed graph, what can be reached from a node is a node, so
/// that the set of those ids is finite.
pub proof fn lemma_reachable_among_nodes(t: TangleView, from: Seq<char>)
    requires
        t.graph_wf(),
        t.has_node(from),
    ensures
        t.reachable_set(from).subset_of(t.nodes.dom()),
        t.reachable_set(from).finite(),
        t.reachable_set(from).len() <= t.nodes.dom().len(),
{
    assert forall|to: Seq<char>| t.reachable_set(from).contains(to) implies t.nodes.dom().contains(
        to,
    ) by {
        let path = choose|path: Seq<Seq<char>>|
            #![trigger t.path(path)]
            t.path(path) && path[0] == from && path.last() == to;
        lemma_path_among_nodes(t, path, path.len() - 1);
    }
    lemma_len_subset(t.reachable_set(from), t.nodes.dom());
}

/// Offering a transaction a second time, at the same time, changes nothing.
pub proof fn lemma_submit_twice(t: TangleView, transaction: TransactionView, now: u64)
    ensures
        t.submit(transaction, now).submit(transaction, now) == t.submit(transaction, now),
{
}

/// A flood from an id that names no node visits nothing and leaves the
/// tangle, and so the pool, as it was.
pub proof fn lemma_flood_from_unknown(
    t: TangleView,
    transaction: TransactionView,
    start: Seq<char>,
    now: u64,
)
    requires
        !t.has_node(start),
    ensures
        t.flood_count(start) == 0,
        t.flood(transaction, start, now) == t,
{
}

/// A flood lets the transaction join the pool at most once: the pool ends
/// as it was, or with the one transaction added under its id, where none
/// was admitted before.
pub proof fn lemma_flood_admits_once(
    t: TangleView,
    transaction: TransactionView,
    start: Seq<char>,
    now: u64,
)
    requires
        t.wf(),
    ensures
        t.flood(transaction, start, now).wf(),
        t.flood(transaction, start, now).nodes == t.nodes,
        t.flood(transaction, start, now) == t || {
            &&& !t.admitted(transaction.id)
            &&& t.flood(transaction, start, now).transactions == t.transactions.insert(
                transaction.id,
                transaction,
            )
            &&& t.flood(transaction, start, now).order == t.order.push(transaction.id)
            &&& t.flood(transaction, start, now).transactions.len() == t.transactions.len() + 1
        },
{
    lemma_submit_wf(t, transaction, now);
}

/// In a graph in which every node can be reached from `start`, a flood from
/// `start` visits as many ids as there are nodes.
pub proof fn lemma_flood_connected(t: TangleView, start: Seq<char>)
    requires
        t.graph_wf(),
        t.has_node(start),
        forall|id: Seq<char>| t.has_node(id) ==> t.reachable(start, id),
    ensures
        t.flood_count(start) == t.nodes.dom().len(),
{
    lemma_reachable_among_nodes(t, start);
    assert forall|id: Seq<char>| t.nodes.dom().contains(id) implies t.reachable_set(
        start,
    ).contains(id) by {
        assert(t.has_node(id));
    }
    assert(t.reachable_set(start) =~= t.nodes.dom());
}

/// A chain is a graph whose nodes stand in a row, each listing the next as
/// a neighbour. A flood from the first node of a chain of N nodes visits N
/// ids.
pub proof fn lemma_flood_along_chain(t: TangleView, chain: Seq<Seq<char>>)
    requires
        t.graph_wf(),
        chain.len() >= 1,
        chain.no_duplicates(),
        chain.to_set() == t.nodes.dom(),
        forall|i: int|
            0 <= i < chain.len() - 1 ==> t.neighbors(#[trigger] chain[i]).contains(chain[i + 1]),
    ensures
        t.flood_count(chain[0]) == chain.len(),
{
    assert(chain.to_set().contains(chain[0]));
    assert forall|id: Seq<char>| t.has_node(id) implies t.reachable(chain[0], id) by {
        assert(chain.to_set().contains(id));
        let i = choose|i: int| 0 <= i < chain.len() && chain[i] == id;
        let path = chain.take(i + 1);
        assert forall|k: int| 0 <= k < path.len() - 1 implies t.neighbors(
            #[trigger] path[k],
        ).contains(path[k + 1]) by {
            assert(path[k] == chain[k]);
            assert(t.neighbors(chain[k]).contains(chain[k + 1]));
        }
        assert(t.path(path));
        assert(path[0] == chain[0] && path.last() == id);
    }
    lemma_flood_connected(t, chain[0]);
    chain.unique_seq_to_set();
}

/// A flood in progress, as a mathematical value.
pub struct FloodView {
    /// The id at which the flood started.
    pub origin: Seq<char>,
    /// The ids that were visited.
    pub visited: Set<Seq<char>>,
    /// The ids that wait to be visited; the last is taken next.
    pub frontier: Seq<Seq<char>>,
}

impl FloodView {
    /// A flood that is about to visit `origin`.
    pub open spec fn start(origin: Seq<char>) -> Self {
        FloodView { origin, visited: Set::empty(), frontier: seq![origin] }
    }

    /// Nothing waits to be visited.
    pub open spec fn finished(self) -> bool {
        self.frontier.len() == 0
    }

    /// Whether the next step visits a new id.
    pub open spec fn visits(self) -> bool {
        !self.finished() && !self.visited.contains(self.frontier.last())
    }

    /// The ids that the next step puts on the frontier: where it visits a
    /// new id, the neighbours of that id that are not visited by then.
    pub open spec fn hops(self, t: TangleView) -> Seq<Seq<char>> {
        if self.visits() {
            unvisited(t.neighbors(self.frontier.last()), self.visited.insert(self.frontier.last()))
        } else {
            Seq::empty()
        }
    }

    /// The flood after one step.
    pub open spec fn step(self, t: TangleView) -> Self {
        if self.finished() {
            self
        } else if self.visits() {
            FloodView {
                visited: self.visited.insert(self.frontier.last()),
                frontier: self.frontier.drop_last() + self.hops(t),
                ..self
            }
        } else {
            FloodView { frontier: self.frontier.drop_last(), ..self }
        }
    }

    /// What a step reports: nothing if the flood was finished, and else
    /// the number of ids that it puts on the frontier.
    pub open spec fn reports(self, t: TangleView, hops: Option<usize>) -> bool {
        match hops {
            None => self.finished(),
            Some(count) => !self.finished() && count == self.hops(t).len(),
        }
    }

    /// The pool after one step: where the step visits a new id, the
    /// transaction was offered there.
    pub open spec fn step_pool(
        self,
        t: TangleView,
        transaction: TransactionView,
        now: u64,
    ) -> TangleView {
        if self.visits() {
            t.submit(transaction, now)
        } else {
            t
        }
    }

    /// What holds of a flood from a node, at every step: what was visited
    /// and what waits can be reached from the origin; the origin was visited
    /// or waits; and every neighbour of a visited id was visited or waits.
    pub open spec fn inv(self, t: TangleView) -> bool {
        &&& t.has_node(self.origin)
        &&& self.visited.finite()
        &&& forall|id: Seq<char>| #[trigger]
            self.visited.contains(id) ==> t.reachable(self.origin, id)
        &&& forall|i: int|
            0 <= i < self.frontier.len() ==> t.reachable(self.origin, #[trigger] self.frontier[i])
        &&& self.visited.contains(self.origin) || self.frontier.contains(self.origin)
        &&& forall|v: Seq<char>, n: Seq<char>|
            #![trigger self.visited.contains(v), t.neighbors(v).contains(n)]
            self.visited.contains(v) && t.neighbors(v).contains(n) ==> self.visited.contains(n)
                || self.frontier.contains(n)
    }
}

/// A flood that starts at a node satisfies the invariant.
pub proof fn lemma_flood_start(t: TangleView, origin: Seq<char>)
    requires
        t.has_node(origin),
    ensures
        FloodView::start(origin).inv(t),
{
    let s = FloodView::start(origin);
    lemma_reachable_self(t, origin);
    assert(s.frontier[0] == origin);
}

/// A step keeps the invariant, and brings the flood nearer to its end:
/// either one more id is visited, or as many as before and one id fewer
/// waits.
pub proof fn lemma_flood_step(s: FloodView, t: TangleView)
    requires
        s.inv(t),
        !s.finished(),
    ensures
        s.step(t).inv(t),
        s.visits() ==> s.step(t).visited.len() == s.visited.len() + 1,
        !s.visits() ==> s.step(t).visited == s.visited && s.step(t).frontier.len() + 1
            == s.frontier.len(),
{
    let current = s.frontier.last();
    let next = s.step(t);
    let rest = s.frontier.drop_last();
    assert(t.reachable(s.origin, s.frontier[s.frontier.len() - 1]));
    if s.visits() {
        let hops = s.hops(t);
        lemma_unvisited(t.neighbors(current), next.visited);
        assert forall|id: Seq<char>| #[trigger] next.visited.contains(id) implies t.reachable(
            s.origin,
            id,
        ) by {}
        assert forall|i: int| 0 <= i < next.frontier.len() implies t.reachable(
            s.origin,
            #[trigger] next.frontier[i],
        ) by {
            if i < rest.len() {
                assert(next.frontier[i] == s.frontier[i]);
            } else {
                assert(next.frontier[i] == hops[i - rest.len()]);
                assert(t.neighbors(current).contains(hops[i - rest.len()]));
                lemma_reachable_step(t, s.origin, current, next.frontier[i]);
            }
        }
        assert(next.visited.contains(s.origin) || next.frontier.contains(s.origin)) by {
            if !s.visited.contains(s.origin) {
                let i = choose|i: int| 0 <= i < s.frontier.len() && s.frontier[i] == s.origin;
                if i < rest.len() {
                    assert(next.frontier[i] == s.origin);
                }
            }
        }
        assert forall|v: Seq<char>, n: Seq<char>|
            #![trigger next.visited.contains(v), t.neighbors(v).contains(n)]
            next.visited.contains(v) && t.neighbors(v).contains(n) implies next.visited.contains(n)
            || next.frontier.contains(n) by {
            if v == current {
                if !next.visited.contains(n) {
                    assert(hops.contains(n));
                    let j = choose|j: int| 0 <= j < hops.len() && hops[j] == n;
                    assert(next.frontier[rest.len() + j] == n);
                }
            } else {
                assert(s.visited.contains(v));
                if !s.visited.contains(n) {
                    let i = choose|i: int| 0 <= i < s.frontier.len() && s.frontier[i] == n;
                    if i < rest.len() {
                        assert(next.frontier[i] == n);
                    }
                }
            }
        }
    } else {
        assert forall|i: int| 0 <= i < next.frontier.len() implies t.reachable(
            s.origin,
            #[trigger] next.frontier[i],
        ) by {
            assert(next.frontier[i] == s.frontier[i]);
        }
        assert(next.visited.contains(s.origin) || next.frontier.contains(s.origin)) by {
            if !s.visited.contains(s.origin) {
                let i = choose|i: int| 0 <= i < s.frontier.len() && s.frontier[i] == s.origin;
                assert(next.frontier[i] == s.origin);
            }
        }
        assert forall|v: Seq<char>, n: Seq<char>|
            #![trigger next.visited.contains(v), t.neighbors(v).contains(n)]
            next.visited.contains(v) && t.neighbors(v).contains(n) implies next.visited.contains(n)
            || next.frontier.contains(n) by {
            if !s.visited.contains(n) {
                let i = choose|i: int| 0 <= i < s.frontier.len() && s.frontier[i] == n;
                assert(next.frontier[i] == n);
            }
        }
    }
}

/// Along a path from the origin, a finished flood has visited every id.
proof fn lemma_finished_covers_path(s: FloodView, t: TangleView, path: Seq<Seq<char>>, i: int)
    requires
        s.inv(t),
        s.finished(),
        t.path(path),
        path[0] == s.origin,
        0 <= i < path.len(),
    ensures
        s.visited.contains(path[i]),
    decreases i,
{
    if i > 0 {
        lemma_finished_covers_path(s, t, path, i - 1);
        assert(t.neighbors(path[i - 1]).contains(path[i - 1 + 1]));
    }
}

/// A finished flood has visited exactly the ids that can be reached from
/// its origin.
pub proof fn lemma_flood_finished(s: FloodView, t: TangleView)
    requires
        s.inv(t),
        s.finished(),
    ensures
        s.visited == t.reachable_set(s.origin),
{
    assert forall|id: Seq<char>| t.reachable_set(s.origin).contains(id) implies s.visited.contains(
        id,
    ) by {
        let path = choose|path: Seq<Seq<char>>|
            #![trigger t.path(path)]
            t.path(path) && path[0] == s.origin && path.last() == id;
        lemma_finished_covers_path(s, t, path, path.len() - 1);
    }
    assert(s.visited =~= t.reachable_set(s.origin));
}

/// A flood in progress.
pub struct Flood {
    /// The id at which the flood started.
    pub origin: String,
    /// The ids that were visited.
    pub visited: StringHashSet,
    /// The ids that wait to be visited; the last is taken next.
    pub frontier: Vec<String>,
}

impl View for Flood {
    type V = FloodView;

    open spec fn view(&self) -> FloodView {
        FloodView { origin: self.origin@, visited: self.visited@, frontier: ids(self.frontier@) }
    }
}

impl Flood {
    /// A flood that is about to visit `origin`.
    pub fn begin(origin: &str) -> (flood: Self)
        ensures
            flood@ == FloodView::start(origin@),
    {
        let mut frontier: Vec<String> = Vec::new();
        frontier.push(origin.to_owned());
        let flood = Flood { origin: origin.to_owned(), visited: StringHashSet::new(), frontier };
        assert(flood@.frontier =~= seq![origin@]);
        flood
    }

    /// A flood over `tangle` that is about to visit `origin`; none if
    /// `origin` names no node.
    pub fn begin_in(tangle: &Tangle, origin: &str) -> (flood: Option<Self>)
        ensures
            match flood {
                Some(flood) => tangle@.has_node(origin@) && flood@ == FloodView::start(origin@),
                None => !tangle@.has_node(origin@),
            },
    {
        if tangle.nodes.contains_key(origin) {
            Some(Flood::begin(origin))
        } else {
            None
        }
    }

    /// Whether nothing waits to be visited.
    pub fn is_finished(&self) -> (finished: bool)
        ensures
            finished == self@.finished(),
    {
        self.frontier.len() == 0
    }

    /// The number of ids that were visited.
    pub fn reached(&self) -> (count: usize)
        ensures
            count == self@.visited.len(),
    {
        self.visited.len()
    }

    /// Makes one step: takes the last id off the frontier and, if it has
    /// not been visited, visits it, offers the transaction to the pool at
    /// the time `now`, and puts its unvisited neighbours on the frontier.
    ///
    /// Returns the number of ids put on the frontier, each a hop to a
    /// neighbour; `None` if the flood was finished.
    pub fn advance(&mut self, tangle: &mut Tangle, transaction: &Transaction, now: u64) -> (hops:
        Option<usize>)
        ensures
            final(self)@ == old(self)@.step(old(tangle)@),
            final(tangle)@ == old(self)@.step_pool(old(tangle)@, transaction@, now),
            old(tangle).wf() ==> final(tangle).wf(),
            old(self)@.reports(old(tangle)@, hops),
    {
        let ghost before = self@;
        let current = match self.frontier.pop() {
            Some(current) => current,
            None => {
                assert(self@.frontier =~= before.frontier);
                return None;
            },
        };
        assert(ids(self.frontier@) =~= before.frontier.drop_last());
        assert(current@ == before.frontier.last());
        if self.visited.contains(current.as_str()) {
            return Some(0);
        }
        self.visited.insert(current.clone());
        tangle.add_transaction_at(transaction.clone(), now);
        let neighbors = tangle.get_neighbors(current.as_str());
        let ghost listed = ids(neighbors@);
        let ghost rest = before.frontier.drop_last();
        let mut hops: usize = 0;
        let mut i: usize = 0;
        assert(ids(self.frontier@) =~= rest + unvisited(listed.take(0), self.visited@));
        while i < neighbors.len()
            invariant
                i <= neighbors@.len(),
                listed == ids(neighbors@),
                self.origin == old(self).origin,
                self.visited@ == before.visited.insert(current@),
                ids(self.frontier@) == rest + unvisited(listed.take(i as int), self.visited@),
                hops == unvisited(listed.take(i as int), self.visited@).len(),
            decreases neighbors@.len() - i,
        {
            let neighbor = &neighbors[i];
            assert(listed.take(i + 1).drop_last() =~= listed.take(i as int));
            assert(listed.take(i + 1).last() == neighbor@);
            if !self.visited.contains(neighbor.as_str()) {
                proof {
                    lemma_ids_push(self.frontier@, *neighbor);
                    assert((rest + unvisited(listed.take(i as int), self.visited@)).push(neighbor@)
                        =~= rest + unvisited(listed.take(i as int), self.visited@).push(neighbor@));
                }
                self.frontier.push(neighbor.clone());
                assert(hops < self.frontier.len());
                hops = hops + 1;
            }
            i += 1;
        }
        assert(listed.take(i as int) =~= listed);
        Some(hops)
    }
}

impl Tangle {
    /// Floods a transaction from `start_node_id` at the time `now`.
    ///
    /// Every node that can be reached from the start is visited once, and
    /// the transaction is offered to the pool at each visit; it joins the
    /// pool at most once. Returns the number of nodes visited, whether or not
    /// the transaction was admitted; 0, with nothing changed, if the start
    /// names no node.
    pub fn propagate_transaction_at(
        &mut self,
        transaction: Transaction,
        start_node_id: &str,
        now: u64,
    ) -> (count: usize)
        ensures
            final(self)@ == old(self)@.flood(transaction@, start_node_id@, now),
            count == old(self)@.flood_count(start_node_id@),
            old(self).wf() ==> final(self).wf(),
    {
        let mut flood = match Flood::begin_in(self, start_node_id) {
            Some(flood) => flood,
            None => {
                return 0;
            },
        };
        proof {
            lemma_flood_start(self@, start_node_id@);
        }
        loop
            invariant
                old(self).wf() ==> self.wf(),
                self@.nodes == old(self)@.nodes,
                flood@.origin == start_node_id@,
                flood@.inv(self@),
                flood@.visited.len() <= usize::MAX,
                flood@.visited.len() == 0 ==> self@ == old(self)@,
                flood@.visited.len() > 0 ==> self@ == old(self)@.submit(transaction@, now),
            decreases usize::MAX - flood@.visited.len(), flood@.frontier.len(),
        {
            let ghost state = flood@;
            let ghost pool = self@;
            proof {
                if !state.finished() {
                    lemma_flood_step(state, pool);
                    lemma_submit_twice(old(self)@, transaction@, now);
                    assert(state.step(pool).inv(pool.submit(transaction@, now))) by {
                        lemma_same_graph(state.step(pool), pool, pool.submit(transaction@, now));
                    }
                }
            }
            let hops = flood.advance(self, &transaction, now);
            proof {
                // Each step visits one more id or takes one off the
                // frontier, and a set holds no more than `usize::MAX` ids.
                assert(flood@.visited.len() == flood.visited.spec_len());
            }
            if hops.is_none() {
                proof {
                    lemma_flood_finished(state, pool);
                    lemma_reachable_same_graph(pool, old(self)@, start_node_id@);
                }
                return flood.reached();
            }
        }
    }

    /// Floods a transaction from `start_node_id` at the current time.
    pub fn propagate_transaction(
        &mut self,
        transaction: Transaction,
        start_node_id: &str,
    ) -> (count: usize)
        ensures
            exists|now: u64| final(self)@ == old(self)@.flood(transaction@, start_node_id@, now),
            count == old(self)@.flood_count(start_node_id@),
            old(self).wf() ==> final(self).wf(),
    {
        self.propagate_transaction_at(transaction, start_node_id, unix_millis())
    }
}

/// What can be reached depends on the graph alone.
pub proof fn lemma_reachable_same_graph(t: TangleView, u: TangleView, from: Seq<char>)
    requires
        u.nodes == t.nodes,
    ensures
        forall|to: Seq<char>| t.reachable(from, to) == u.reachable(from, to),
        t.reachable_set(from) == u.reachable_set(from),
{
    assert forall|to: Seq<char>| t.reachable(from, to) == u.reachable(from, to) by {
        if t.reachable(from, to) {
            let path = choose|path: Seq<Seq<char>>|
                #![trigger t.path(path)]
                t.path(path) && path[0] == from && path.last() == to;
            assert forall|i: int| 0 <= i < path.len() - 1 implies u.neighbors(
                #[trigger] path[i],
            ).contains(path[i + 1]) by {
                assert(t.neighbors(path[i]).contains(path[i + 1]));
            }
            assert(u.path(path));
        }
        if u.reachable(from, to) {
            let path = choose|path: Seq<Seq<char>>|
                #![trigger u.path(path)]
                u.path(path) && path[0] == from && path.last() == to;
            assert forall|i: int| 0 <= i < path.len() - 1 implies t.neighbors(
                #[trigger] path[i],
            ).contains(path[i + 1]) by {
                assert(u.neighbors(path[i]).contains(path[i + 1]));
            }
            assert(t.path(path));
        }
    }
    assert(t.reachable_set(from) =~= u.reachable_set(from));
}

/// The invariant of a flood speaks of the graph alone.
pub proof fn lemma_same_graph(s: FloodView, t: TangleView, u: TangleView)
    requires
        s.inv(t),
        u.nodes == t.nodes,
    ensures
        s.inv(u),
{
    lemma_reachable_same_graph(t, u, s.origin);
    assert forall|v: Seq<char>, n: Seq<char>|
        #![trigger s.visited.contains(v), u.neighbors(v).contains(n)]
        s.visited.contains(v) && u.neighbors(v).contains(n) implies s.visited.contains(n)
        || s.frontier.contains(n) by {
        assert(t.neighbors(v).contains(n));
    }
}

} // verus!
