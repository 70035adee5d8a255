//! The ledger as a mathematical value: what each operation of the tangle does
//! to it, and the invariant that the operations keep.

use crate::error::ErrorKind;
use crate::node::{lemma_add_neighbor, NodeView};
use crate::transaction::{content_check, TransactionView};
use vstd::prelude::*;

verus! {

/// A tangle as a mathematical value.
pub struct TangleView {
    /// The nodes, by id.
    pub nodes: Map<Seq<char>, NodeView>,
    /// The admitted transactions, by id.
    pub transactions: Map<Seq<char>, TransactionView>,
    /// The ids of the admitted transactions, in the order of admission.
    pub order: Seq<Seq<char>>,
}

impl TangleView {
    /// The tangle without nodes and transactions.
    pub open spec fn empty() -> Self {
        TangleView { nodes: Map::empty(), transactions: Map::empty(), order: Seq::empty() }
    }

    /// Whether a node is registered under `id`.
    pub open spec fn has_node(self, id: Seq<char>) -> bool {
        self.nodes.contains_key(id)
    }

    /// Whether a transaction is admitted under `id`.
    pub open spec fn admitted(self, id: Seq<char>) -> bool {
        self.transactions.contains_key(id)
    }

    /// The neighbours of the node `id`; none if there is no such node.
    pub open spec fn neighbors(self, id: Seq<char>) -> Seq<Seq<char>> {
        if self.has_node(id) {
            self.nodes[id].neighbors
        } else {
            Seq::empty()
        }
    }

    /// The weight of the transaction admitted under `id`.
    pub open spec fn weight(self, id: Seq<char>) -> u32 {
        self.transactions[id].weight
    }

    /// The tangle after a node was offered: registered without neighbours,
    /// unless the id is taken.
    pub open spec fn add_node(self, id: Seq<char>, verifying_key: Seq<u8>) -> Self {
        if self.has_node(id) {
            self
        } else {
            TangleView { nodes: self.nodes.insert(id, NodeView::fresh(id, verifying_key)), ..self }
        }
    }

    /// Whether an edge between `a` and `b` can be made: two different nodes.
    pub open spec fn can_connect(self, a: Seq<char>, b: Seq<char>) -> bool {
        a != b && self.has_node(a) && self.has_node(b)
    }

    /// The tangle after an edge between `a` and `b` was asked for: each lists
    /// the other, if the edge can be made.
    pub open spec fn connect(self, a: Seq<char>, b: Seq<char>) -> Self {
        if self.can_connect(a, b) {
            TangleView {
                nodes: self.nodes.insert(a, self.nodes[a].add_neighbor(b)).insert(
                    b,
                    self.nodes[b].add_neighbor(a),
                ),
                ..self
            }
        } else {
            self
        }
    }

    /// What admission asks of every transaction, at the time `now`: no
    /// transaction is admitted under its id yet, it validates, a node is
    /// registered under its id, and that node's key accepts its signature.
    /// The first rule that is broken gives the error.
    pub open spec fn admission(self, transaction: TransactionView, now: u64) -> Result<
        (),
        ErrorKind,
    > {
        if self.admitted(transaction.id) {
            Err(ErrorKind::DuplicateTransaction)
        } else if transaction.validation(now) is Err {
            transaction.validation(now)
        } else if !self.has_node(transaction.id) {
            Err(ErrorKind::NodeNotFound)
        } else {
            transaction.signature_check(self.nodes[transaction.id].verifying_key)
        }
    }

    /// The tangle after a transaction was offered at the time `now`: admitted
    /// if `admission` accepts it, and else the tangle as it was.
    pub open spec fn submit(self, transaction: TransactionView, now: u64) -> Self {
        if self.admission(transaction, now) is Ok {
            TangleView {
                transactions: self.transactions.insert(transaction.id, transaction),
                order: self.order.push(transaction.id),
                ..self
            }
        } else {
            self
        }
    }

    /// For every admitted transaction, in the order of admission, its id and
    /// the neighbours of the node of that id.
    pub open spec fn snapshot(self) -> Seq<(Seq<char>, Seq<Seq<char>>)> {
        Seq::new(self.order.len(), |i: int| (self.order[i], self.neighbors(self.order[i])))
    }

    /// The node under `id` carries that id, lists no neighbour twice and not
    /// itself, and each of its neighbours is a node that lists it in turn.
    pub open spec fn node_wf(self, id: Seq<char>) -> bool {
        &&& self.nodes[id].id == id
        &&& self.nodes[id].wf()
        &&& forall|n: Seq<char>| #[trigger]
            self.nodes[id].neighbors.contains(n) ==> self.nodes.contains_key(n)
                && self.nodes[n].neighbors.contains(id)
    }

    /// The graph is finite, and every node is well formed.
    pub open spec fn graph_wf(self) -> bool {
        &&& self.nodes.dom().finite()
        &&& forall|id: Seq<char>| #[trigger] self.nodes.contains_key(id) ==> self.node_wf(id)
    }

    /// The transaction under `id` carries that id, has valid contents, and
    /// is signed for the key of the node of the same id.
    pub open spec fn entry_wf(self, id: Seq<char>) -> bool {
        &&& self.transactions[id].id == id
        &&& self.nodes.contains_key(id)
        &&& content_check(self.transactions[id].id, self.transactions[id].payload) is Ok
        &&& self.transactions[id].signature_check(self.nodes[id].verifying_key) is Ok
    }

    /// The pool is finite, every entry is well formed, and the order of
    /// admission lists each admitted id once.
    pub open spec fn pool_wf(self) -> bool {
        &&& self.transactions.dom().finite()
        &&& self.order.no_duplicates()
        &&& forall|id: Seq<char>| self.transactions.contains_key(id) <==> self.order.contains(id)
        &&& forall|id: Seq<char>| #[trigger]
            self.transactions.contains_key(id) ==> self.entry_wf(id)
    }

    /// The invariant of the tangle.
    pub open spec fn wf(self) -> bool {
        self.graph_wf() && self.pool_wf()
    }
}

/// The empty tangle is well formed.
pub proof fn lemma_empty_wf()
    ensures
        TangleView::empty().wf(),
{
    let t = TangleView::empty();
    assert(t.nodes.dom() =~= Set::empty());
    assert(t.transactions.dom() =~= Set::empty());
}

/// Registering a node keeps the tangle well formed.
pub proof fn lemma_add_node_wf(t: TangleView, id: Seq<char>, verifying_key: Seq<u8>)
    requires
        t.wf(),
    ensures
        t.add_node(id, verifying_key).wf(),
{
    let u = t.add_node(id, verifying_key);
    if !t.has_node(id) {
        assert(u.nodes.dom() =~= t.nodes.dom().insert(id));
        assert forall|k: Seq<char>| #[trigger] u.nodes.contains_key(k) implies u.node_wf(k) by {
            if k != id {
                assert(t.node_wf(k));
                assert forall|n: Seq<char>| #[trigger]
                    u.nodes[k].neighbors.contains(n) implies u.nodes.contains_key(n)
                    && u.nodes[n].neighbors.contains(k) by {
                    assert(t.nodes[k].neighbors.contains(n));
                }
            }
        }
        assert forall|k: Seq<char>| #[trigger] u.transactions.contains_key(k) implies u.entry_wf(
            k,
        ) by {
            assert(t.entry_wf(k));
        }
    }
}

/// Making an edge keeps the tangle well formed.
pub proof fn lemma_connect_wf(t: TangleView, a: Seq<char>, b: Seq<char>)
    requires
        t.wf(),
    ensures
        t.connect(a, b).wf(),
{
    let u = t.connect(a, b);
    if t.can_connect(a, b) {
        assert(t.node_wf(a));
        assert(t.node_wf(b));
        lemma_add_neighbor(t.nodes[a], b);
        lemma_add_neighbor(t.nodes[b], a);
        let grown_a = t.nodes[a].add_neighbor(b);
        let grown_b = t.nodes[b].add_neighbor(a);
        assert(u.nodes[a] == grown_a);
        assert(u.nodes[b] == grown_b);
        assert(u.nodes.dom() =~= t.nodes.dom());
        assert forall|k: Seq<char>| #[trigger] u.nodes.contains_key(k) implies u.node_wf(k) by {
            assert(t.node_wf(k));
            assert forall|n: Seq<char>| #[trigger]
                u.nodes[k].neighbors.contains(n) implies u.nodes.contains_key(n)
                && u.nodes[n].neighbors.contains(k) by {
                // `n` was a neighbour of `k` before, or the edge is the new one.
                if k == a {
                    assert(grown_a.is_neighbor(n));
                    if n != b {
                        assert(t.nodes[a].neighbors.contains(n));
                    }
                } else if k == b {
                    assert(grown_b.is_neighbor(n));
                    if n != a {
                        assert(t.nodes[b].neighbors.contains(n));
                    }
                } else {
                    assert(t.nodes[k].neighbors.contains(n));
                }
                // `n` lists `k` in turn.
                if n == a {
                    if k != b {
                        assert(t.nodes[a].is_neighbor(k));
                    }
                    assert(grown_a.is_neighbor(k));
                } else if n == b {
                    if k != a {
                        assert(t.nodes[b].is_neighbor(k));
                    }
                    assert(grown_b.is_neighbor(k));
                }
            }
        }
        assert forall|k: Seq<char>| #[trigger] u.transactions.contains_key(k) implies u.entry_wf(
            k,
        ) by {
            assert(t.entry_wf(k));
        }
    }
}

/// Offering a transaction keeps the tangle well formed.
pub proof fn lemma_submit_wf(t: TangleView, transaction: TransactionView, now: u64)
    requires
        t.wf(),
    ensures
        t.submit(transaction, now).wf(),
{
    let u = t.submit(transaction, now);
    if t.admission(transaction, now) is Ok {
        let id = transaction.id;
        assert(u.transactions.dom() =~= t.transactions.dom().insert(id));
        assert(!t.order.contains(id));
        assert forall|i: int, j: int|
            0 <= i < u.order.len() && 0 <= j < u.order.len() && i != j implies u.order[i]
            != u.order[j] by {
            if i < t.order.len() {
                assert(t.order.contains(u.order[i]));
            }
            if j < t.order.len() {
                assert(t.order.contains(u.order[j]));
            }
        }
        assert forall|k: Seq<char>| u.transactions.contains_key(k) <==> u.order.contains(k) by {
            if u.order.contains(k) {
                let i = choose|i: int| 0 <= i < u.order.len() && u.order[i] == k;
                if i < t.order.len() {
                    assert(t.order.contains(k));
                }
            }
            if u.transactions.contains_key(k) {
                if k == id {
                    assert(u.order[t.order.len() as int] == k);
                } else {
                    assert(t.order.contains(k));
                    let i = choose|i: int| 0 <= i < t.order.len() && t.order[i] == k;
                    assert(u.order[i] == k);
                }
            }
        }
        assert forall|k: Seq<char>| #[trigger] u.transactions.contains_key(k) implies u.entry_wf(
            k,
        ) by {
            if k != id {
                assert(t.entry_wf(k));
            }
        }
    }
}

/// A transaction that was admitted is not admitted again: whatever is
/// offered under its id afterwards, at whatever time, is turned down as a
/// duplicate, and the pool stays as it is.
pub proof fn lemma_admitted_once(
    t: TangleView,
    first: TransactionView,
    second: TransactionView,
    now: u64,
    later: u64,
)
    requires
        t.admission(first, now) is Ok,
        second.id == first.id,
    ensures
        t.submit(first, now).admission(second, later) == Err::<(), ErrorKind>(
            ErrorKind::DuplicateTransaction,
        ),
        t.submit(first, now).submit(second, later) == t.submit(first, now),
{
}

/// Offering the same transaction twice: the second offer is turned down, and
/// leaves the pool, and so the number of admitted transactions, as the first
/// left it.
///
/// Left out is the one case in which this does not hold: the first offer
/// failed only because the timestamp lay after `now`, and by `later` it does
/// not.
pub proof fn lemma_second_offer_fails(
    t: TangleView,
    transaction: TransactionView,
    now: u64,
    later: u64,
)
    requires
        !(t.admission(transaction, now) == Err::<(), ErrorKind>(ErrorKind::TimestampInFuture)
            && t.admission(transaction, later) is Ok),
    ensures
        t.submit(transaction, now).admission(transaction, later) is Err,
        t.submit(transaction, now).submit(transaction, later) == t.submit(transaction, now),
        t.submit(transaction, now).submit(transaction, later).transactions.len() == t.submit(
            transaction,
            now,
        ).transactions.len(),
{
}

/// An edge is listed on both sides: in a well-formed tangle, each neighbour
/// of a node lists that node in turn.
pub proof fn lemma_edges_are_symmetric(t: TangleView, a: Seq<char>, b: Seq<char>)
    requires
        t.wf(),
        t.neighbors(a).contains(b),
    ensures
        t.neighbors(b).contains(a),
{
    assert(t.node_wf(a));
    assert(t.nodes[a].neighbors.contains(b));
}

/// After an edge between `a` and `b` was made, every entry of the snapshot
/// for `a` lists `b`, and every entry for `b` lists `a`.
pub proof fn lemma_snapshot_shows_edge(t: TangleView, a: Seq<char>, b: Seq<char>)
    requires
        t.wf(),
        t.can_connect(a, b),
    ensures
        forall|i: int|
            0 <= i < t.connect(a, b).snapshot().len() && (#[trigger] t.connect(
                a,
                b,
            ).snapshot()[i]).0 == a ==> t.connect(a, b).snapshot()[i].1.contains(b),
        forall|i: int|
            0 <= i < t.connect(a, b).snapshot().len() && (#[trigger] t.connect(
                a,
                b,
            ).snapshot()[i]).0 == b ==> t.connect(a, b).snapshot()[i].1.contains(a),
{
    let u = t.connect(a, b);
    assert(t.node_wf(a));
    assert(t.node_wf(b));
    lemma_add_neighbor(t.nodes[a], b);
    lemma_add_neighbor(t.nodes[b], a);
    assert(u.nodes[a] == t.nodes[a].add_neighbor(b));
    assert(u.nodes[b] == t.nodes[b].add_neighbor(a));
    assert(u.nodes[a].is_neighbor(b));
    assert(u.nodes[b].is_neighbor(a));
}

/// In a well-formed tangle the snapshot is symmetric: where the entry for
/// `a` lists `b`, every entry for `b` lists `a`.
pub proof fn lemma_snapshot_is_symmetric(t: TangleView, i: int, j: int)
    requires
        t.wf(),
        0 <= i < t.snapshot().len(),
        0 <= j < t.snapshot().len(),
        t.snapshot()[i].1.contains(t.snapshot()[j].0),
    ensures
        t.snapshot()[j].1.contains(t.snapshot()[i].0),
{
    lemma_edges_are_symmetric(t, t.order[i], t.order[j]);
}

} // verus!
