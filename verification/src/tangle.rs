//! The tangle: the graph of nodes and the pool of admitted transactions.

use crate::clock::unix_millis;
use crate::error::ErrorKind;
use crate::ledger::{
    lemma_add_node_wf, lemma_connect_wf, lemma_empty_wf, lemma_submit_wf, TangleView,
};
use crate::node::{copy_ids, ids, lemma_ids_push, Node};
use crate::transaction::Transaction;
use vstd::hash_map::StringHashMap;
use vstd::prelude::*;

verus! {

/// Mapping the values of a map commutes with inserting an entry.
pub proof fn lemma_map_values_insert<V, W>(
    m: Map<Seq<char>, V>,
    key: Seq<char>,
    value: V,
    f: spec_fn(V) -> W,
)
    ensures
        m.insert(key, value).map_values(f) == m.map_values(f).insert(key, f(value)),
{
    assert(m.insert(key, value).map_values(f) =~= m.map_values(f).insert(key, f(value)));
}

/// A snapshot as a mathematical value: each entry's id, and the ids of its
/// neighbours.
pub open spec fn snapshot_view(snapshot: Seq<(String, Vec<String>)>) -> Seq<
    (Seq<char>, Seq<Seq<char>>),
> {
    Seq::new(snapshot.len(), |i: int| (snapshot[i].0@, ids(snapshot[i].1@)))
}

/// The graph of nodes together with the pool of admitted transactions.
pub struct Tangle {
    /// The nodes, by id.
    pub nodes: StringHashMap<Node>,
    /// The admitted transactions, by id.
    pub transactions: StringHashMap<Transaction>,
    /// The ids of the admitted transactions, in the order of admission.
    pub order: Vec<String>,
}

impl View for Tangle {
    type V = TangleView;

    open spec fn view(&self) -> TangleView {
        TangleView {
            nodes: self.nodes@.map_values(|node: Node| node@),
            transactions: self.transactions@.map_values(|transaction: Transaction| transaction@),
            order: ids(self.order@),
        }
    }
}

impl Default for Tangle {
    fn default() -> (tangle: Self)
        ensures
            tangle@ == TangleView::empty(),
            tangle.wf(),
    {
        Self::new()
    }
}

impl Tangle {
    /// The invariant of the tangle, which every operation keeps.
    pub open spec fn wf(&self) -> bool {
        self@.wf()
    }

    /// The tangle without nodes and transactions.
    pub fn new() -> (tangle: Self)
        ensures
            tangle@ == TangleView::empty(),
            tangle.wf(),
    {
        let tangle = Tangle {
            nodes: StringHashMap::new(),
            transactions: StringHashMap::new(),
            order: Vec::new(),
        };
        proof {
            assert(tangle@.nodes =~= Map::empty());
            assert(tangle@.transactions =~= Map::empty());
            assert(tangle@.order =~= Seq::empty());
            lemma_empty_wf();
        }
        tangle
    }

    /// The neighbours of a node, in the order in which they were listed;
    /// none for an id that names no node.
    pub fn get_neighbors(&self, transaction_id: &str) -> (neighbors: Vec<String>)
        ensures
            ids(neighbors@) == self@.neighbors(transaction_id@),
    {
        match self.nodes.get(transaction_id) {
            Some(node) => copy_ids(&node.neighbors),
            None => {
                let neighbors: Vec<String> = Vec::new();
                assert(ids(neighbors@) =~= Seq::<Seq<char>>::empty());
                neighbors
            },
        }
    }

    /// Registers a node without neighbours, unless the id is taken.
    pub fn add_node(&mut self, id: &str, verifying_key: [u8; 32]) -> (added: bool)
        ensures
            added == !old(self)@.has_node(id@),
            final(self)@ == old(self)@.add_node(id@, verifying_key@),
            old(self).wf() ==> final(self).wf(),
    {
        if self.nodes.contains_key(id) {
            return false;
        }
        let node = Node::new(id, verifying_key);
        proof {
            lemma_map_values_insert(self.nodes@, id@, node, |node: Node| node@);
            if self.wf() {
                lemma_add_node_wf(self@, id@, verifying_key@);
            }
        }
        self.nodes.insert(id.to_owned(), node);
        true
    }

    /// Makes an edge between two different nodes: each lists the other,
    /// unless it does so already. Fails, and changes nothing, if either id
    /// names no node or the two are the same.
    pub fn connect_nodes(&mut self, id1: &str, id2: &str) -> (connected: bool)
        ensures
            connected == old(self)@.can_connect(id1@, id2@),
            final(self)@ == old(self)@.connect(id1@, id2@),
            old(self).wf() ==> final(self).wf(),
    {
        let key1 = id1.to_owned();
        let key2 = id2.to_owned();
        if key1 == key2 {
            return false;
        }
        let mut node1 = match self.nodes.get(id1) {
            Some(node) => node.clone(),
            None => {
                return false;
            },
        };
        let mut node2 = match self.nodes.get(id2) {
            Some(node) => node.clone(),
            None => {
                return false;
            },
        };
        node1.add_neighbor(id2);
        node2.add_neighbor(id1);
        proof {
            let view = |node: Node| node@;
            lemma_map_values_insert(self.nodes@, id1@, node1, view);
            lemma_map_values_insert(self.nodes@.insert(id1@, node1), id2@, node2, view);
            if self.wf() {
                lemma_connect_wf(self@, id1@, id2@);
            }
        }
        self.nodes.insert(key1, node1);
        self.nodes.insert(key2, node2);
        true
    }

    /// The verifying key of a node.
    pub fn get_verifying_key(&self, node_id: &str) -> (key: Option<&[u8; 32]>)
        ensures
            match key {
                Some(key) => self@.has_node(node_id@) && key@
                    == self@.nodes[node_id@].verifying_key,
                None => !self@.has_node(node_id@),
            },
    {
        match self.nodes.get(node_id) {
            Some(node) => Some(&node.verifying_key),
            None => None,
        }
    }

    /// Whether a transaction would be admitted at the time `now`, and if
    /// not, the first rule that it breaks.
    pub fn check_admission(&self, transaction: &Transaction, now: u64) -> (result: Result<
        (),
        ErrorKind,
    >)
        ensures
            result == self@.admission(transaction@, now),
    {
        if self.transactions.contains_key(transaction.id.as_str()) {
            return Err(ErrorKind::DuplicateTransaction);
        }
        match transaction.validate_at(now) {
            Err(error) => {
                return Err(error);
            },
            Ok(()) => {},
        }
        match self.get_verifying_key(transaction.id.as_str()) {
            None => Err(ErrorKind::NodeNotFound),
            Some(key) => transaction.validate_signature(key),
        }
    }

    /// Offers a transaction at the time `now`: it joins the pool if it
    /// is admitted, and else nothing changes.
    pub fn add_transaction_at(&mut self, transaction: Transaction, now: u64) -> (added: bool)
        ensures
            added == (old(self)@.admission(transaction@, now) is Ok),
            final(self)@ == old(self)@.submit(transaction@, now),
            old(self).wf() ==> final(self).wf(),
    {
        match self.check_admission(&transaction, now) {
            Err(_) => false,
            Ok(()) => {
                let id = transaction.id.clone();
                proof {
                    lemma_map_values_insert(
                        self.transactions@,
                        id@,
                        transaction,
                        |transaction: Transaction| transaction@,
                    );
                    lemma_ids_push(self.order@, id);
                    if self.wf() {
                        lemma_submit_wf(self@, transaction@, now);
                    }
                }
                self.order.push(id.clone());
                self.transactions.insert(id, transaction);
                true
            },
        }
    }

    /// Offers a transaction at the current time.
    pub fn add_transaction(&mut self, transaction: Transaction) -> (added: bool)
        ensures
            exists|now: u64|
                added == (old(self)@.admission(transaction@, now) is Ok) && final(self)@ == old(
                    self,
                )@.submit(transaction@, now),
            old(self).wf() ==> final(self).wf(),
    {
        self.add_transaction_at(transaction, unix_millis())
    }

    /// For every admitted transaction, in the order of admission, its id and
    /// the neighbours of the node of that id.
    pub fn get_snapshot(&self) -> (snapshot: Vec<(String, Vec<String>)>)
        ensures
            snapshot_view(snapshot@) == self@.snapshot(),
    {
        let mut snapshot: Vec<(String, Vec<String>)> = Vec::new();
        let mut i: usize = 0;
        while i < self.order.len()
            invariant
                i <= self.order@.len(),
                snapshot@.len() == i,
                forall|j: int|
                    0 <= j < i ==> snapshot_view(snapshot@)[j] == #[trigger] self@.snapshot()[j],
            decreases self.order@.len() - i,
        {
            let id = self.order[i].clone();
            let neighbors = self.get_neighbors(id.as_str());
            snapshot.push((id, neighbors));
            i += 1;
        }
        assert(snapshot_view(snapshot@) =~= self@.snapshot());
        snapshot
    }
}

} // verus!
