//! Nodes of the graph: an id, the ids of the neighbours, and the key that
//! vouches for transactions issued under the id.

use vstd::prelude::*;

verus! {

/// The strings of a list, each as a sequence of characters.
pub open spec fn ids(list: Seq<String>) -> Seq<Seq<char>> {
    list.map_values(|id: String| id@)
}

/// Appending to a list appends to its ids.
pub proof fn lemma_ids_push(list: Seq<String>, id: String)
    ensures
        ids(list.push(id)) == ids(list).push(id@),
{
    assert(ids(list.push(id)) =~= ids(list).push(id@));
}

/// Whether `id` occurs in `list`.
pub fn contains_id(list: &Vec<String>, id: &str) -> (found: bool)
    ensures
        found == ids(list@).contains(id@),
{
    let wanted = id.to_owned();
    let mut i: usize = 0;
    while i < list.len()
        invariant
            i <= list@.len(),
            wanted@ == id@,
            forall|j: int| 0 <= j < i ==> ids(list@)[j] != id@,
        decreases list@.len() - i,
    {
        if list[i] == wanted {
            assert(ids(list@)[i as int] == id@);
            return true;
        }
        i += 1;
    }
    false
}

/// A copy of `list`.
pub fn copy_ids(list: &Vec<String>) -> (copy: Vec<String>)
    ensures
        copy@ == list@,
{
    let mut copy: Vec<String> = Vec::new();
    let mut i: usize = 0;
    while i < list.len()
        invariant
            i <= list@.len(),
            copy@ == list@.subrange(0, i as int),
        decreases list@.len() - i,
    {
        copy.push(list[i].clone());
        assert(list@.subrange(0, i + 1) =~= list@.subrange(0, i as int).push(list@[i as int]));
        i += 1;
    }
    assert(list@.subrange(0, i as int) =~= list@);
    copy
}

/// A node as a mathematical value.
pub struct NodeView {
    pub id: Seq<char>,
    pub neighbors: Seq<Seq<char>>,
    pub verifying_key: Seq<u8>,
}

impl NodeView {
    /// A node without neighbours.
    pub open spec fn fresh(id: Seq<char>, verifying_key: Seq<u8>) -> Self {
        NodeView { id, neighbors: Seq::empty(), verifying_key }
    }

    /// Whether `id` is listed as a neighbour.
    pub open spec fn is_neighbor(self, id: Seq<char>) -> bool {
        self.neighbors.contains(id)
    }

    /// The node after `neighbor` was offered as a neighbour: appended to the
    /// list, unless it is the node's own id or is listed already.
    pub open spec fn add_neighbor(self, neighbor: Seq<char>) -> Self {
        if neighbor == self.id || self.neighbors.contains(neighbor) {
            self
        } else {
            NodeView { neighbors: self.neighbors.push(neighbor), ..self }
        }
    }

    /// No neighbour is listed twice, and the node is not its own neighbour.
    pub open spec fn wf(self) -> bool {
        self.neighbors.no_duplicates() && !self.neighbors.contains(self.id)
    }
}

/// Offering a neighbour keeps a node well formed, lists the neighbour unless
/// it is the node itself, and drops none that was listed.
pub proof fn lemma_add_neighbor(node: NodeView, neighbor: Seq<char>)
    requires
        node.wf(),
    ensures
        node.add_neighbor(neighbor).wf(),
        node.add_neighbor(neighbor).id == node.id,
        node.add_neighbor(neighbor).verifying_key == node.verifying_key,
        neighbor != node.id ==> node.add_neighbor(neighbor).is_neighbor(neighbor),
        forall|other: Seq<char>| #[trigger]
            node.is_neighbor(other) ==> node.add_neighbor(neighbor).is_neighbor(other),
        forall|other: Seq<char>| #[trigger]
            node.add_neighbor(neighbor).is_neighbor(other) ==> node.is_neighbor(other) || other
                == neighbor,
{
    let grown = node.add_neighbor(neighbor);
    if !(neighbor == node.id || node.neighbors.contains(neighbor)) {
        assert(grown.neighbors == node.neighbors.push(neighbor));
        assert forall|i: int, j: int|
            0 <= i < grown.neighbors.len() && 0 <= j < grown.neighbors.len() && i != j implies
            grown.neighbors[i] != grown.neighbors[j] by {
            if i < node.neighbors.len() {
                assert(node.neighbors.contains(grown.neighbors[i]));
            }
            if j < node.neighbors.len() {
                assert(node.neighbors.contains(grown.neighbors[j]));
            }
        }
        assert forall|other: Seq<char>| grown.is_neighbor(other) <==> (node.is_neighbor(other)
            || other == neighbor) by {
            if grown.is_neighbor(other) {
                let i = choose|i: int|
                    0 <= i < grown.neighbors.len() && grown.neighbors[i] == other;
                if i < node.neighbors.len() {
                    assert(node.neighbors[i] == other);
                }
            }
            if node.is_neighbor(other) {
                let i = choose|i: int| 0 <= i < node.neighbors.len() && node.neighbors[i] == other;
                assert(grown.neighbors[i] == other);
            }
            if other == neighbor {
                assert(grown.neighbors[node.neighbors.len() as int] == other);
            }
        }
    }
}

/// A vertex of the graph.
#[derive(Debug, PartialEq, Eq)]
pub struct Node {
    /// The id, under which the tangle holds the node.
    pub id: String,
    /// The ids of the neighbours, in the order in which they were listed.
    pub neighbors: Vec<String>,
    /// The Ed25519 key that verifies the transactions issued under the id.
    pub verifying_key: [u8; 32],
}

impl View for Node {
    type V = NodeView;

    open spec fn view(&self) -> NodeView {
        NodeView {
            id: self.id@,
            neighbors: ids(self.neighbors@),
            verifying_key: self.verifying_key@,
        }
    }
}

impl Clone for Node {
    fn clone(&self) -> (copy: Self)
        ensures
            copy@ == self@,
    {
        Node {
            id: self.id.clone(),
            neighbors: copy_ids(&self.neighbors),
            verifying_key: self.verifying_key,
        }
    }
}

impl Node {
    /// A node without neighbours.
    pub fn new(id: &str, verifying_key: [u8; 32]) -> (node: Self)
        ensures
            node@ == NodeView::fresh(id@, verifying_key@),
    {
        let node = Node { id: id.to_owned(), neighbors: Vec::new(), verifying_key };
        assert(ids(node.neighbors@) =~= Seq::<Seq<char>>::empty());
        node
    }

    /// Lists `neighbor_id` as a neighbour, unless it is the node's own id or
    /// is listed already.
    pub fn add_neighbor(&mut self, neighbor_id: &str)
        ensures
            final(self)@ == old(self)@.add_neighbor(neighbor_id@),
    {
        let neighbor = neighbor_id.to_owned();
        if neighbor == self.id {
            return ;
        }
        if !contains_id(&self.neighbors, neighbor_id) {
            proof {
                lemma_ids_push(self.neighbors@, neighbor);
            }
            self.neighbors.push(neighbor);
        }
    }

    /// Whether `neighbor_id` is listed as a neighbour.
    pub fn is_neighbor(&self, neighbor_id: &str) -> (listed: bool)
        ensures
            listed == self@.is_neighbor(neighbor_id@),
    {
        contains_id(&self.neighbors, neighbor_id)
    }
}

} // verus!
