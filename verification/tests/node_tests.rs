use eco_weave::Node;
use ed25519_dalek::SigningKey;

#[test]
fn test_node_creation() {
    let signing_key = SigningKey::generate(&mut rand::rngs::OsRng);
    let verifying_key = signing_key.verifying_key();

    let node = Node::new("node1", verifying_key.to_bytes());

    assert_eq!(node.id, "node1");
    assert!(node.neighbors.is_empty());
}

#[test]
fn test_add_neighbor() {
    let signing_key = SigningKey::generate(&mut rand::rngs::OsRng);
    let verifying_key = signing_key.verifying_key();

    let mut node = Node::new("node1", verifying_key.to_bytes());

    node.add_neighbor("node2");

    assert_eq!(node.neighbors.len(), 1);
    assert!(node.is_neighbor("node2"));
}

#[test]
fn test_no_duplicate_neighbors() {
    let signing_key = SigningKey::generate(&mut rand::rngs::OsRng);
    let verifying_key = signing_key.verifying_key();

    let mut node = Node::new("node1", verifying_key.to_bytes());

    node.add_neighbor("node2");
    node.add_neighbor("node2");

    assert_eq!(node.neighbors.len(), 1);
}

#[test]
fn test_is_neighbor() {
    let signing_key = SigningKey::generate(&mut rand::rngs::OsRng);
    let verifying_key = signing_key.verifying_key();

    let mut node = Node::new("node1", verifying_key.to_bytes());

    node.add_neighbor("node2");

    assert!(node.is_neighbor("node2"));
    assert!(!node.is_neighbor("node3"));
}

#[test]
fn test_node_verifying_key() {
    let signing_key = SigningKey::generate(&mut rand::rngs::OsRng);
    let verifying_key = signing_key.verifying_key();

    let node = Node::new("node1", verifying_key.to_bytes());

    assert_eq!(node.verifying_key, verifying_key.to_bytes());
}

#[test]
fn test_add_multiple_neighbors() {
    let signing_key = SigningKey::generate(&mut rand::rngs::OsRng);
    let verifying_key = signing_key.verifying_key();

    let mut node = Node::new("node1", verifying_key.to_bytes());

    node.add_neighbor("node2");
    node.add_neighbor("node3");

    assert_eq!(node.neighbors.len(), 2);
    assert!(node.is_neighbor("node2"));
    assert!(node.is_neighbor("node3"));
}

#[test]
fn test_node_invalid_id() {
    let signing_key = SigningKey::generate(&mut rand::rngs::OsRng);
    let verifying_key = signing_key.verifying_key();

    let node = Node::new("", verifying_key.to_bytes());

    assert_eq!(node.id, "");
}

#[test]
fn test_node_prevent_self_neighbor() {
    let signing_key = SigningKey::generate(&mut rand::rngs::OsRng);
    let verifying_key = signing_key.verifying_key();

    let mut node = Node::new("node1", verifying_key.to_bytes());

    node.add_neighbor("node1");

    assert_eq!(node.neighbors.len(), 0);
    assert!(!node.is_neighbor("node1"));
}

#[test]
fn neighbors_keep_the_order_in_which_they_came() {
    let mut node = Node::new("n", [0u8; 32]);
    for id in ["c", "a", "n", "b", "a", "c"] {
        node.add_neighbor(id);
    }
    assert_eq!(node.neighbors, vec!["c", "a", "b"]);
}

#[test]
fn a_copy_of_a_node_is_equal_and_independent() {
    let mut node = Node::new("n", [5u8; 32]);
    node.add_neighbor("a");
    let mut copy = node.clone();
    assert_eq!(copy.id, "n");
    assert_eq!(copy.neighbors, vec!["a"]);
    assert_eq!(copy.verifying_key, [5u8; 32]);
    copy.add_neighbor("b");
    assert_eq!(node.neighbors, vec!["a"]);
}
