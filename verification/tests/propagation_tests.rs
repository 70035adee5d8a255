use eco_weave::keys::verifying_key_for;
use eco_weave::network::gossip_protocol::{Gossip, GossipProtocol, GOSSIP_FANOUT};
use eco_weave::propagation::Flood;
use eco_weave::{Tangle, Transaction};
use ed25519_dalek::SigningKey;
use rand::rngs::OsRng;

fn secret(seed: u8) -> [u8; 32] {
    [seed; 32]
}

fn signed(id: &str, seed: u8, timestamp: u64) -> Transaction {
    let mut tx = Transaction::new_at(id, "payload", timestamp, 1).unwrap();
    tx.sign(&secret(seed));
    tx
}

fn chain(length: usize) -> Tangle {
    let mut tangle = Tangle::new();
    for i in 0..length {
        assert!(tangle.add_node(&format!("n{}", i), verifying_key_for(&secret(i as u8))));
    }
    for i in 1..length {
        assert!(tangle.connect_nodes(&format!("n{}", i - 1), &format!("n{}", i)));
    }
    tangle
}

#[test]
fn test_gossip_propagation() {
    let mut tangle = Tangle::new();

    for i in 0..5 {
        let keypair = SigningKey::generate(&mut OsRng);
        tangle.add_node(&format!("node_{}", i), keypair.verifying_key().to_bytes());
    }

    for i in 0..5 {
        for j in i + 1..5 {
            tangle.connect_nodes(&format!("node_{}", i), &format!("node_{}", j));
        }
    }
    println!("Neighbors of node_0: {:?}", tangle.get_neighbors("node_0"));
    assert_eq!(tangle.get_neighbors("node_0").len(), 4);

    let issuer = SigningKey::generate(&mut OsRng);
    tangle.add_node("tx-gossip", issuer.verifying_key().to_bytes());
    let mut transaction = Transaction::new("tx-gossip", "test-payload").unwrap();
    transaction.sign(&issuer.to_bytes());

    tangle.add_transaction(transaction.clone());

    let mut gossip = GossipProtocol::new(tangle);
    gossip.propagate_transaction(transaction.clone(), "node_0");

    assert!(
        gossip.tangle.transactions.contains_key(&transaction.id),
        "Transaction {} was not propagated!",
        transaction.id
    );
    assert_eq!(gossip.tangle.transactions.len(), 1);
}

#[test]
fn a_flood_along_a_chain_reaches_every_node() {
    for length in 1..8usize {
        let mut tangle = chain(length);
        let tx = signed("n0", 0, 1);
        assert_eq!(tangle.propagate_transaction_at(tx.clone(), "n0", 5), length);
        assert_eq!(tangle.transactions.len(), 1);
        assert_eq!(tangle.order, vec!["n0"]);
        assert_eq!(tangle.transactions.get("n0"), Some(&tx));
    }
}

#[test]
fn a_flood_from_the_far_end_admits_under_the_issuer() {
    let mut tangle = chain(6);
    let tx = signed("n2", 2, 1);
    assert_eq!(tangle.propagate_transaction(tx, "n5"), 6);
    assert_eq!(tangle.order, vec!["n2"]);
}

#[test]
fn a_flood_from_an_unknown_node_does_nothing() {
    let mut tangle = chain(4);
    assert!(tangle.add_transaction_at(signed("n1", 1, 1), 5));
    let tx = signed("n0", 0, 1);
    assert_eq!(tangle.propagate_transaction(tx.clone(), "elsewhere"), 0);
    assert_eq!(tangle.propagate_transaction_at(tx, "", 5), 0);
    assert_eq!(tangle.transactions.len(), 1);
    assert_eq!(tangle.order, vec!["n1"]);
    assert!(!tangle.transactions.contains_key("n0"));
}

#[test]
fn a_flood_counts_the_nodes_it_reaches_not_the_admissions() {
    let mut tangle = chain(3);
    tangle.add_node("apart", [0u8; 32]);
    tangle.add_node("far", [0u8; 32]);
    tangle.connect_nodes("apart", "far");

    let unsigned = Transaction::new_at("n0", "payload", 1, 1).unwrap();
    assert_eq!(tangle.propagate_transaction_at(unsigned, "n1", 5), 3);
    assert_eq!(tangle.transactions.len(), 0);

    let early = signed("n0", 0, 9);
    assert_eq!(tangle.propagate_transaction_at(early, "n2", 5), 3);
    assert_eq!(tangle.transactions.len(), 0);

    let tx = signed("n0", 0, 1);
    assert_eq!(tangle.propagate_transaction_at(tx.clone(), "apart", 5), 2);
    assert_eq!(tangle.transactions.len(), 1);
    assert_eq!(tangle.propagate_transaction_at(tx, "n0", 5), 3);
    assert_eq!(tangle.transactions.len(), 1);
}

#[test]
fn a_flood_over_a_graph_with_cycles_visits_each_node_once() {
    let mut tangle = chain(5);
    tangle.connect_nodes("n4", "n0");
    tangle.connect_nodes("n1", "n3");
    tangle.add_node("alone", [0u8; 32]);
    assert_eq!(tangle.propagate_transaction_at(signed("n3", 3, 1), "n2", 5), 5);
    assert_eq!(tangle.propagate_transaction_at(signed("n3", 3, 1), "alone", 5), 1);
    assert_eq!(tangle.order, vec!["n3"]);
}

#[test]
fn the_steps_of_a_flood() {
    let mut tangle = chain(3);
    tangle.connect_nodes("n0", "n2");
    let tx = signed("n1", 1, 1);
    let mut flood = Flood::begin("n0");
    assert!(!flood.is_finished());
    assert_eq!(flood.reached(), 0);
    assert_eq!(flood.frontier, vec!["n0"]);

    assert_eq!(flood.advance(&mut tangle, &tx, 5), Some(2));
    assert_eq!(flood.reached(), 1);
    assert_eq!(flood.frontier, vec!["n1", "n2"]);
    assert!(tangle.transactions.contains_key("n1"));

    assert_eq!(flood.advance(&mut tangle, &tx, 5), Some(1));
    assert_eq!(flood.frontier, vec!["n1", "n1"]);
    assert_eq!(flood.reached(), 2);

    assert_eq!(flood.advance(&mut tangle, &tx, 5), Some(0));
    assert_eq!(flood.frontier, vec!["n1"]);
    assert_eq!(flood.reached(), 3);

    assert_eq!(flood.advance(&mut tangle, &tx, 5), Some(0));
    assert!(flood.is_finished());
    assert_eq!(flood.reached(), 3);

    assert_eq!(flood.advance(&mut tangle, &tx, 5), None);
    assert_eq!(flood.reached(), 3);
    assert_eq!(tangle.transactions.len(), 1);
}

#[test]
fn a_flood_step_skips_what_was_visited() {
    let mut tangle = chain(2);
    let tx = signed("n0", 0, 9);
    let mut flood = Flood::begin("n0");
    flood.frontier.push("n0".to_string());
    assert_eq!(flood.advance(&mut tangle, &tx, 5), Some(1));
    assert_eq!(flood.frontier, vec!["n0", "n1"]);
    assert_eq!(flood.advance(&mut tangle, &tx, 5), Some(0));
    assert_eq!(flood.advance(&mut tangle, &tx, 50), Some(0));
    assert!(flood.is_finished());
    assert_eq!(flood.reached(), 2);
    assert!(tangle.transactions.is_empty());
}

#[test]
fn gossip_admits_a_transaction_in_a_full_graph() {
    let mut tangle = Tangle::new();
    let mut keys = Vec::new();
    for i in 0..5 {
        let keypair = SigningKey::generate(&mut OsRng);
        tangle.add_node(&format!("node-{}", i), keypair.verifying_key().to_bytes());
        keys.push(keypair);
    }
    for i in 0..5 {
        for j in i + 1..5 {
            tangle.connect_nodes(&format!("node-{}", i), &format!("node-{}", j));
        }
    }
    let mut transaction = Transaction::new("node-3", "test-payload").unwrap();
    transaction.sign(&keys[3].to_bytes());

    let mut gossip = GossipProtocol::new(tangle);
    gossip.propagate_transaction(transaction.clone(), "node-0");
    assert_eq!(gossip.tangle.order, vec!["node-3"]);
    assert_eq!(gossip.tangle.transactions.get("node-3"), Some(&transaction));
    gossip.propagate_transaction(transaction, "node-1");
    assert_eq!(gossip.tangle.transactions.len(), 1);
}

#[test]
fn gossip_admits_even_from_an_origin_without_neighbours() {
    let mut tangle = chain(1);
    tangle.add_node("alone", [0u8; 32]);
    let mut gossip = GossipProtocol::new(tangle);
    gossip.propagate_transaction_at(signed("n0", 0, 1), "alone", 5);
    assert_eq!(gossip.tangle.order, vec!["n0"]);
    gossip.propagate_transaction_at(signed("n0", 0, 1), "nowhere", 5);
    assert_eq!(gossip.tangle.transactions.len(), 1);
}

#[test]
fn gossip_leaves_a_rejected_transaction_out() {
    let mut gossip = GossipProtocol::new(chain(4));
    gossip.propagate_transaction_at(signed("n0", 1, 1), "n0", 5);
    gossip.propagate_transaction_at(signed("n0", 0, 6), "n0", 5);
    gossip.propagate_transaction_at(signed("zz", 0, 1), "n0", 5);
    assert!(gossip.tangle.transactions.is_empty());
    assert_eq!(gossip.tangle.nodes.len(), 4);
}

#[test]
fn a_gossip_step_chooses_at_most_the_fanout() {
    let mut tangle = Tangle::new();
    let spokes = ["s0", "s1", "s2", "s3", "s4"];
    tangle.add_node("hub", verifying_key_for(&secret(0)));
    for id in spokes {
        tangle.add_node(id, [0u8; 32]);
        tangle.connect_nodes("hub", id);
    }
    let tx = signed("hub", 0, 1);
    for _ in 0..40 {
        let mut gossip = Gossip::begin("hub");
        assert_eq!(gossip.advance(&mut tangle, &tx, 5), Some(GOSSIP_FANOUT));
        assert_eq!(gossip.frontier.len(), GOSSIP_FANOUT);
        assert_ne!(gossip.frontier[0], gossip.frontier[1]);
        for id in &gossip.frontier {
            assert!(spokes.contains(&id.as_str()));
        }
        assert!(gossip.visited.contains("hub"));
    }
    assert_eq!(tangle.order, vec!["hub"]);
}

#[test]
fn a_gossip_step_chooses_all_of_few_neighbours() {
    let mut tangle = chain(2);
    let tx = signed("n0", 0, 1);
    let mut gossip = Gossip::begin("n0");
    assert_eq!(gossip.advance(&mut tangle, &tx, 5), Some(1));
    assert_eq!(gossip.frontier, vec!["n1"]);
    assert_eq!(gossip.advance(&mut tangle, &tx, 5), Some(0));
    assert!(gossip.is_finished());
    assert_eq!(gossip.advance(&mut tangle, &tx, 5), None);
}

#[test]
fn a_gossip_step_with_a_given_choice() {
    let mut tangle = chain(4);
    tangle.connect_nodes("n0", "n2");
    tangle.connect_nodes("n0", "n3");
    let tx = signed("n0", 0, 1);
    let mut gossip = Gossip::begin("n0");
    let picked = vec!["n3".to_string(), "n1".to_string()];
    assert_eq!(gossip.advance_with(&mut tangle, &tx, 5, &picked), Some(2));
    assert_eq!(gossip.frontier, vec!["n3", "n1"]);
    assert_eq!(tangle.order, vec!["n0"]);

    let back = vec!["n0".to_string(), "n2".to_string()];
    assert_eq!(gossip.advance_with(&mut tangle, &tx, 5, &back), Some(1));
    assert_eq!(gossip.frontier, vec!["n3", "n2"]);

    gossip.frontier.push("n1".to_string());
    assert_eq!(gossip.advance_with(&mut tangle, &tx, 5, &picked), Some(0));
    assert_eq!(gossip.frontier, vec!["n3", "n2"]);
    assert_eq!(tangle.transactions.len(), 1);
}
