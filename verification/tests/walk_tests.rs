use eco_weave::keys::verifying_key_for;
use eco_weave::propagation::Flood;
use eco_weave::walk::{select_by_weight, total_of};
use eco_weave::{Tangle, Transaction};

fn weighted(tangle: &mut Tangle, id: &str, seed: u8, weight: u32) {
    let secret = [seed; 32];
    tangle.add_node(id, verifying_key_for(&secret));
    let mut tx = Transaction::new_at(id, "payload", 1, 1).unwrap();
    tx.weight = weight;
    tx.sign(&secret);
    assert!(tangle.add_transaction_at(tx, 5));
}

fn candidates(weights: &[u32]) -> Vec<(String, u32)> {
    weights.iter().enumerate().map(|(i, w)| (format!("c{}", i), *w)).collect()
}

#[test]
fn an_isolated_transaction_is_its_own_tip() {
    let mut tangle = Tangle::new();
    weighted(&mut tangle, "iso1", 0, 3);
    assert_eq!(tangle.weighted_random_walk("iso1"), Some("iso1".to_string()));
}

#[test]
fn a_walk_from_an_id_without_transaction_stays_there() {
    let mut tangle = Tangle::new();
    assert_eq!(tangle.weighted_random_walk("nowhere"), Some("nowhere".to_string()));
    tangle.add_node("a", [0u8; 32]);
    weighted(&mut tangle, "b", 1, 9);
    tangle.connect_nodes("a", "b");
    assert_eq!(tangle.weighted_random_walk("a"), Some("a".to_string()));
}

#[test]
fn neighbours_without_transaction_are_no_candidates() {
    let mut tangle = Tangle::new();
    weighted(&mut tangle, "a", 0, 1);
    tangle.add_node("b", [0u8; 32]);
    tangle.connect_nodes("a", "b");
    assert_eq!(tangle.weighted_random_walk("a"), Some("a".to_string()));
}

#[test]
fn a_walk_halts_where_all_weights_are_zero() {
    let mut tangle = Tangle::new();
    weighted(&mut tangle, "a", 0, 7);
    weighted(&mut tangle, "b", 1, 0);
    weighted(&mut tangle, "c", 2, 0);
    tangle.connect_nodes("a", "b");
    tangle.connect_nodes("a", "c");
    for _ in 0..50 {
        assert_eq!(tangle.weighted_random_walk("a"), Some("a".to_string()));
    }
}

#[test]
fn a_walk_never_steps_to_weight_zero() {
    let mut tangle = Tangle::new();
    weighted(&mut tangle, "a", 0, 7);
    weighted(&mut tangle, "b", 1, 0);
    weighted(&mut tangle, "c", 2, 4);
    tangle.connect_nodes("a", "b");
    tangle.connect_nodes("a", "c");
    for _ in 0..50 {
        assert_eq!(tangle.weighted_random_walk("a"), Some("c".to_string()));
    }
}

#[test]
fn two_nodes_heavier_neighbour_is_selected() {
    let mut tangle = Tangle::new();
    weighted(&mut tangle, "A", 0, 10);
    weighted(&mut tangle, "B", 1, 20);
    tangle.connect_nodes("A", "B");
    let mut a_count = 0;
    let mut b_count = 0;
    for _ in 0..300 {
        match tangle.weighted_random_walk("A").unwrap().as_str() {
            "A" => a_count += 1,
            "B" => b_count += 1,
            other => panic!("walk left the graph: {}", other),
        }
    }
    assert!(b_count >= 2 * a_count);
    assert_eq!(b_count, 300);
}

#[test]
fn steps_follow_the_weights() {
    let mut tangle = Tangle::new();
    weighted(&mut tangle, "s", 0, 1);
    weighted(&mut tangle, "light", 1, 10);
    weighted(&mut tangle, "heavy", 2, 20);
    tangle.connect_nodes("s", "light");
    tangle.connect_nodes("s", "heavy");
    let mut light = 0u32;
    let mut heavy = 0u32;
    for _ in 0..3000 {
        match tangle.weighted_random_walk("s").unwrap().as_str() {
            "light" => light += 1,
            "heavy" => heavy += 1,
            other => panic!("walk ended at {}", other),
        }
    }
    assert_eq!(light + heavy, 3000);
    assert!(heavy > 1700 && heavy < 2300, "heavy was selected {} times", heavy);
}

#[test]
fn a_walk_on_a_cycle_ends() {
    let mut tangle = Tangle::new();
    let ids = ["r0", "r1", "r2", "r3", "r4", "r5"];
    for (seed, id) in ids.iter().enumerate() {
        weighted(&mut tangle, id, seed as u8, 5);
    }
    for i in 0..ids.len() {
        tangle.connect_nodes(ids[i], ids[(i + 1) % ids.len()]);
    }
    for _ in 0..20 {
        let tip = tangle.weighted_random_walk("r0").unwrap();
        assert!(tip == "r1" || tip == "r5", "a walk round the ring ended at {}", tip);
    }
}

#[test]
fn candidates_are_the_admitted_unvisited_neighbours() {
    let mut tangle = Tangle::new();
    weighted(&mut tangle, "a", 0, 1);
    weighted(&mut tangle, "b", 1, 2);
    weighted(&mut tangle, "c", 2, 3);
    weighted(&mut tangle, "d", 3, 0);
    tangle.add_node("e", [0u8; 32]);
    for other in ["b", "c", "d", "e"] {
        tangle.connect_nodes("a", other);
    }
    let mut visited = Flood::begin("a").visited;
    assert!(visited.is_empty());
    visited.insert("a".to_string());
    visited.insert("c".to_string());
    assert_eq!(
        tangle.walk_candidates("a", &visited),
        vec![("b".to_string(), 2), ("d".to_string(), 0)]
    );
    assert!(tangle.walk_candidates("e", &visited).is_empty());
    assert!(tangle.walk_candidates("unknown", &visited).is_empty());
}

#[test]
fn total_weight_of_candidates() {
    assert_eq!(total_of(&candidates(&[])), 0);
    assert_eq!(total_of(&candidates(&[0, 0])), 0);
    assert_eq!(total_of(&candidates(&[10, 20, 5])), 35);
    assert_eq!(total_of(&candidates(&[u32::MAX, u32::MAX, 1])), 2 * (u32::MAX as u128) + 1);
}

#[test]
fn a_draw_selects_the_first_candidate_whose_running_total_exceeds_it() {
    let list = candidates(&[10, 0, 20, 5]);
    assert_eq!(select_by_weight(&list, 0), Some(0));
    assert_eq!(select_by_weight(&list, 9), Some(0));
    assert_eq!(select_by_weight(&list, 10), Some(2));
    assert_eq!(select_by_weight(&list, 29), Some(2));
    assert_eq!(select_by_weight(&list, 30), Some(3));
    assert_eq!(select_by_weight(&list, 34), Some(3));
    assert_eq!(select_by_weight(&list, 35), None);
    assert_eq!(select_by_weight(&list, u128::MAX), None);
    assert_eq!(select_by_weight(&candidates(&[]), 0), None);
    assert_eq!(select_by_weight(&candidates(&[0, 0]), 0), None);
    assert_eq!(select_by_weight(&candidates(&[0, 1]), 0), Some(1));
}
