//! Construction, name resolution, and mutation batches: seeding, symmetric
//! edges, and pending marks.

use dvr::DVValue;
use dvr::Operation;
use dvr::World;
use dvr::WorldError;
use dvr::modify_dv;

fn names(list: &[&str]) -> Vec<String> {
    list.iter().map(|s| s.to_string()).collect()
}

fn world(list: &[&str]) -> World<u32> {
    World::new(names(list))
}

fn op(w: &World<u32>, a: &str, b: &str, weight: u32) -> Operation<u32> {
    w.add_interface(&a.to_string(), &b.to_string(), weight)
        .expect("both names are registered")
}

/// The weight of the recorded edge from `a` to `b`, if any.
fn edge(w: &World<u32>, a: usize, b: usize) -> Option<u32> {
    for nb in &w.nodes[a].neighbors {
        if nb.index == b {
            return Some(nb.direct_cost);
        }
    }
    None
}

#[test]
fn new_world_is_fresh() {
    let w = world(&["A", "B", "C"]);
    assert_eq!(w.generation, 0);
    assert_eq!(w.nodes.len(), 3);
    let listed = w.node_names();
    assert_eq!(listed, vec!["A".to_string(), "B".to_string(), "C".to_string()]);
    for (i, node) in w.nodes.iter().enumerate() {
        assert_eq!(node.index, i);
        assert!(!node.has_updates);
        assert!(node.neighbors.is_empty());
        assert_eq!(node.dv.len(), 3);
        for (d, entry) in node.dv.iter().enumerate() {
            if d == i {
                assert!(matches!(entry, DVValue::SameNode));
            } else {
                assert!(matches!(entry, DVValue::Infinity));
            }
        }
    }
}

#[test]
fn find_node_returns_first_match() {
    let w = world(&["A", "B", "A"]);
    assert_eq!(w.find_node(&"A".to_string()), Some(0));
    assert_eq!(w.find_node(&"B".to_string()), Some(1));
    assert_eq!(w.find_node(&"C".to_string()), None);
}

#[test]
fn add_interface_resolves_names() {
    let w = world(&["A", "B", "C"]);
    match op(&w, "C", "A", 7) {
        Operation::ChangeWeight(a, b, weight) => {
            assert_eq!(a, 2);
            assert_eq!(b, 0);
            assert_eq!(weight, 7);
        }
    }
}

#[test]
fn add_interface_rejects_unregistered_names() {
    let w = world(&["A", "B"]);
    match w.add_interface(&"A".to_string(), &"X".to_string(), 1) {
        Err(e) => assert_eq!(e, WorldError::NotFound),
        Ok(_) => panic!("an unregistered name must be rejected"),
    }
    match w.add_interface(&"X".to_string(), &"B".to_string(), 1) {
        Err(e) => assert_eq!(e, WorldError::NotFound),
        Ok(_) => panic!("an unregistered name must be rejected"),
    }
}

#[test]
fn modify_dv_replaces_one_entry() {
    let original: Vec<DVValue<u32>> = vec![
        DVValue::SameNode,
        DVValue::Infinity,
        DVValue::DirectDistance(4),
    ];
    let out = modify_dv(&original, 1, &9);
    assert_eq!(out.len(), 3);
    assert!(matches!(out[0], DVValue::SameNode));
    match &out[1] {
        DVValue::Distance(w, via) => {
            assert_eq!(*w, 9);
            assert_eq!(*via, 1);
        }
        _ => panic!("expected the seeded entry"),
    }
    assert!(matches!(out[2], DVValue::DirectDistance(4)));
}

#[test]
fn apply_records_symmetric_edges() {
    let w = world(&["A", "B", "C"]);
    let ops = vec![op(&w, "A", "B", 2), op(&w, "B", "C", 7)];
    let w1 = w.apply_operations(ops);
    assert_eq!(edge(&w1, 0, 1), Some(2));
    assert_eq!(edge(&w1, 1, 0), Some(2));
    assert_eq!(edge(&w1, 1, 2), Some(7));
    assert_eq!(edge(&w1, 2, 1), Some(7));
    assert_eq!(edge(&w1, 0, 2), None);
    assert_eq!(edge(&w1, 2, 0), None);
    // mutation does not advance the generation counter
    assert_eq!(w1.generation, 0);
    // the original snapshot is untouched
    assert!(w.nodes[0].neighbors.is_empty());
}

#[test]
fn apply_reweights_existing_edge() {
    let w = world(&["A", "B"]);
    let w1 = w.apply_operations(vec![op(&w, "A", "B", 2)]);
    let w2 = w1.apply_operations(vec![op(&w1, "A", "B", 5)]);
    assert_eq!(edge(&w2, 0, 1), Some(5));
    assert_eq!(edge(&w2, 1, 0), Some(5));
    assert_eq!(w2.nodes[0].neighbors.len(), 1);
    assert_eq!(w2.nodes[1].neighbors.len(), 1);
}

#[test]
fn apply_keeps_neighbor_lists_sorted() {
    let w = world(&["A", "B", "C", "D"]);
    let ops = vec![
        op(&w, "A", "D", 3),
        op(&w, "A", "B", 1),
        op(&w, "A", "C", 2),
    ];
    let w1 = w.apply_operations(ops);
    let idx: Vec<usize> = w1.nodes[0].neighbors.iter().map(|nb| nb.index).collect();
    assert_eq!(idx, vec![1, 2, 3]);
}

#[test]
fn apply_seeds_endpoint_vectors() {
    let w = world(&["A", "B", "C"]);
    let w1 = w.apply_operations(vec![op(&w, "A", "B", 2)]);
    match &w1.nodes[0].dv[1] {
        DVValue::Distance(weight, via) => {
            assert_eq!(*weight, 2);
            assert_eq!(*via, 1);
        }
        _ => panic!("expected the seed in A's entry for B"),
    }
    match &w1.nodes[1].dv[0] {
        DVValue::Distance(weight, via) => {
            assert_eq!(*weight, 2);
            assert_eq!(*via, 0);
        }
        _ => panic!("expected the seed in B's entry for A"),
    }
    // untouched entries stay, and the diagonal stays the self-entry
    assert!(matches!(w1.nodes[0].dv[0], DVValue::SameNode));
    assert!(matches!(w1.nodes[0].dv[2], DVValue::Infinity));
    assert!(matches!(w1.nodes[2].dv[0], DVValue::Infinity));
}

#[test]
fn apply_marks_neighbors_of_endpoints_pending() {
    let w = world(&["A", "B", "C", "D"]);
    let w1 = w.apply_operations(vec![op(&w, "A", "B", 2), op(&w, "B", "C", 7)]);
    // a later batch touching only B-C leaves D unmarked but marks A,
    // a neighbor of endpoint B
    let w2 = w1.apply_operations(vec![w1
        .add_interface(&"B".to_string(), &"C".to_string(), 9)
        .unwrap()]);
    assert!(w2.nodes[0].has_updates);
    assert!(w2.nodes[1].has_updates);
    assert!(w2.nodes[2].has_updates);
    assert!(!w2.nodes[3].has_updates);
}

#[test]
fn reapplying_identical_weight_is_a_cost_no_op() {
    let w = world(&["A", "B", "C"]);
    let init = w.apply_operations(vec![op(&w, "A", "B", 2), op(&w, "B", "C", 7)]);
    let stable = dvr::run_until_stable(init, 16).expect("the line converges");
    // reapplying an operation with an identical weight marks nodes pending
    // but changes no cost: the next round finds nothing to do
    let reseeded = stable.apply_operations(vec![op(&stable, "A", "B", 2)]);
    assert!(reseeded.nodes[0].has_updates);
    assert!(reseeded.nodes[1].has_updates);
    let (state, changed, _trace) = reseeded.run_simulation();
    assert!(matches!(state, dvr::NewState::NotChanged));
    assert_eq!(changed, vec![false, false, false]);
}

#[test]
fn reapplying_identical_weight_keeps_a_relaxed_entry() {
    // A-B's direct edge costs 10, but the route via C costs 2; after
    // convergence A's entry for B sits below the direct weight
    let w = world(&["A", "B", "C"]);
    let init = w.apply_operations(vec![
        op(&w, "A", "B", 10),
        op(&w, "A", "C", 1),
        op(&w, "C", "B", 1),
    ]);
    let stable = dvr::run_until_stable(init, 16).expect("the triangle converges");
    match &stable.nodes[0].dv[1] {
        DVValue::Distance(c, via) => {
            assert_eq!(*c, 2);
            assert_eq!(*via, 2);
        }
        _ => panic!("expected A to route to B via C"),
    }
    // reapplying A-B at its recorded weight must not overwrite that entry
    let reseeded = stable.apply_operations(vec![op(&stable, "A", "B", 10)]);
    for i in 0..3 {
        assert_eq!(reseeded.nodes[i].dv.len(), stable.nodes[i].dv.len());
        for d in 0..3 {
            assert!(reseeded.nodes[i].dv[d].cost_eq(&stable.nodes[i].dv[d]));
        }
    }
    match &reseeded.nodes[0].dv[1] {
        DVValue::Distance(c, via) => {
            assert_eq!(*c, 2);
            assert_eq!(*via, 2);
        }
        _ => panic!("the relaxed entry must survive the reapplication"),
    }
    // the endpoints are still marked pending, and the round confirms the
    // fixed point
    assert!(reseeded.nodes[0].has_updates);
    assert!(reseeded.nodes[1].has_updates);
    let (state, changed, _trace) = reseeded.run_simulation();
    assert!(matches!(state, dvr::NewState::NotChanged));
    assert_eq!(changed, vec![false, false, false]);
}
