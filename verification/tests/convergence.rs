//! Running to convergence: the two worked scenarios, idempotence on a
//! stable world, per-round cost monotonicity, and the standing invariants.

use dvr::DVValue;
use dvr::NewState;
use dvr::Operation;
use dvr::World;
use dvr::run_until_stable;

fn names(list: &[&str]) -> Vec<String> {
    list.iter().map(|s| s.to_string()).collect()
}

fn op(w: &World<u32>, a: &str, b: &str, weight: u32) -> Operation<u32> {
    w.add_interface(&a.to_string(), &b.to_string(), weight)
        .expect("both names are registered")
}

/// The cost a table entry stands for, as a plain number (`None` for an
/// unreachable destination; the self-entry counts as zero).
fn cost(w: &World<u32>, a: usize, b: usize) -> Option<u32> {
    match &w.nodes[a].dv[b] {
        DVValue::SameNode => Some(0),
        DVValue::DirectDistance(c) => Some(*c),
        DVValue::Distance(c, _) => Some(*c),
        DVValue::Infinity => None,
    }
}

/// Scenario A: 4 nodes, edges A-B=2, B-C=7, C-D=4, A-D=8, B-D=9.
fn scenario_a() -> World<u32> {
    let w: World<u32> = World::new(names(&["A", "B", "C", "D"]));
    let init = w.apply_operations(vec![
        op(&w, "A", "B", 2),
        op(&w, "B", "C", 7),
        op(&w, "C", "D", 4),
        op(&w, "A", "D", 8),
        op(&w, "B", "D", 9),
    ]);
    run_until_stable(init, 32).expect("the scenario converges")
}

#[test]
fn scenario_a_shortest_costs() {
    let stable = scenario_a();
    // the direct A-D edge beats 2+9 via B-D and 2+7+4 via B-C-D
    assert_eq!(cost(&stable, 0, 3), Some(8));
    assert_eq!(cost(&stable, 0, 1), Some(2));
    assert_eq!(cost(&stable, 0, 2), Some(9));
    assert_eq!(cost(&stable, 1, 2), Some(7));
    assert_eq!(cost(&stable, 1, 3), Some(9));
    assert_eq!(cost(&stable, 2, 3), Some(4));
    // the table is symmetric here, since every edge is
    for a in 0..4 {
        for b in 0..4 {
            assert_eq!(cost(&stable, a, b), cost(&stable, b, a));
        }
    }
}

#[test]
fn scenario_a_converges_within_node_count_rounds() {
    let stable = scenario_a();
    // one changed round and the final unchanged round: well within the
    // V-1 bound for a fresh start
    assert_eq!(stable.generation, 2);
}

#[test]
fn scenario_b_reweight_and_reconverge() {
    let stable = scenario_a();
    let reseeded = stable.apply_operations(vec![op(&stable, "B", "D", 80)]);
    let stable2 = run_until_stable(reseeded, 32).expect("the scenario reconverges");
    // A→D is unaffected: the direct edge is still optimal
    assert_eq!(cost(&stable2, 0, 3), Some(8));
    // B→D leaves the re-weighted direct edge (80): the best route is now
    // via A (2+8=10), ahead of via C (7+4=11)
    assert_eq!(cost(&stable2, 1, 3), Some(10));
    match &stable2.nodes[1].dv[3] {
        DVValue::Distance(c, via) => {
            assert_eq!(*c, 10);
            assert_eq!(*via, 0);
        }
        _ => panic!("expected a via-neighbor entry for B→D"),
    }
    // the rest of the table is untouched
    assert_eq!(cost(&stable2, 0, 1), Some(2));
    assert_eq!(cost(&stable2, 0, 2), Some(9));
    assert_eq!(cost(&stable2, 1, 2), Some(7));
    assert_eq!(cost(&stable2, 2, 3), Some(4));
}

#[test]
fn stable_world_is_idempotent() {
    let stable = scenario_a();
    let generation = stable.generation;
    // one more round changes nothing
    let (state, _changed, _trace) = stable.run_simulation();
    assert!(matches!(state, NewState::NotChanged));
    // and invoking convergence again yields zero further rounds: only the
    // generation advances, every entry keeps its cost
    let costs: Vec<Vec<Option<u32>>> = (0..4)
        .map(|a| (0..4).map(|b| cost(&stable, a, b)).collect())
        .collect();
    let again = run_until_stable(stable, 32).expect("already stable");
    assert_eq!(again.generation, generation + 1);
    for a in 0..4 {
        for b in 0..4 {
            assert_eq!(cost(&again, a, b), costs[a][b]);
        }
    }
}

#[test]
fn round_budget_bounds_the_driver() {
    // a fresh seeded pair is already cost-stable: the relaxation confirms
    // the seeds at equal cost, so even a zero budget succeeds
    let w: World<u32> = World::new(names(&["A", "B"]));
    let init = w.apply_operations(vec![op(&w, "A", "B", 2)]);
    assert!(run_until_stable(init, 0).is_some());
    // a line of three still has distances to discover: with no changed
    // round allowed the driver gives up, with one it converges
    let w: World<u32> = World::new(names(&["A", "B", "C"]));
    let ops = vec![op(&w, "A", "B", 1), op(&w, "B", "C", 1)];
    let init = w.apply_operations(ops);
    assert!(run_until_stable(init, 0).is_none());
    let w: World<u32> = World::new(names(&["A", "B", "C"]));
    let ops = vec![op(&w, "A", "B", 1), op(&w, "B", "C", 1)];
    let init = w.apply_operations(ops);
    let stable = run_until_stable(init, 8).expect("the line converges");
    assert_eq!(cost(&stable, 0, 2), Some(2));
}

#[test]
fn self_entry_in_every_round() {
    let w: World<u32> = World::new(names(&["A", "B", "C", "D"]));
    let mut cur = w.apply_operations(vec![
        op(&w, "A", "B", 2),
        op(&w, "B", "C", 7),
        op(&w, "C", "D", 4),
        op(&w, "A", "D", 8),
        op(&w, "B", "D", 9),
    ]);
    for _ in 0..8 {
        for i in 0..4 {
            assert!(matches!(cur.nodes[i].dv[i], DVValue::SameNode));
        }
        let (state, _changed, _trace) = cur.run_simulation();
        match state {
            NewState::Changed(next) => cur = next,
            NewState::NotChanged => break,
        }
    }
}

#[test]
fn edges_stay_symmetric_in_every_round() {
    let w: World<u32> = World::new(names(&["A", "B", "C", "D"]));
    let mut cur = w.apply_operations(vec![
        op(&w, "A", "B", 2),
        op(&w, "B", "C", 7),
        op(&w, "C", "D", 4),
        op(&w, "A", "D", 8),
        op(&w, "B", "D", 9),
    ]);
    for _ in 0..8 {
        for i in 0..4 {
            for nb in &cur.nodes[i].neighbors {
                let back = cur.nodes[nb.index]
                    .neighbors
                    .iter()
                    .find(|other| other.index == i)
                    .expect("the reverse edge is recorded");
                assert_eq!(back.direct_cost, nb.direct_cost);
            }
        }
        let (state, _changed, _trace) = cur.run_simulation();
        match state {
            NewState::Changed(next) => cur = next,
            NewState::NotChanged => break,
        }
    }
}

#[test]
fn costs_nonincreasing_across_rounds_from_fresh_start() {
    let w: World<u32> = World::new(names(&["A", "B", "C", "D", "E", "F", "G", "H"]));
    let mut cur = w.apply_operations(vec![
        op(&w, "A", "D", 3),
        op(&w, "A", "G", 1),
        op(&w, "B", "E", 2),
        op(&w, "B", "H", 1),
        op(&w, "C", "D", 1),
        op(&w, "C", "F", 2),
        op(&w, "D", "G", 6),
        op(&w, "D", "F", 5),
        op(&w, "E", "F", 1),
        op(&w, "E", "H", 3),
        op(&w, "F", "H", 8),
    ]);
    for _ in 0..32 {
        let before: Vec<Vec<Option<u32>>> = (0..8)
            .map(|a| (0..8).map(|b| cost(&cur, a, b)).collect())
            .collect();
        let (state, _changed, _trace) = cur.run_simulation();
        match state {
            NewState::Changed(next) => {
                for a in 0..8 {
                    for b in 0..8 {
                        match (cost(&next, a, b), before[a][b]) {
                            (None, Some(_)) => panic!("a cost became infinite"),
                            (Some(new), Some(old)) => assert!(new <= old),
                            _ => {}
                        }
                    }
                }
                cur = next;
            }
            NewState::NotChanged => return,
        }
    }
    panic!("the example should have converged");
}

#[test]
fn larger_example_and_reweight() {
    let w: World<u32> = World::new(names(&["A", "B", "C", "D", "E", "F", "G", "H"]));
    let init = w.apply_operations(vec![
        op(&w, "A", "D", 3),
        op(&w, "A", "G", 1),
        op(&w, "B", "E", 2),
        op(&w, "B", "H", 1),
        op(&w, "C", "D", 1),
        op(&w, "C", "F", 2),
        op(&w, "D", "G", 6),
        op(&w, "D", "F", 5),
        op(&w, "E", "F", 1),
        op(&w, "E", "H", 3),
        op(&w, "F", "H", 8),
    ]);
    let stable = run_until_stable(init, 64).expect("the example converges");
    assert_eq!(cost(&stable, 0, 2), Some(4)); // A-D-C
    assert_eq!(cost(&stable, 0, 5), Some(6)); // A-D-C-F
    assert_eq!(cost(&stable, 0, 4), Some(7)); // A-D-C-F-E
    assert_eq!(cost(&stable, 0, 7), Some(10)); // via E or B
    let reseeded = stable.apply_operations(vec![op(&stable, "C", "F", 30)]);
    let stable2 = run_until_stable(reseeded, 64).expect("the example reconverges");
    assert_eq!(cost(&stable2, 0, 5), Some(8)); // A-D-F once C-F is costly
    assert_eq!(cost(&stable2, 0, 4), Some(9)); // A-D-F-E
    assert_eq!(cost(&stable2, 0, 2), Some(4)); // A-D-C unaffected
}

#[test]
fn convergence_fits_the_classical_round_bound() {
    // for V nodes from a fresh start, max(V-2, 0) changed rounds suffice
    let w: World<u32> = World::new(names(&["A", "B", "C", "D"]));
    let init = w.apply_operations(vec![
        op(&w, "A", "B", 2),
        op(&w, "B", "C", 7),
        op(&w, "C", "D", 4),
        op(&w, "A", "D", 8),
        op(&w, "B", "D", 9),
    ]);
    assert!(run_until_stable(init, 2).is_some());
    let w: World<u32> = World::new(names(&["A", "B", "C", "D", "E", "F", "G", "H"]));
    let init = w.apply_operations(vec![
        op(&w, "A", "D", 3),
        op(&w, "A", "G", 1),
        op(&w, "B", "E", 2),
        op(&w, "B", "H", 1),
        op(&w, "C", "D", 1),
        op(&w, "C", "F", 2),
        op(&w, "D", "G", 6),
        op(&w, "D", "F", 5),
        op(&w, "E", "F", 1),
        op(&w, "E", "H", 3),
        op(&w, "F", "H", 8),
    ]);
    assert!(run_until_stable(init, 6).is_some());
}
