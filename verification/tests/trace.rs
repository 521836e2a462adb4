//! The explanation trace: one line per relaxed, non-self destination, one
//! candidate per neighbor, and a winner whose summed cost is the new
//! entry's cost.

use dvr::Cost;
use dvr::DVValue;
use dvr::DistanceCalculationElement;
use dvr::HtmlFormula;
use dvr::NewState;
use dvr::Operation;
use dvr::World;

fn names(list: &[&str]) -> Vec<String> {
    list.iter().map(|s| s.to_string()).collect()
}

fn op(w: &World<u32>, a: &str, b: &str, weight: u32) -> Operation<u32> {
    w.add_interface(&a.to_string(), &b.to_string(), weight)
        .expect("both names are registered")
}

fn entry_cost(v: &DVValue<u32>) -> Cost<u32> {
    v.cost()
}

#[test]
fn formula_records_terms_and_sums() {
    let mut formula: HtmlFormula<u32> = HtmlFormula::new(3, 0);
    assert_eq!(formula.get_target(), 3);
    assert_eq!(formula.get_source(), 0);
    // the direct candidate to node 3, then an indirect one through node 1
    formula.add_direct(3, 0, 8);
    formula.add_indirect(1, 0, 2, 3, 1, Cost::Value(9));
    let members = formula.get_members();
    assert_eq!(members.len(), 2);
    assert_eq!(
        members[0].description,
        vec![DistanceCalculationElement::DirectDistance(3, 0)]
    );
    assert!(members[0].direct);
    assert_eq!(members[0].through, 3);
    assert!(members[0].sum().cost_eq(&Cost::Value(8)));
    assert_eq!(
        members[1].description,
        vec![
            DistanceCalculationElement::DirectDistance(1, 0),
            DistanceCalculationElement::DistanceVector(3, 1),
        ]
    );
    assert!(!members[1].direct);
    assert_eq!(members[1].through, 1);
    assert!(members[1].sum().cost_eq(&Cost::Value(11)));
    // the direct candidate wins
    assert_eq!(formula.min_index(), 0);
    assert!(formula.min_cost().cost_eq(&Cost::Value(8)));
    assert!(matches!(formula.min_vector(), DVValue::DirectDistance(8)));
}

#[test]
fn formula_first_enumerated_wins_ties() {
    let mut formula: HtmlFormula<u32> = HtmlFormula::new(2, 0);
    formula.add_indirect(1, 0, 3, 2, 1, Cost::Value(4));
    formula.add_indirect(3, 0, 2, 2, 3, Cost::Value(5));
    // both candidates sum to 7; the first enumerated wins
    assert_eq!(formula.min_index(), 0);
    match formula.min_vector() {
        DVValue::Distance(c, via) => {
            assert_eq!(c, 7);
            assert_eq!(via, 1);
        }
        _ => panic!("expected a via-neighbor entry"),
    }
}

#[test]
fn formula_infinite_advertisement_absorbs() {
    let mut formula: HtmlFormula<u32> = HtmlFormula::new(2, 0);
    formula.add_indirect(1, 0, 3, 2, 1, Cost::Infinity);
    assert!(formula.min_cost().cost_eq(&Cost::Infinity));
    assert!(matches!(formula.min_vector(), DVValue::Infinity));
    let members = formula.get_members();
    assert!(members[0].sum_dv().cost_eq(&DVValue::Infinity));
}

#[test]
fn round_trace_is_complete() {
    let w: World<u32> = World::new(names(&["A", "B", "C", "D"]));
    let init = w.apply_operations(vec![
        op(&w, "A", "B", 2),
        op(&w, "B", "C", 7),
        op(&w, "C", "D", 4),
        op(&w, "A", "D", 8),
        op(&w, "B", "D", 9),
    ]);
    let (state, changed, trace) = init.run_simulation();
    let next = match state {
        NewState::Changed(next) => next,
        NewState::NotChanged => panic!("the first round changes costs"),
    };
    // the changed-node set: A and C discover two-hop routes this round,
    // B and D already hold every seeded cost
    assert_eq!(changed, vec![true, false, true, false]);
    // every node is pending, so the trace holds one line per node and
    // non-self destination, in node order then destination order
    assert_eq!(trace.len(), 4 * 3);
    let mut at: usize = 0;
    for source in 0..4usize {
        for target in 0..4usize {
            if target == source {
                continue;
            }
            let line = &trace[at];
            at += 1;
            assert_eq!(line.get_source(), source);
            assert_eq!(line.get_target(), target);
            // exactly one candidate per neighbor, in ascending order; the
            // direct-edge candidate occupies its neighbor's position
            let neighbors = &init.nodes[source].neighbors;
            let members = line.get_members();
            assert_eq!(members.len(), neighbors.len());
            for (k, member) in members.iter().enumerate() {
                assert_eq!(member.through, neighbors[k].index);
                assert_eq!(member.direct, neighbors[k].index == target);
                assert_eq!(
                    member.description.len(),
                    if member.direct { 1 } else { 2 }
                );
                assert_eq!(member.result.len(), member.description.len());
            }
            // the winner's summed cost is the new entry's cost
            let new_entry = &next.nodes[source].dv[target];
            assert!(line.min_cost().cost_eq(&entry_cost(new_entry)));
        }
    }
}

#[test]
fn unrelaxed_nodes_contribute_no_lines() {
    let w: World<u32> = World::new(names(&["A", "B", "C", "D"]));
    let w1 = w.apply_operations(vec![op(&w, "A", "B", 2)]);
    // only A and B are pending; C and D contribute nothing
    let (_state, _changed, trace) = w1.run_simulation();
    assert_eq!(trace.len(), 2 * 3);
    for line in &trace {
        assert!(line.get_source() < 2);
    }
}
