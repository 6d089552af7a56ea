use node_merge::aggregation::{build_aggregation_matrix, merged_node_count};
use node_merge::merge::NodeMerge;
use node_merge::switch::{
    decide, process_switch_state, Ohms, SkipReason, SkippedSwitch, Switch, SwitchBranch,
    SwitchEffect, SwitchState, SwitchType,
};
use std::collections::HashMap;

fn ohms(z: f64) -> Ohms {
    Ohms::from_bits(z.to_bits())
}

fn two_buses(bus: i64, element: i64, z: f64) -> Switch {
    Switch { bus, element, et: SwitchType::SwitchTwoBuses, z_ohm: ohms(z) }
}

fn table(pairs: &[(u64, u64)]) -> HashMap<u64, u64> {
    let mut m = HashMap::new();
    for &(k, v) in pairs {
        m.insert(k, v);
    }
    m
}

#[test]
fn zero_impedance_has_two_bit_patterns() {
    assert!(ohms(0.0).is_zero());
    assert!(ohms(-0.0).is_zero());
    assert!(!ohms(5.0).is_zero());
    assert!(!ohms(1e-300).is_zero());
    assert_eq!(Ohms::from_bits(7).bits, 7);
}

#[test]
fn decide_follows_the_table() {
    let uf = NodeMerge::new(&[1, 2, 3]);
    assert_eq!(decide(&uf, &two_buses(1, 2, 0.0), true), SwitchEffect::Merge(1, 2));
    assert_eq!(
        decide(&uf, &two_buses(1, 2, 2.5), true),
        SwitchEffect::Branch(1, 2, ohms(2.5))
    );
    assert_eq!(decide(&uf, &two_buses(1, 2, 0.0), false), SwitchEffect::Nothing);
    assert_eq!(decide(&uf, &two_buses(1, 2, 2.5), false), SwitchEffect::Nothing);
    assert_eq!(decide(&uf, &two_buses(1, 9, 0.0), false), SwitchEffect::Nothing);
    assert_eq!(
        decide(&uf, &two_buses(1, 9, 0.0), true),
        SwitchEffect::Skipped(SkipReason::UnknownNode)
    );
    assert_eq!(
        decide(&uf, &two_buses(-1, 2, 0.0), true),
        SwitchEffect::Skipped(SkipReason::UnknownNode)
    );
    assert_eq!(
        decide(&uf, &two_buses(1, -2, 3.0), true),
        SwitchEffect::Skipped(SkipReason::UnknownNode)
    );
    for et in [
        SwitchType::SwitchBusLine,
        SwitchType::SwitchBusTransformer,
        SwitchType::SwitchBusTransformer3w,
        SwitchType::Unknown,
    ] {
        for closed in [true, false] {
            let sw = Switch { bus: 1, element: 2, et, z_ohm: ohms(0.0) };
            assert_eq!(
                decide(&uf, &sw, closed),
                SwitchEffect::Skipped(SkipReason::UnsupportedType)
            );
        }
    }
}

#[test]
fn chain_merge_through_the_switches() {
    let nodes: Vec<u64> = vec![1, 2, 3, 4, 5, 6, 7];
    let switches = vec![
        (two_buses(2, 3, 0.0), SwitchState(true)),
        (two_buses(3, 4, 0.0), SwitchState(true)),
        (two_buses(5, 6, 0.0), SwitchState(false)),
        (two_buses(6, 7, 0.0), SwitchState(true)),
    ];
    let report = process_switch_state(&nodes, &switches);
    assert!(report.branches.is_empty());
    assert!(report.skipped.is_empty());
    let mapping = report.mapping.unwrap().0;
    assert_eq!(
        mapping,
        table(&[(1, 0), (2, 1), (3, 1), (4, 1), (5, 2), (6, 3), (7, 3)])
    );
}

#[test]
fn nonzero_impedance_gives_a_branch_and_no_merge() {
    let nodes: Vec<u64> = vec![10, 11];
    let switches = vec![(two_buses(10, 11, 5.0), SwitchState(true))];
    let report = process_switch_state(&nodes, &switches);
    assert_eq!(
        report.branches,
        vec![SwitchBranch { index: 0, from: 10, to: 11, z_ohm: ohms(5.0) }]
    );
    let z = f64::from_bits(report.branches[0].z_ohm.bits);
    assert_eq!(z, 5.0);
    assert_eq!(1.0 / z, 0.2);
    let mapping = report.mapping.unwrap().0;
    assert_ne!(mapping[&10], mapping[&11]);
    assert_eq!(mapping, table(&[(10, 0), (11, 1)]));
    let mut uf = NodeMerge::new(&nodes);
    assert_ne!(uf.find(10), uf.find(11));
}

#[test]
fn unsupported_switch_is_reported_and_the_rest_processed() {
    let nodes: Vec<u64> = vec![1, 2, 3, 4];
    let bus_line =
        Switch { bus: 1, element: 7, et: SwitchType::SwitchBusLine, z_ohm: ohms(0.0) };
    let switches = vec![
        (two_buses(1, 2, 0.0), SwitchState(true)),
        (bus_line, SwitchState(true)),
        (two_buses(3, 4, 1.5), SwitchState(true)),
        (two_buses(3, 9, 0.0), SwitchState(true)),
        (two_buses(2, 3, 0.0), SwitchState(true)),
    ];
    let report = process_switch_state(&nodes, &switches);
    assert_eq!(
        report.skipped,
        vec![
            SkippedSwitch { index: 1, reason: SkipReason::UnsupportedType },
            SkippedSwitch { index: 3, reason: SkipReason::UnknownNode },
        ]
    );
    assert_eq!(
        report.branches,
        vec![SwitchBranch { index: 2, from: 3, to: 4, z_ohm: ohms(1.5) }]
    );
    assert_eq!(
        report.mapping.unwrap().0,
        table(&[(1, 0), (2, 0), (3, 0), (4, 1)])
    );
}

#[test]
fn no_switches_no_mapping() {
    let nodes: Vec<u64> = vec![1, 2, 3];
    let report = process_switch_state(&nodes, &[]);
    assert!(report.mapping.is_none());
    assert!(report.branches.is_empty());
    assert!(report.skipped.is_empty());
}

#[test]
fn open_switches_give_the_identity_mapping() {
    let nodes: Vec<u64> = vec![30, 10, 20];
    let switches = vec![(two_buses(10, 20, 0.0), SwitchState(false))];
    let report = process_switch_state(&nodes, &switches);
    assert_eq!(
        report.mapping.unwrap().0,
        table(&[(10, 0), (20, 1), (30, 2)])
    );
}

#[test]
fn switches_without_nodes_give_an_empty_mapping() {
    let switches = vec![(two_buses(1, 2, 0.0), SwitchState(true))];
    let report = process_switch_state(&[], &switches);
    assert!(report.mapping.unwrap().0.is_empty());
    assert_eq!(
        report.skipped,
        vec![SkippedSwitch { index: 0, reason: SkipReason::UnknownNode }]
    );
}

#[test]
fn aggregation_matrix_has_one_entry_in_each_row() {
    let nodes: Vec<u64> = vec![1, 2, 3, 4, 5];
    let mut uf = NodeMerge::new(&nodes);
    uf.union(2, 4);
    uf.union(5, 1);
    let mapping = uf.get_node_mapping(0);
    assert_eq!(merged_node_count(&mapping), 3);
    let matrix = build_aggregation_matrix(&nodes, &mapping).unwrap();
    assert_eq!(matrix.nrows(), 5);
    assert_eq!(matrix.ncols(), 3);
    let entries: Vec<(usize, usize, u64)> =
        matrix.triplet_iter().map(|(i, j, v)| (i, j, *v)).collect();
    assert_eq!(
        entries,
        vec![(0, 0, 1), (1, 1, 1), (2, 2, 1), (3, 1, 1), (4, 0, 1)]
    );
    for column in 0..3 {
        assert!(entries.iter().any(|e| e.1 == column));
    }
}

#[test]
fn aggregation_matrix_needs_every_node_mapped_to_a_column() {
    let mapping = table(&[(1, 0), (2, 1)]);
    assert!(build_aggregation_matrix(&[1, 2, 3], &mapping).is_none());
    let offset = table(&[(1, 1), (2, 2)]);
    assert!(build_aggregation_matrix(&[1, 2], &offset).is_none());
    let empty = build_aggregation_matrix(&[], &mapping).unwrap();
    assert_eq!(empty.nrows(), 0);
    assert_eq!(empty.ncols(), 2);
    assert_eq!(empty.nnz(), 0);
}

#[test]
fn defaults_are_open_and_empty() {
    assert!(!SwitchState::default().0);
    assert!(node_merge::switch::NodeMapping::default().0.is_empty());
}

#[test]
fn branches_and_merges_keep_the_order_of_the_switches() {
    let nodes: Vec<u64> = vec![1, 2, 3, 4, 5];
    let switches = vec![
        (two_buses(4, 5, 0.25), SwitchState(true)),
        (two_buses(1, 2, 7.0), SwitchState(false)),
        (two_buses(5, 1, -0.0), SwitchState(true)),
        (two_buses(2, 3, 0.5), SwitchState(true)),
    ];
    let report = process_switch_state(&nodes, &switches);
    assert_eq!(
        report.branches,
        vec![
            SwitchBranch { index: 0, from: 4, to: 5, z_ohm: ohms(0.25) },
            SwitchBranch { index: 3, from: 2, to: 3, z_ohm: ohms(0.5) },
        ]
    );
    assert!(report.skipped.is_empty());
    assert_eq!(
        report.mapping.unwrap().0,
        table(&[(1, 0), (5, 0), (2, 1), (3, 2), (4, 3)])
    );
}
