use node_merge::merge::NodeMerge;
use node_merge::switch::{Ohms, Switch, SwitchState, SwitchType};
use std::collections::{HashMap, HashSet};

fn expected(pairs: &[(u64, u64)]) -> HashMap<u64, u64> {
    let mut m = HashMap::new();
    for &(k, v) in pairs {
        m.insert(k, v);
    }
    m
}

#[test]
fn test_node_merge() {
    let nodes = vec![1, 2, 3, 4, 5, 6, 7];
    let switches = vec![
        Switch {
            bus: 2,
            element: 3,
            et: SwitchType::SwitchTwoBuses,
            z_ohm: Ohms::from_bits(0.0f64.to_bits()),
        },
        Switch {
            bus: 3,
            element: 4,
            et: SwitchType::SwitchTwoBuses,
            z_ohm: Ohms::from_bits(0.0f64.to_bits()),
        },
        Switch {
            bus: 5,
            element: 6,
            et: SwitchType::SwitchTwoBuses,
            z_ohm: Ohms::from_bits(0.0f64.to_bits()),
        },
        Switch {
            bus: 6,
            element: 7,
            et: SwitchType::SwitchTwoBuses,
            z_ohm: Ohms::from_bits(0.0f64.to_bits()),
        },
    ];

    let switch_states = vec![
        SwitchState(true),
        SwitchState(true),
        SwitchState(false),
        SwitchState(true),
    ];

    let mut uf = NodeMerge::new(&nodes);

    for (switch, state) in switches.iter().zip(switch_states.iter()) {
        if state.0 {
            if switch.et == SwitchType::SwitchTwoBuses {
                uf.union(switch.bus as u64, switch.element as u64);
            }
        }
    }

    assert_eq!(uf.find(2), uf.find(3));
    assert_eq!(uf.find(3), uf.find(4));
    assert_ne!(uf.find(5), uf.find(6));
    assert_eq!(uf.find(6), uf.find(7));
}

#[test]
fn chain_merge_gives_four_classes() {
    let nodes: Vec<u64> = vec![1, 2, 3, 4, 5, 6, 7];
    let mut uf = NodeMerge::new(&nodes);
    uf.union(2, 3);
    uf.union(3, 4);
    uf.union(6, 7);
    assert_eq!(uf.find(2), uf.find(3));
    assert_eq!(uf.find(3), uf.find(4));
    assert_ne!(uf.find(5), uf.find(6));
    assert_eq!(uf.find(6), uf.find(7));
    let mut roots = HashSet::new();
    for &n in &nodes {
        roots.insert(uf.find(n));
    }
    let mapping = uf.get_node_mapping(0);
    let ids: HashSet<u64> = mapping.values().copied().collect();
    assert_eq!(ids.len(), roots.len());
    assert_eq!(ids.len(), 4);
    assert_eq!(
        mapping,
        expected(&[(1, 0), (2, 1), (3, 1), (4, 1), (5, 2), (6, 3), (7, 3)])
    );
}

#[test]
fn new_makes_singletons_of_rank_zero() {
    let uf = NodeMerge::new(&[4, 9, 2]);
    assert_eq!(uf.parent, expected(&[(4, 4), (9, 9), (2, 2)]));
    assert_eq!(uf.rank, expected(&[(4, 0), (9, 0), (2, 0)]));
    assert_eq!(uf.root_of(9), 9);
}

#[test]
fn new_enters_a_repeated_node_once() {
    let uf = NodeMerge::new(&[3, 3, 8, 3]);
    assert_eq!(uf.parent.len(), 2);
    assert_eq!(uf.get_node_mapping(0), expected(&[(3, 0), (8, 1)]));
}

#[test]
fn new_of_nothing_is_empty() {
    let uf = NodeMerge::new(&[]);
    assert!(uf.parent.is_empty());
    assert!(uf.get_node_mapping(0).is_empty());
}

#[test]
fn union_by_rank_hangs_lower_under_higher() {
    let mut uf = NodeMerge::new(&[1, 2, 3]);
    uf.union(1, 2);
    // a tie: the first root stays and its rank grows
    assert_eq!(uf.parent[&2], 1);
    assert_eq!(uf.rank[&1], 1);
    assert_eq!(uf.rank[&2], 0);
    uf.union(3, 1);
    // rank 0 goes under rank 1, and no rank changes
    assert_eq!(uf.parent[&3], 1);
    assert_eq!(uf.rank[&1], 1);
    assert_eq!(uf.rank[&3], 0);
}

#[test]
fn find_compresses_the_path() {
    let mut uf = NodeMerge::new(&[1, 2, 3, 4]);
    uf.union(1, 2);
    uf.union(3, 4);
    uf.union(1, 3);
    // 4 hangs under 3, which hangs under 1
    assert_eq!(uf.parent[&4], 3);
    assert_eq!(uf.root_of(4), 1);
    assert_eq!(uf.parent[&4], 3);
    let ranks = uf.rank.clone();
    assert_eq!(uf.find(4), 1);
    assert_eq!(uf.parent[&4], 1);
    assert_eq!(uf.rank, ranks);
}

#[test]
fn union_of_a_merged_pair_changes_nothing() {
    let mut uf = NodeMerge::new(&[1, 2, 3, 4]);
    uf.union(1, 2);
    uf.union(2, 3);
    let parent = uf.parent.clone();
    let rank = uf.rank.clone();
    let mapping = uf.get_node_mapping(0);
    uf.union(1, 3);
    uf.union(3, 1);
    uf.union(2, 2);
    assert_eq!(uf.parent, parent);
    assert_eq!(uf.rank, rank);
    assert_eq!(uf.get_node_mapping(0), mapping);
}

#[test]
fn unions_commute() {
    let nodes: Vec<u64> = vec![10, 20, 30, 40, 50];
    let mut first = NodeMerge::new(&nodes);
    first.union(10, 20);
    first.union(20, 30);
    let mut second = NodeMerge::new(&nodes);
    second.union(20, 30);
    second.union(10, 20);
    for &x in &nodes {
        for &y in &nodes {
            assert_eq!(
                first.find(x) == first.find(y),
                second.find(x) == second.find(y)
            );
        }
    }
    assert_eq!(first.find(10), first.find(30));
    assert_ne!(first.find(10), first.find(40));
}

#[test]
fn mapping_is_dense_from_the_starting_index() {
    let nodes: Vec<u64> = vec![9, 1, 7, 3, 5, 11];
    let mut uf = NodeMerge::new(&nodes);
    uf.union(9, 1);
    uf.union(7, 11);
    let mapping = uf.get_node_mapping(10);
    // classes by smallest node: {1, 9}, {3}, {5}, {7, 11}
    assert_eq!(
        mapping,
        expected(&[(1, 10), (9, 10), (3, 11), (5, 12), (7, 13), (11, 13)])
    );
    let mut ids: Vec<u64> = mapping.values().copied().collect();
    ids.sort();
    ids.dedup();
    assert_eq!(ids, vec![10, 11, 12, 13]);
}

#[test]
fn mapping_depends_on_the_classes_alone() {
    let nodes: Vec<u64> = vec![1, 2, 3, 4, 5, 6];
    let mut first = NodeMerge::new(&nodes);
    first.union(5, 6);
    first.union(2, 4);
    first.union(4, 6);
    let mut second = NodeMerge::new(&[6, 5, 4, 3, 2, 1]);
    second.union(6, 2);
    second.union(4, 5);
    second.union(5, 6);
    second.union(2, 4);
    assert_eq!(first.get_node_mapping(0), second.get_node_mapping(0));
    assert_eq!(
        first.get_node_mapping(0),
        expected(&[(1, 0), (2, 1), (3, 2), (4, 1), (5, 1), (6, 1)])
    );
}

#[test]
fn mapping_numbers_classes_in_ascending_node_order() {
    let nodes: Vec<u64> = (0..200).map(|k| (k * 7919 + 13) % 1009).collect();
    let uf = NodeMerge::new(&nodes);
    let mut sorted = nodes.clone();
    sorted.sort();
    sorted.dedup();
    let mapping = uf.get_node_mapping(0);
    assert_eq!(mapping.len(), sorted.len());
    for (place, node) in sorted.iter().enumerate() {
        assert_eq!(mapping[node], place as u64);
    }
}

#[test]
fn mapping_at_the_top_of_the_range() {
    let mut uf = NodeMerge::new(&[1, 2, 3]);
    uf.union(1, 3);
    let mapping = uf.get_node_mapping(u64::MAX - 3);
    assert_eq!(
        mapping,
        expected(&[(1, u64::MAX - 3), (3, u64::MAX - 3), (2, u64::MAX - 2)])
    );
}

#[test]
fn default_merger_knows_no_node() {
    let uf = NodeMerge::default();
    assert!(uf.parent.is_empty());
    assert!(uf.rank.is_empty());
    assert!(uf.get_node_mapping(5).is_empty());
}

#[test]
fn sorted_nodes_are_ascending_and_complete() {
    let nodes: Vec<u64> = (0..300).map(|k| (k * 104729 + 7) % 5003).collect();
    let mut uf = NodeMerge::new(&nodes);
    uf.union(nodes[0], nodes[1]);
    let sorted = node_merge::mapping::sorted_nodes(&uf);
    let mut expected_nodes = nodes.clone();
    expected_nodes.sort();
    expected_nodes.dedup();
    assert_eq!(sorted, expected_nodes);
}

#[test]
fn union_at_a_tie_keeps_the_first_root() {
    let mut uf = NodeMerge::new(&[1, 2, 3, 4]);
    uf.union(3, 4);
    uf.union(1, 2);
    // both roots have rank 1: the root of the first argument wins
    uf.union(4, 2);
    assert_eq!(uf.find(1), 3);
    assert_eq!(uf.find(2), 3);
    assert_eq!(uf.rank[&3], 2);
    assert_eq!(uf.rank[&1], 1);
    assert_eq!(uf.parent, expected(&[(1, 3), (2, 3), (3, 3), (4, 3)]));
}
