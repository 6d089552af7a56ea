//! Switches, and the step that turns a set of switches and their states into
//! node merges, branches and the node mapping.

use crate::laws::lemma_mapping_of_classes;
use crate::mapping::{dense_mapping, firsts};
use crate::merge::NodeMerge;
use std::collections::HashMap;
use vstd::prelude::*;
use vstd::set_lib::lemma_len_subset;
use vstd::std_specs::hash::spec_hash_map_len;

verus! {

broadcast use vstd::std_specs::hash::group_hash_axioms;

/// What a switch connects.
#[derive(Debug, Clone, Copy, PartialEq, Eq, Structural)]
pub enum SwitchType {
    SwitchTwoBuses,
    SwitchBusLine,
    SwitchBusTransformer,
    SwitchBusTransformer3w,
    Unknown,
}

/// An impedance in ohms, held as the bits of a 64-bit IEEE 754 number.
#[derive(Debug, Clone, Copy, PartialEq, Eq, Structural)]
pub struct Ohms {
    pub bits: u64,
}

impl Ohms {
    /// Whether the bits are those of zero, of either sign.
    pub open spec fn zero(&self) -> bool {
        self.bits == 0 || self.bits == 0x8000_0000_0000_0000
    }

    /// The impedance with the given bits.
    pub fn from_bits(bits: u64) -> (z: Ohms)
        ensures
            z.bits == bits,
    {
        Ohms { bits }
    }

    /// Whether this is the impedance of an ideal connector.
    pub fn is_zero(&self) -> (b: bool)
        ensures
            b == self.zero(),
    {
        self.bits == 0 || self.bits == 0x8000_0000_0000_0000
    }
}

/// Represents a switch in the network.
#[derive(Debug, Clone, Copy)]
pub struct Switch {
    pub bus: i64,
    pub element: i64,
    pub et: SwitchType,
    pub z_ohm: Ohms,
}

/// Represents a switch state in the network: `true` is closed.
#[derive(Debug, Clone, Copy)]
pub struct SwitchState(pub bool);

impl Default for SwitchState {
    /// An open switch.
    fn default() -> (state: Self)
        ensures
            !state.0,
    {
        SwitchState(false)
    }
}

/// Represents merging two nodes in the network.
#[derive(Debug, Clone, Copy)]
pub struct MergeNode(pub usize, pub usize);

/// A mapping from old nodes to new nodes after merging.
#[derive(Debug, Clone)]
pub struct NodeMapping(pub HashMap<u64, u64>);

impl Default for NodeMapping {
    /// The mapping of no node.
    fn default() -> (mapping: Self)
        ensures
            mapping.0@ == Map::<u64, u64>::empty(),
    {
        NodeMapping(HashMap::new())
    }
}

/// Why a switch was left out.
#[derive(Debug, Clone, Copy, PartialEq, Eq, Structural)]
pub enum SkipReason {
    /// The switch is not one between two buses.
    UnsupportedType,
    /// The switch is closed and one of its ends is no known node.
    UnknownNode,
}

/// What one switch does to the network.
#[derive(Debug, Clone, Copy, PartialEq, Eq, Structural)]
pub enum SwitchEffect {
    /// Nothing: the switch is open.
    Nothing,
    /// The two nodes become one.
    Merge(u64, u64),
    /// A branch of the given impedance joins the two nodes.
    Branch(u64, u64, Ohms),
    /// The switch is left out.
    Skipped(SkipReason),
}

/// A branch that stands for a closed switch of nonzero impedance. `index` is
/// the switch's place in the input.
#[derive(Debug, Clone, Copy, PartialEq, Eq, Structural)]
pub struct SwitchBranch {
    pub index: usize,
    pub from: u64,
    pub to: u64,
    pub z_ohm: Ohms,
}

/// A switch that was left out, by its place in the input.
#[derive(Debug, Clone, Copy, PartialEq, Eq, Structural)]
pub struct SkippedSwitch {
    pub index: usize,
    pub reason: SkipReason,
}

/// What processing a set of switches gives: the branches to model, the
/// switches left out, and the node mapping, which is absent exactly if there
/// was no switch.
#[derive(Debug)]
pub struct SwitchReport {
    pub branches: Vec<SwitchBranch>,
    pub skipped: Vec<SkippedSwitch>,
    pub mapping: Option<NodeMapping>,
}

/// The effect of a switch by type, state and impedance. Only a closed switch
/// between two known buses has one: a merge at zero impedance, else a branch.
pub open spec fn effect_of(nodes: Set<u64>, sw: Switch, closed: bool) -> SwitchEffect {
    if sw.et != SwitchType::SwitchTwoBuses {
        SwitchEffect::Skipped(SkipReason::UnsupportedType)
    } else if !closed {
        SwitchEffect::Nothing
    } else if sw.bus < 0 || sw.element < 0 || !nodes.contains(sw.bus as u64) || !nodes.contains(
        sw.element as u64,
    ) {
        SwitchEffect::Skipped(SkipReason::UnknownNode)
    } else if sw.z_ohm.zero() {
        SwitchEffect::Merge(sw.bus as u64, sw.element as u64)
    } else {
        SwitchEffect::Branch(sw.bus as u64, sw.element as u64, sw.z_ohm)
    }
}

/// The effect of the last of `switches`.
pub open spec fn last_effect(nodes: Set<u64>, switches: Seq<(Switch, SwitchState)>) -> SwitchEffect
    recommends
        switches.len() > 0,
{
    effect_of(nodes, switches.last().0, switches.last().1.0)
}

/// The node pairs that `switches` merge, in the order of the switches.
pub open spec fn merges_of(nodes: Set<u64>, switches: Seq<(Switch, SwitchState)>) -> Seq<
    (u64, u64),
>
    decreases switches.len(),
{
    if switches.len() == 0 {
        Seq::empty()
    } else {
        let rest = merges_of(nodes, switches.drop_last());
        match last_effect(nodes, switches) {
            SwitchEffect::Merge(a, b) => rest.push((a, b)),
            _ => rest,
        }
    }
}

/// The branches that `switches` ask for, in the order of the switches.
pub open spec fn branches_of(nodes: Set<u64>, switches: Seq<(Switch, SwitchState)>) -> Seq<
    SwitchBranch,
>
    decreases switches.len(),
{
    if switches.len() == 0 {
        Seq::empty()
    } else {
        let rest = branches_of(nodes, switches.drop_last());
        match last_effect(nodes, switches) {
            SwitchEffect::Branch(a, b, z) => rest.push(
                SwitchBranch { index: (switches.len() - 1) as usize, from: a, to: b, z_ohm: z },
            ),
            _ => rest,
        }
    }
}

/// The switches among `switches` that are left out, in their order.
pub open spec fn skipped_of(nodes: Set<u64>, switches: Seq<(Switch, SwitchState)>) -> Seq<
    SkippedSwitch,
>
    decreases switches.len(),
{
    if switches.len() == 0 {
        Seq::empty()
    } else {
        let rest = skipped_of(nodes, switches.drop_last());
        match last_effect(nodes, switches) {
            SwitchEffect::Skipped(reason) => rest.push(
                SkippedSwitch { index: (switches.len() - 1) as usize, reason },
            ),
            _ => rest,
        }
    }
}

/// The classes of `nodes` after the pairs of `merges` have been merged, as a
/// labelling: at first each node is labelled with itself, and each merge of
/// `(a, b)` gives the label of `a` to all nodes that had the label of `b`.
pub open spec fn labels_after(nodes: Set<u64>, merges: Seq<(u64, u64)>) -> Map<u64, u64>
    decreases merges.len(),
{
    if merges.len() == 0 {
        Map::new(|n: u64| nodes.contains(n), |n: u64| n)
    } else {
        let before = labels_after(nodes, merges.drop_last());
        let (a, b) = merges.last();
        Map::new(
            |n: u64| nodes.contains(n),
            |n: u64|
                if before[n] == before[b] {
                    before[a]
                } else {
                    before[n]
                },
        )
    }
}

/// Decides the effect of one switch on a network whose nodes are those of
/// `merger`.
pub fn decide(merger: &NodeMerge, sw: &Switch, closed: bool) -> (effect: SwitchEffect)
    ensures
        effect == effect_of(merger.nodes(), *sw, closed),
{
    match sw.et {
        SwitchType::SwitchTwoBuses => {
            if !closed {
                SwitchEffect::Nothing
            } else if sw.bus < 0 || sw.element < 0 {
                SwitchEffect::Skipped(SkipReason::UnknownNode)
            } else {
                let a = sw.bus as u64;
                let b = sw.element as u64;
                if !merger.parent.contains_key(&a) || !merger.parent.contains_key(&b) {
                    SwitchEffect::Skipped(SkipReason::UnknownNode)
                } else if sw.z_ohm.is_zero() {
                    SwitchEffect::Merge(a, b)
                } else {
                    SwitchEffect::Branch(a, b, sw.z_ohm)
                }
            }
        },
        _ => SwitchEffect::Skipped(SkipReason::UnsupportedType),
    }
}

/// Processes the state of switches: merges the ends of each closed two-bus
/// switch of zero impedance, and models no branch for it; asks for a branch
/// for each closed two-bus switch of another impedance, and merges nothing
/// for it; and leaves out, with the reason, each switch of
/// another type and each closed switch with an unknown end. With at least one
/// switch the node mapping of the resulting classes is computed, from 0 on;
/// with none there is no mapping.
pub fn process_switch_state(nodes: &[u64], switches: &[(Switch, SwitchState)]) -> (report:
    SwitchReport)
    ensures
        report.branches@ == branches_of(nodes@.to_set(), switches@),
        report.skipped@ == skipped_of(nodes@.to_set(), switches@),
        report.mapping is None <==> switches@.len() == 0,
        report.mapping is Some ==> report.mapping->Some_0.0@ == dense_mapping(
            labels_after(nodes@.to_set(), merges_of(nodes@.to_set(), switches@)),
            0,
        ),
{
    let mut branches: Vec<SwitchBranch> = Vec::new();
    let mut skipped: Vec<SkippedSwitch> = Vec::new();
    if switches.len() == 0 {
        return SwitchReport { branches, skipped, mapping: None };
    }
    let mut union_find = NodeMerge::new(nodes);
    let ghost known = nodes@.to_set();
    let ghost mut merged: Seq<(u64, u64)> = Seq::empty();
    let mut i: usize = 0;
    while i < switches.len()
        invariant
            i <= switches.len(),
            union_find.wf(),
            union_find.nodes() == known,
            known == nodes@.to_set(),
            merged == merges_of(known, switches@.take(i as int)),
            branches@ == branches_of(known, switches@.take(i as int)),
            skipped@ == skipped_of(known, switches@.take(i as int)),
            labels_after(known, merged).dom() == known,
            forall|x: u64, y: u64|
                known.contains(x) && known.contains(y) ==> (#[trigger] union_find.same_class(x, y)
                    <==> labels_after(known, merged)[x] == labels_after(known, merged)[y]),
        decreases switches.len() - i,
    {
        let sw = &switches[i].0;
        let closed = switches[i].1.0;
        proof {
            assert(switches@.take(i + 1).drop_last() =~= switches@.take(i as int));
            assert(switches@.take(i + 1).last() == switches@[i as int]);
        }
        match decide(&union_find, sw, closed) {
            SwitchEffect::Merge(a, b) => {
                let ghost before = union_find;
                let ghost labels = labels_after(known, merged);
                union_find.union(a, b);
                proof {
                    let next = merged.push((a, b));
                    assert(next.drop_last() =~= merged);
                    assert(next.last() == (a, b));
                    let relabelled = labels_after(known, next);
                    assert(relabelled.dom() =~= known);
                    assert forall|x: u64, y: u64|
                        known.contains(x) && known.contains(y) implies (
                    #[trigger] union_find.same_class(x, y) <==> relabelled[x] == relabelled[y]) by {
                        assert(union_find.same_class(x, y) <==> before.joined(a, b, x, y));
                        assert(before.same_class(x, y) <==> labels[x] == labels[y]);
                        assert(before.same_class(x, a) <==> labels[x] == labels[a]);
                        assert(before.same_class(x, b) <==> labels[x] == labels[b]);
                        assert(before.same_class(y, a) <==> labels[y] == labels[a]);
                        assert(before.same_class(y, b) <==> labels[y] == labels[b]);
                    }
                    merged = next;
                }
            },
            SwitchEffect::Branch(a, b, z) => {
                branches.push(SwitchBranch { index: i, from: a, to: b, z_ohm: z });
            },
            SwitchEffect::Skipped(reason) => {
                skipped.push(SkippedSwitch { index: i, reason });
            },
            SwitchEffect::Nothing => {},
        }
        i += 1;
    }
    proof {
        assert(switches@.take(switches@.len() as int) =~= switches@);
        assert(union_find.nodes().len() == spec_hash_map_len(&union_find.parent));
        let labels = labels_after(known, merged);
        assert(union_find.labels().dom() =~= labels.dom());
        assert forall|x: u64, y: u64|
            union_find.labels().contains_key(x) && union_find.labels().contains_key(
                y,
            ) implies (union_find.labels()[x] == union_find.labels()[y] <==> labels[x]
            == labels[y]) by {
            assert(union_find.same_class(x, y) <==> labels[x] == labels[y]);
        }
        lemma_mapping_of_classes(union_find.labels(), labels, 0);
        assert(union_find.labels().dom() =~= union_find.nodes());
        lemma_len_subset(firsts(union_find.labels()), union_find.nodes());
    }
    let mapping = union_find.get_node_mapping(0);
    SwitchReport { branches, skipped, mapping: Some(NodeMapping(mapping)) }
}

} // verus!
