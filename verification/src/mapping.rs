//! The dense renumbering of the classes of a node merger.

use crate::merge::NodeMerge;
use std::collections::HashMap;
use vstd::prelude::*;
use vstd::set_lib::lemma_len_subset;
use vstd::std_specs::iter::IteratorSpec;

verus! {

broadcast use vstd::std_specs::hash::group_hash_axioms;

/// Whether `l` is the smallest node of its class, where two nodes are in one
/// class exactly if `labels` gives them the same label.
pub open spec fn is_first(labels: Map<u64, u64>, l: u64) -> bool {
    labels.contains_key(l) && forall|m: u64|
        labels.contains_key(m) && #[trigger] labels[m] == labels[l] ==> l <= m
}

/// The smallest nodes of all classes: one for each class.
pub open spec fn firsts(labels: Map<u64, u64>) -> Set<u64> {
    labels.dom().filter(|l: u64| is_first(labels, l))
}

/// The smallest nodes of the classes that lie wholly below the class of `n`
/// in the order of their smallest nodes.
pub open spec fn firsts_before(labels: Map<u64, u64>, n: u64) -> Set<u64> {
    labels.dom().filter(
        |l: u64|
            is_first(labels, l) && forall|m: u64|
                labels.contains_key(m) && #[trigger] labels[m] == labels[n] ==> l < m,
    )
}

/// The number of classes.
pub open spec fn class_count(labels: Map<u64, u64>) -> nat {
    firsts(labels).len()
}

/// The new identifier of `n`: `base` plus the number of classes whose
/// smallest node is below the smallest node of the class of `n`.
pub open spec fn dense_id(labels: Map<u64, u64>, base: u64, n: u64) -> int {
    base + firsts_before(labels, n).len()
}

/// The renumbering of all nodes: the classes are numbered from `base` on in
/// the ascending order of their smallest nodes, and each node gets the number
/// of its class.
pub open spec fn dense_mapping(labels: Map<u64, u64>, base: u64) -> Map<u64, u64> {
    Map::new(|n: u64| labels.contains_key(n), |n: u64| dense_id(labels, base, n) as u64)
}

/// Whether some node has the new identifier `v` in `mapping`.
pub open spec fn assigns(mapping: Map<u64, u64>, v: u64) -> bool {
    exists|n: u64| mapping.contains_key(n) && #[trigger] mapping[n] == v
}

/// Whether `s` is strictly increasing.
pub open spec fn ascending(s: Seq<u64>) -> bool {
    forall|i: int, j: int| 0 <= i < j < s.len() ==> s[i] < s[j]
}

/// Sorts `v` with `sort` of std's slices: afterwards `v` holds what it held,
/// each value as often as before, and no value stands before a smaller one.
#[verifier::external_body]
fn sort_ids(v: &mut Vec<u64>)
    ensures
        final(v)@.to_multiset() == old(v)@.to_multiset(),
        forall|i: int, j: int| 0 <= i < j < final(v)@.len() ==> final(v)@[i] <= final(v)@[j],
{
    v.sort();
}

/// The keys of `m`, each once, in the order in which the map hands them out.
fn key_list(m: &HashMap<u64, u64>) -> (v: Vec<u64>)
    ensures
        v@.no_duplicates(),
        v@.to_set() == m@.dom(),
{
    let mut v: Vec<u64> = Vec::new();
    for k in it: m.keys()
        invariant
            it.seq() == m.keys().remaining(),
            v@.len() == it.index(),
            forall|j: int| 0 <= j < v@.len() ==> v@[j] == *it.seq()[j],
    {
        v.push(*k);
    }
    proof {
        let ks = m.keys().remaining();
        assert(v@ =~= ks.unref());
        assert forall|i: int, j: int| 0 <= i < v@.len() && 0 <= j < v@.len() && i != j implies v@[i]
            != v@[j] by {
            assert(ks[i] != ks[j]);
        }
    }
    v
}

/// The nodes of `merger` in ascending order, each once.
pub fn sorted_nodes(merger: &NodeMerge) -> (v: Vec<u64>)
    ensures
        ascending(v@),
        v@.to_set() == merger.nodes(),
{
    let mut v = key_list(&merger.parent);
    let ghost before = v@;
    sort_ids(&mut v);
    proof {
        before.to_multiset_ensures();
        v@.to_multiset_ensures();
        before.lemma_multiset_has_no_duplicates();
        v@.lemma_multiset_has_no_duplicates_conv();
        assert forall|x: u64| v@.contains(x) <==> before.contains(x) by {
            assert(v@.to_multiset().count(x) == before.to_multiset().count(x));
        }
        assert(v@.to_set() =~= before.to_set());
    }
    v
}

impl NodeMerge {
    /// The classes as a labelling: each node is labelled with the
    /// representative of its class.
    pub open spec fn labels(&self) -> Map<u64, u64> {
        Map::new(|n: u64| self.nodes().contains(n), |n: u64| self.root(n))
    }

    /// Generates the node mapping of the current classes, starting with
    /// `starting_idx`: the classes are numbered in the ascending order of
    /// their smallest nodes. Two nodes get the same new identifier exactly if
    /// they are in the same class, and the new identifiers fill the range from
    /// `starting_idx` on, one for each class.
    pub fn get_node_mapping(&self, starting_idx: u64) -> (mapping: HashMap<u64, u64>)
        requires
            self.wf(),
            starting_idx + class_count(self.labels()) <= u64::MAX,
        ensures
            mapping@ == dense_mapping(self.labels(), starting_idx),
            mapping@.dom() == self.nodes(),
            forall|x: u64, y: u64|
                self.nodes().contains(x) && self.nodes().contains(y) ==> (mapping@[x] == mapping@[y]
                    <==> self.same_class(x, y)),
            forall|v: u64| #[trigger]
                assigns(mapping@, v) <==> starting_idx <= v < starting_idx + class_count(
                    self.labels(),
                ),
    {
        let nodes = sorted_nodes(self);
        let ghost labels = self.labels();
        let mut root_to_new_id: HashMap<u64, u64> = HashMap::new();
        let mut node_mapping: HashMap<u64, u64> = HashMap::new();
        let mut new_node_id: u64 = starting_idx;
        let ghost mut seen: Set<u64> = Set::empty();
        let ghost mut first_of: Map<u64, u64> = Map::empty();
        let ghost mut node_at: Map<u64, u64> = Map::empty();
        proof {
            assert(labels.dom() =~= self.nodes());
        }
        let mut i: usize = 0;
        while i < nodes.len()
            invariant
                i <= nodes.len(),
                self.wf(),
                labels == self.labels(),
                ascending(nodes@),
                nodes@.to_set() == self.nodes(),
                starting_idx + class_count(labels) <= u64::MAX,
                labels.dom().finite(),
                seen.finite(),
                new_node_id == starting_idx + seen.len(),
                forall|l: u64|
                    seen.contains(l) <==> is_first(labels, l) && node_mapping@.contains_key(l),
                forall|j: int| 0 <= j < i ==> node_mapping@.contains_key(#[trigger] nodes@[j]),
                forall|n: u64, k: int|
                    #[trigger] node_mapping@.contains_key(n) && i <= k < nodes@.len() ==> n
                        < #[trigger] nodes@[k],
                forall|n: u64| #[trigger]
                    node_mapping@.contains_key(n) ==> labels.contains_key(n)
                        && root_to_new_id@.contains_key(labels[n]) && node_mapping@[n]
                        == root_to_new_id@[labels[n]] && node_mapping@[n] == dense_id(
                        labels,
                        starting_idx,
                        n,
                    ),
                forall|r: u64| #[trigger]
                    root_to_new_id@.contains_key(r) ==> labels.contains_key(first_of[r])
                        && labels[first_of[r]] == r && root_to_new_id@[r] == starting_idx
                        + firsts_before(labels, first_of[r]).len() && starting_idx
                        <= root_to_new_id@[r] < new_node_id && node_at[root_to_new_id@[r]] == first_of[r],
                forall|v: u64|
                    starting_idx <= v < new_node_id ==> node_mapping@.contains_key(
                        #[trigger] node_at[v],
                    ) && node_mapping@[node_at[v]] == v,
            decreases nodes.len() - i,
        {
            let node = nodes[i];
            assert(nodes@.contains(node));
            assert(self.nodes().contains(node));
            let root = self.root_of(node);
            assert(labels[node] == root);
            let ghost mapped = node_mapping@;
            assert(!mapped.contains_key(node));
            let known = root_to_new_id.get(&root);
            let id: u64 = match known {
                Some(id) => {
                    proof {
                        assert(firsts_before(labels, node) =~= firsts_before(
                            labels,
                            first_of[root],
                        ));
                    }
                    *id
                },
                None => {
                    proof {
                        assert forall|m: u64|
                            labels.contains_key(m) && #[trigger] labels[m]
                                == labels[node] implies node <= m by {
                            assert(nodes@.contains(m));
                            let k = choose|k: int| 0 <= k < nodes@.len() && nodes@[k] == m;
                            if k < i {
                                assert(mapped.contains_key(nodes@[k]));
                            }
                        }
                        assert(is_first(labels, node));
                        assert forall|l: u64| seen.contains(l) <==> firsts_before(
                            labels,
                            node,
                        ).contains(l) by {
                            if seen.contains(l) {
                                assert(l < nodes@[i as int]);
                            }
                            if firsts_before(labels, node).contains(l) {
                                assert(labels[node] == labels[node]);
                                assert(l < node);
                                assert(nodes@.contains(l));
                                let k = choose|k: int| 0 <= k < nodes@.len() && nodes@[k] == l;
                                assert(mapped.contains_key(nodes@[k]));
                            }
                        }
                        assert(seen =~= firsts_before(labels, node));
                        assert(seen.insert(node).subset_of(firsts(labels)));
                        lemma_len_subset(seen.insert(node), firsts(labels));
                        first_of = first_of.insert(root, node);
                        node_at = node_at.insert(new_node_id, node);
                        seen = seen.insert(node);
                    }
                    let fresh = new_node_id;
                    root_to_new_id.insert(root, fresh);
                    new_node_id += 1;
                    fresh
                },
            };
            node_mapping.insert(node, id);
            i += 1;
        }
        proof {
            assert(node_mapping@.dom() =~= self.nodes()) by {
                assert forall|n: u64| self.nodes().contains(n) implies node_mapping@.contains_key(
                    n,
                ) by {
                    assert(nodes@.contains(n));
                    let k = choose|k: int| 0 <= k < nodes@.len() && nodes@[k] == n;
                    assert(node_mapping@.contains_key(nodes@[k]));
                }
            }
            assert(seen =~= firsts(labels));
            assert(node_mapping@ =~= dense_mapping(labels, starting_idx));
            assert forall|v: u64|
                starting_idx <= v < starting_idx + class_count(labels) implies #[trigger] assigns(
                node_mapping@,
                v,
            ) by {
                assert(node_mapping@.contains_key(node_at[v]));
            }
        }
        node_mapping
    }
}

} // verus!
