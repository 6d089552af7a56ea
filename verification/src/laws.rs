//! What holds of the merger and of its node mapping across several calls.

use crate::aggregation::{aggregation_triplets, covered};
use crate::mapping::{assigns, dense_id, dense_mapping, firsts_before, is_first};
use crate::merge::NodeMerge;
use vstd::prelude::*;
use vstd::set_lib::lemma_len_subset;

verus! {

/// Two merges commute: merging the classes of `a` and `b` and then those of
/// `c` and `d` puts the same nodes together as the two merges in the other
/// order. With `b == c` this is the chain `(a, b)`, `(b, c)` taken either way.
pub proof fn lemma_union_commutes(
    start: NodeMerge,
    ab: NodeMerge,
    ab_cd: NodeMerge,
    cd: NodeMerge,
    cd_ab: NodeMerge,
    a: u64,
    b: u64,
    c: u64,
    d: u64,
)
    requires
        start.nodes().contains(a),
        start.nodes().contains(b),
        start.nodes().contains(c),
        start.nodes().contains(d),
        ab.merges(start, a, b),
        ab_cd.merges(ab, c, d),
        cd.merges(start, c, d),
        cd_ab.merges(cd, a, b),
    ensures
        ab_cd.nodes() == cd_ab.nodes(),
        forall|x: u64, y: u64|
            start.nodes().contains(x) && start.nodes().contains(y) ==> (ab_cd.same_class(x, y)
                <==> cd_ab.same_class(x, y)),
{
    assert forall|x: u64, y: u64|
        start.nodes().contains(x) && start.nodes().contains(y) implies (ab_cd.same_class(x, y)
        <==> cd_ab.same_class(x, y)) by {
        assert(ab_cd.same_class(x, y) <==> ab.joined(c, d, x, y));
        assert(cd_ab.same_class(x, y) <==> cd.joined(a, b, x, y));
        assert(ab.same_class(x, y) <==> start.joined(a, b, x, y));
        assert(ab.same_class(x, c) <==> start.joined(a, b, x, c));
        assert(ab.same_class(x, d) <==> start.joined(a, b, x, d));
        assert(ab.same_class(y, c) <==> start.joined(a, b, y, c));
        assert(ab.same_class(y, d) <==> start.joined(a, b, y, d));
        assert(cd.same_class(x, y) <==> start.joined(c, d, x, y));
        assert(cd.same_class(x, a) <==> start.joined(c, d, x, a));
        assert(cd.same_class(x, b) <==> start.joined(c, d, x, b));
        assert(cd.same_class(y, a) <==> start.joined(c, d, y, a));
        assert(cd.same_class(y, b) <==> start.joined(c, d, y, b));
    }
}

/// Merging two nodes that already share a class changes no class.
pub proof fn lemma_union_idempotent(before: NodeMerge, after: NodeMerge, a: u64, b: u64)
    requires
        before.nodes().contains(a),
        before.nodes().contains(b),
        before.same_class(a, b),
        after.merges(before, a, b),
    ensures
        forall|x: u64, y: u64|
            before.nodes().contains(x) && before.nodes().contains(y) ==> (after.same_class(x, y)
                <==> before.same_class(x, y)),
{
    assert forall|x: u64, y: u64|
        before.nodes().contains(x) && before.nodes().contains(y) implies (after.same_class(x, y)
        <==> before.same_class(x, y)) by {
        assert(after.same_class(x, y) <==> before.joined(a, b, x, y));
    }
}

/// The node mapping depends on the classes alone: two labellings of the same
/// nodes that put the same nodes together give the same mapping, whatever
/// labels they use.
pub proof fn lemma_mapping_of_classes(l1: Map<u64, u64>, l2: Map<u64, u64>, base: u64)
    requires
        l1.dom() == l2.dom(),
        forall|x: u64, y: u64|
            l1.contains_key(x) && l1.contains_key(y) ==> (l1[x] == l1[y] <==> l2[x] == l2[y]),
    ensures
        dense_mapping(l1, base) == dense_mapping(l2, base),
{
    assert forall|l: u64| is_first(l1, l) == is_first(l2, l) by {
        if l1.contains_key(l) {
            assert(l2.contains_key(l));
        }
    }
    assert forall|n: u64| l1.contains_key(n) implies firsts_before(l1, n) == firsts_before(
        l2,
        n,
    ) by {
        assert(l2.contains_key(n));
        assert forall|l: u64| firsts_before(l1, n).contains(l) == firsts_before(l2, n).contains(
            l,
        ) by {
            assert(is_first(l1, l) == is_first(l2, l));
        }
        assert(firsts_before(l1, n) =~= firsts_before(l2, n));
    }
    assert(dense_mapping(l1, base) =~= dense_mapping(l2, base));
}

/// The classes are numbered in the ascending order of their smallest nodes:
/// of two such nodes the smaller has the smaller new identifier.
pub proof fn lemma_mapping_ascending(labels: Map<u64, u64>, base: u64, l1: u64, l2: u64)
    requires
        labels.dom().finite(),
        is_first(labels, l1),
        is_first(labels, l2),
        l1 < l2,
    ensures
        dense_id(labels, base, l1) < dense_id(labels, base, l2),
{
    let below1 = firsts_before(labels, l1);
    let below2 = firsts_before(labels, l2);
    assert(!below1.contains(l1)) by {
        assert(labels[l1] == labels[l1]);
    }
    assert forall|x: u64| below1.insert(l1).contains(x) implies below2.contains(x) by {
        assert(labels[l1] == labels[l1]);
        assert forall|m: u64|
            labels.contains_key(m) && #[trigger] labels[m] == labels[l2] implies x < m by {
            assert(l2 <= m);
        }
    }
    lemma_len_subset(below1, labels.dom());
    lemma_len_subset(below2, labels.dom());
    lemma_len_subset(below1.insert(l1), below2);
}

/// Two mergers over the same nodes whose classes agree, however their unions
/// were ordered, have the same node mapping.
pub proof fn lemma_mapping_deterministic(m1: NodeMerge, m2: NodeMerge, base: u64)
    requires
        m1.nodes() == m2.nodes(),
        forall|x: u64, y: u64|
            m1.nodes().contains(x) && m1.nodes().contains(y) ==> (m1.same_class(x, y)
                <==> m2.same_class(x, y)),
    ensures
        dense_mapping(m1.labels(), base) == dense_mapping(m2.labels(), base),
{
    assert(m1.labels().dom() =~= m2.labels().dom());
    assert forall|x: u64, y: u64|
        m1.labels().contains_key(x) && m1.labels().contains_key(y) implies (m1.labels()[x]
        == m1.labels()[y] <==> m2.labels()[x] == m2.labels()[y]) by {
        assert(m1.same_class(x, y) <==> m2.same_class(x, y));
    }
    lemma_mapping_of_classes(m1.labels(), m2.labels(), base);
}

/// There are `k` numbers below `k`.
pub proof fn lemma_count_below(k: nat)
    requires
        k <= u64::MAX + 1,
    ensures
        Set::new(|v: u64| v < k).finite(),
        Set::new(|v: u64| v < k).len() == k,
    decreases k,
{
    let below = Set::new(|v: u64| v < k);
    if k == 0 {
        assert(below =~= Set::<u64>::empty());
    } else {
        let rest = Set::new(|v: u64| v < k - 1);
        lemma_count_below((k - 1) as nat);
        assert(below =~= rest.insert((k - 1) as u64));
    }
}

/// A mapping whose new identifiers are exactly the numbers below `count`,
/// as the node mapping from 0 on has them, has `count` distinct new
/// identifiers, and covers every list of nodes that it maps: the aggregation
/// matrix of such a list exists and has `count` columns.
pub proof fn lemma_dense_mapping_covers(nodes: Seq<u64>, mapping: Map<u64, u64>, count: nat)
    requires
        count <= u64::MAX + 1,
        forall|v: u64| #[trigger] assigns(mapping, v) <==> v < count,
        forall|i: int| 0 <= i < nodes.len() ==> mapping.contains_key(#[trigger] nodes[i]),
    ensures
        mapping.values().len() == count,
        covered(nodes, mapping),
{
    lemma_count_below(count);
    assert forall|v: u64| mapping.values().contains(v) <==> v < count by {
        if mapping.values().contains(v) {
            let n = choose|n: u64| mapping.contains_key(n) && #[trigger] mapping[n] == v;
            assert(assigns(mapping, v));
        }
        if v < count {
            assert(assigns(mapping, v));
        }
    }
    assert(mapping.values() =~= Set::new(|v: u64| v < count));
    assert forall|i: int| 0 <= i < nodes.len() implies mapping.contains_key(#[trigger] nodes[i])
        && mapping[nodes[i]] < mapping.values().len() by {
        assert(assigns(mapping, mapping[nodes[i]]));
    }
}

/// The aggregation entries hold exactly one entry for each row, that of the
/// row's node. Where every mapped node is listed, each new identifier that
/// the mapping assigns has an entry in its column: no merged node is orphaned.
pub proof fn lemma_aggregation_rows_and_columns(nodes: Seq<u64>, mapping: Map<u64, u64>)
    requires
        covered(nodes, mapping),
        nodes.len() <= usize::MAX,
        nodes.to_set() == mapping.dom(),
    ensures
        aggregation_triplets(nodes, mapping).len() == nodes.len(),
        forall|i: int|
            0 <= i < nodes.len() ==> (#[trigger] aggregation_triplets(nodes, mapping)[i]) == (
                i as usize,
                mapping[nodes[i]] as usize,
                1u64,
            ) && aggregation_triplets(nodes, mapping)[i].0 == i,
        forall|c: u64|
            assigns(mapping, c) ==> exists|i: int|
                0 <= i < nodes.len() && (#[trigger] aggregation_triplets(nodes, mapping)[i]).1
                    == c as usize,
{
    let entries = aggregation_triplets(nodes, mapping);
    assert forall|c: u64| assigns(mapping, c) implies exists|i: int|
        0 <= i < nodes.len() && (#[trigger] entries[i]).1 == c as usize by {
        let n = choose|n: u64| mapping.contains_key(n) && #[trigger] mapping[n] == c;
        assert(nodes.to_set().contains(n));
        let i = choose|i: int| 0 <= i < nodes.len() && nodes[i] == n;
        assert(entries[i].1 == c as usize);
    }
}

} // verus!
