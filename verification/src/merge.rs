//! A disjoint-set structure over node identifiers, with path compression and
//! union by rank.

use std::collections::HashMap;
use vstd::prelude::*;
use vstd::set_lib::lemma_len_subset;
use vstd::std_specs::hash::spec_hash_map_len;

verus! {

broadcast use vstd::std_specs::hash::group_hash_axioms;

/// A union-find (disjoint set) structure for merging nodes.
///
/// `parent` maps each node to its parent in its tree (a root maps to itself),
/// `rank` maps each node to an upper bound of the height of its subtree.
#[derive(Debug, Clone)]
pub struct NodeMerge {
    pub parent: HashMap<u64, u64>,
    pub rank: HashMap<u64, u64>,
}

/// The node at which the parent chain that starts at `n` ends.
///
/// A link is followed only where it leads to a strictly higher rank, which is
/// what bounds the chain.
pub open spec fn root_from(parent: Map<u64, u64>, rank: Map<u64, u64>, n: u64) -> u64
    decreases u64::MAX - rank[n],
{
    if parent.contains_key(n) && parent[n] != n && rank[n] < rank[parent[n]] {
        root_from(parent, rank, parent[n])
    } else {
        n
    }
}

/// Whether `n` lies on the parent chain that starts at `from`, both ends
/// included.
pub open spec fn on_path(parent: Map<u64, u64>, rank: Map<u64, u64>, from: u64, n: u64) -> bool
    decreases u64::MAX - rank[from],
{
    from == n || (parent.contains_key(from) && parent[from] != from && rank[from]
        < rank[parent[from]] && on_path(parent, rank, parent[from], n))
}

/// The links after the chain from `node` has been compressed: each node on
/// the chain points straight at the root, and every other link is as before.
pub open spec fn compressed(parent: Map<u64, u64>, rank: Map<u64, u64>, node: u64) -> Map<
    u64,
    u64,
> {
    Map::new(
        |n: u64| parent.contains_key(n),
        |n: u64|
            if on_path(parent, rank, node, n) {
                root_from(parent, rank, node)
            } else {
                parent[n]
            },
    )
}

/// The nodes of `parent` that are not their own parent.
pub open spec fn attached(parent: Map<u64, u64>) -> Set<u64> {
    parent.dom().filter(|n: u64| parent[n] != n)
}

/// Every link stays among the known nodes and leads to a higher rank, and no
/// rank exceeds the number of attached nodes.
pub open spec fn forest(parent: Map<u64, u64>, rank: Map<u64, u64>) -> bool {
    &&& parent.dom().finite()
    &&& parent.dom() == rank.dom()
    &&& forall|n: u64|
        parent.contains_key(n) ==> parent.contains_key(#[trigger] parent[n]) && (parent[n] != n
            ==> rank[n] < rank[parent[n]])
    &&& forall|n: u64| parent.contains_key(n) ==> #[trigger] rank[n] <= attached(parent).len()
}

/// The root of a known node is known, is its own parent, and ranks no lower.
pub proof fn lemma_root(parent: Map<u64, u64>, rank: Map<u64, u64>, n: u64)
    requires
        forest(parent, rank),
        parent.contains_key(n),
    ensures
        parent.contains_key(root_from(parent, rank, n)),
        parent[root_from(parent, rank, n)] == root_from(parent, rank, n),
        rank[n] <= rank[root_from(parent, rank, n)],
        root_from(parent, rank, n) != n ==> rank[n] < rank[root_from(parent, rank, n)],
        root_from(parent, rank, n) == n <==> parent[n] == n,
    decreases u64::MAX - rank[n],
{
    if parent[n] != n {
        assert(parent.contains_key(parent[n]));
        lemma_root(parent, rank, parent[n]);
    }
}

/// A node on the chain from `from` is known and ranks no lower than `from`,
/// and higher unless it is `from` itself.
pub proof fn lemma_path_rank(parent: Map<u64, u64>, rank: Map<u64, u64>, from: u64, n: u64)
    requires
        forest(parent, rank),
        parent.contains_key(from),
        on_path(parent, rank, from, n),
    ensures
        parent.contains_key(n),
        rank[from] <= rank[n],
        n != from ==> rank[from] < rank[n],
    decreases u64::MAX - rank[from],
{
    if from != n {
        assert(parent.contains_key(parent[from]));
        lemma_path_rank(parent, rank, parent[from], n);
    }
}

/// The chain from `from` goes on from each of its nodes to that node's parent.
pub proof fn lemma_path_step(parent: Map<u64, u64>, rank: Map<u64, u64>, from: u64, c: u64)
    requires
        forest(parent, rank),
        parent.contains_key(from),
        on_path(parent, rank, from, c),
    ensures
        on_path(parent, rank, from, parent[c]),
    decreases u64::MAX - rank[from],
{
    if from != c {
        assert(parent.contains_key(parent[from]));
        lemma_path_step(parent, rank, parent[from], c);
    } else if parent[c] != c {
        assert(parent.contains_key(parent[c]));
        assert(on_path(parent, rank, parent[c], parent[c]));
    }
}

/// Pointing a node straight at its root changes no node's root.
pub proof fn lemma_compress(parent: Map<u64, u64>, rank: Map<u64, u64>, c: u64, n: u64)
    requires
        forest(parent, rank),
        parent.contains_key(c),
        parent.contains_key(n),
    ensures
        root_from(parent.insert(c, root_from(parent, rank, c)), rank, n) == root_from(
            parent,
            rank,
            n,
        ),
    decreases u64::MAX - rank[n],
{
    let r = root_from(parent, rank, c);
    let after = parent.insert(c, r);
    lemma_root(parent, rank, c);
    lemma_root(parent, rank, n);
    if n == c {
        if r != c {
            assert(after[r] == r);
            assert(root_from(after, rank, r) == r);
            assert(root_from(after, rank, c) == root_from(after, rank, r));
        } else {
            assert(after =~= parent);
        }
    } else if parent[n] != n {
        assert(parent.contains_key(parent[n]));
        lemma_compress(parent, rank, c, parent[n]);
        assert(after[n] == parent[n]);
    } else {
        assert(after[n] == n);
    }
}

/// Pointing a node straight at its root keeps the forest a forest.
pub proof fn lemma_compress_forest(parent: Map<u64, u64>, rank: Map<u64, u64>, c: u64)
    requires
        forest(parent, rank),
        parent.contains_key(c),
    ensures
        forest(parent.insert(c, root_from(parent, rank, c)), rank),
{
    let r = root_from(parent, rank, c);
    let after = parent.insert(c, r);
    lemma_root(parent, rank, c);
    assert(after.dom() =~= parent.dom());
    assert(attached(after) =~= attached(parent));
    assert forall|n: u64| after.contains_key(n) implies after.contains_key(#[trigger] after[n])
        && (after[n] != n ==> rank[n] < rank[after[n]]) by {
        assert(parent.contains_key(parent[n]));
    }
}

/// Hanging the root `r2` under another root `r1` sends every node whose root
/// was `r2` to `r1` and leaves the other roots as they were.
pub proof fn lemma_link(
    parent: Map<u64, u64>,
    rank: Map<u64, u64>,
    rank2: Map<u64, u64>,
    r1: u64,
    r2: u64,
    n: u64,
)
    requires
        forest(parent, rank),
        parent.contains_key(r1),
        parent.contains_key(r2),
        parent.contains_key(n),
        parent[r1] == r1,
        parent[r2] == r2,
        r1 != r2,
        rank2.dom() == rank.dom(),
        forall|m: u64| m != r1 ==> rank2[m] == rank[m],
        rank[r1] <= rank2[r1],
        rank2[r2] < rank2[r1],
    ensures
        root_from(parent.insert(r2, r1), rank2, n) == if root_from(parent, rank, n) == r2 {
            r1
        } else {
            root_from(parent, rank, n)
        },
    decreases u64::MAX - rank[n],
{
    let after = parent.insert(r2, r1);
    lemma_root(parent, rank, n);
    if n == r2 {
        assert(after[r1] == r1);
        assert(root_from(after, rank2, r1) == r1);
        assert(root_from(after, rank2, r2) == root_from(after, rank2, r1));
    } else if parent[n] != n {
        assert(parent.contains_key(parent[n]));
        lemma_link(parent, rank, rank2, r1, r2, parent[n]);
        assert(after[n] == parent[n]);
        assert(rank2[n] == rank[n]);
        assert(rank[parent[n]] <= rank2[parent[n]]);
    } else {
        assert(after[n] == n);
    }
}

/// Hanging one root under another keeps the forest a forest.
pub proof fn lemma_link_forest(
    parent: Map<u64, u64>,
    rank: Map<u64, u64>,
    rank2: Map<u64, u64>,
    r1: u64,
    r2: u64,
)
    requires
        forest(parent, rank),
        parent.contains_key(r1),
        parent.contains_key(r2),
        parent[r1] == r1,
        parent[r2] == r2,
        r1 != r2,
        rank2.dom() == rank.dom(),
        forall|m: u64| m != r1 ==> rank2[m] == rank[m],
        rank[r1] <= rank2[r1] <= rank[r1] + 1,
        rank2[r2] < rank2[r1],
    ensures
        forest(parent.insert(r2, r1), rank2),
        attached(parent.insert(r2, r1)).len() == attached(parent).len() + 1,
{
    let after = parent.insert(r2, r1);
    assert(after.dom() =~= parent.dom());
    assert(attached(parent).finite()) by {
        lemma_len_subset(attached(parent), parent.dom());
    }
    assert(attached(after) =~= attached(parent).insert(r2));
    assert(!attached(parent).contains(r2));
    assert forall|n: u64| after.contains_key(n) implies after.contains_key(#[trigger] after[n])
        && (after[n] != n ==> rank2[n] < rank2[after[n]]) by {
        if n != r2 {
            assert(after[n] == parent[n]);
            assert(parent.contains_key(parent[n]));
        }
    }
    assert forall|n: u64| after.contains_key(n) implies #[trigger] rank2[n] <= attached(
        after,
    ).len() by {
        assert(rank[n] <= attached(parent).len());
    }
}

/// A root's rank is below the number of known nodes.
pub proof fn lemma_rank_below_len(parent: Map<u64, u64>, rank: Map<u64, u64>, r: u64)
    requires
        forest(parent, rank),
        parent.contains_key(r),
        parent[r] == r,
    ensures
        rank[r] < parent.dom().len(),
{
    let rest = parent.dom().remove(r);
    assert(attached(parent).subset_of(rest));
    lemma_len_subset(attached(parent), rest);
}

impl Default for NodeMerge {
    /// The structure over no node.
    fn default() -> (merger: Self)
        ensures
            merger.wf(),
            merger.nodes() == Set::<u64>::empty(),
    {
        let merger = NodeMerge { parent: HashMap::new(), rank: HashMap::new() };
        proof {
            assert(merger.parent@.dom() =~= Set::<u64>::empty());
            assert(merger.rank@.dom() =~= Set::<u64>::empty());
        }
        merger
    }
}

impl NodeMerge {
    /// The structure's links form a forest over its nodes.
    pub open spec fn wf(&self) -> bool {
        forest(self.parent@, self.rank@)
    }

    /// The nodes that the structure knows.
    pub open spec fn nodes(&self) -> Set<u64> {
        self.parent@.dom()
    }

    /// The representative of the class of `n`.
    pub open spec fn root(&self, n: u64) -> u64 {
        root_from(self.parent@, self.rank@, n)
    }

    /// Whether `a` and `b` are in the same class.
    pub open spec fn same_class(&self, a: u64, b: u64) -> bool {
        self.root(a) == self.root(b)
    }

    /// Whether `x` and `y` are in the same class once the classes of `a` and
    /// `b` have been merged.
    pub open spec fn joined(&self, a: u64, b: u64, x: u64, y: u64) -> bool {
        ||| self.same_class(x, y)
        ||| (self.same_class(x, a) && self.same_class(y, b))
        ||| (self.same_class(x, b) && self.same_class(y, a))
    }

    /// The representative that the merged class of `a` and `b` gets: of the
    /// two representatives the one of higher rank, and that of `a` at a tie.
    pub open spec fn winner(&self, a: u64, b: u64) -> u64 {
        if self.rank@[self.root(a)] < self.rank@[self.root(b)] {
            self.root(b)
        } else {
            self.root(a)
        }
    }

    /// The ranks after the classes of `a` and `b` have been merged: where the
    /// two were apart and their representatives tied, the rank of the
    /// representative of `a` is one higher, and nothing else changes.
    pub open spec fn ranks_after(&self, a: u64, b: u64) -> Map<u64, u64> {
        if !self.same_class(a, b) && self.rank@[self.root(a)] == self.rank@[self.root(b)] {
            self.rank@.insert(self.root(a), (self.rank@[self.root(a)] + 1) as u64)
        } else {
            self.rank@
        }
    }

    /// The links after the classes of `a` and `b` have been merged: the chains
    /// from `a` and from `b` are compressed, and where the two were apart the
    /// representative that loses points at the one that wins.
    pub open spec fn links_after(&self, a: u64, b: u64) -> Map<u64, u64> {
        let flat = compressed(compressed(self.parent@, self.rank@, a), self.rank@, b);
        if self.same_class(a, b) {
            flat
        } else if self.winner(a, b) == self.root(a) {
            flat.insert(self.root(b), self.root(a))
        } else {
            flat.insert(self.root(a), self.root(b))
        }
    }

    /// Whether the classes of `self` are those of `before` with the classes of
    /// `a` and `b` merged into one, over the same nodes.
    pub open spec fn merges(&self, before: NodeMerge, a: u64, b: u64) -> bool {
        &&& self.wf()
        &&& self.nodes() == before.nodes()
        &&& forall|x: u64, y: u64|
            before.nodes().contains(x) && before.nodes().contains(y) ==> (#[trigger] self.same_class(
                x,
                y,
            ) <==> before.joined(a, b, x, y))
    }

    /// Creates a structure in which each of `nodes` is a class of its own,
    /// with rank 0. A node that occurs twice is entered once.
    pub fn new(nodes: &[u64]) -> (merger: Self)
        ensures
            merger.wf(),
            merger.nodes() == nodes@.to_set(),
            forall|n: u64| #[trigger]
                merger.nodes().contains(n) ==> merger.parent@[n] == n && merger.rank@[n] == 0
                    && merger.root(n) == n,
    {
        let mut parent: HashMap<u64, u64> = HashMap::new();
        let mut rank: HashMap<u64, u64> = HashMap::new();
        let mut i: usize = 0;
        while i < nodes.len()
            invariant
                i <= nodes.len(),
                parent@.dom() == rank@.dom(),
                parent@.dom() =~= nodes@.take(i as int).to_set(),
                forall|n: u64| #[trigger]
                    parent@.contains_key(n) ==> parent@[n] == n && rank@[n] == 0,
            decreases nodes.len() - i,
        {
            let node = nodes[i];
            parent.insert(node, node);
            rank.insert(node, 0);
            proof {
                assert(nodes@.take(i + 1) =~= nodes@.take(i as int).push(node));
                assert(nodes@.take(i + 1).to_set() =~= nodes@.take(i as int).to_set().insert(
                    node,
                )) by {
                    assert forall|x: u64|
                        nodes@.take(i + 1).to_set().contains(x) <==> nodes@.take(
                            i as int,
                        ).to_set().insert(node).contains(x) by {
                        if nodes@.take(i as int).contains(x) {
                            let j = choose|j: int|
                                0 <= j < i && nodes@.take(i as int)[j] == x;
                            assert(nodes@.take(i + 1)[j] == x);
                        }
                        if x == node {
                            assert(nodes@.take(i + 1)[i as int] == x);
                        }
                    }
                }
            }
            i += 1;
        }
        proof {
            assert(nodes@.take(nodes.len() as int) =~= nodes@);
            assert(attached(parent@) =~= Set::<u64>::empty());
        }
        NodeMerge { parent, rank }
    }

    /// The representative of the class of `node`, without changing any link.
    pub fn root_of(&self, node: u64) -> (root: u64)
        requires
            self.wf(),
            self.nodes().contains(node),
        ensures
            root == self.root(node),
            self.nodes().contains(root),
    {
        let mut root = node;
        let mut up = *self.parent.get(&root).unwrap();
        while up != root
            invariant
                self.wf(),
                self.parent@.contains_key(root),
                up == self.parent@[root],
                self.root(root) == self.root(node),
            decreases u64::MAX - self.rank@[root],
        {
            root = up;
            up = *self.parent.get(&root).unwrap();
        }
        root
    }

    /// Finds the representative of the class of `node`, and points every node
    /// on the way at it. No node changes its class, and no rank changes.
    pub fn find(&mut self, node: u64) -> (root: u64)
        requires
            old(self).wf(),
            old(self).nodes().contains(node),
        ensures
            final(self).wf(),
            final(self).nodes() == old(self).nodes(),
            final(self).rank@ == old(self).rank@,
            root == old(self).root(node),
            final(self).parent@[root] == root,
            final(self).parent@[node] == root,
            final(self).parent@ == compressed(old(self).parent@, old(self).rank@, node),
            forall|n: u64|
                old(self).nodes().contains(n) ==> #[trigger] final(self).root(n) == old(self).root(
                    n,
                ),
    {
        let ghost parent0 = self.parent@;
        let ghost rank0 = self.rank@;
        let root = self.root_of(node);
        proof {
            lemma_root(parent0, rank0, node);
        }
        let mut current = node;
        let mut up = *self.parent.get(&current).unwrap();
        while up != root
            invariant
                self.wf(),
                self.parent@.dom() == parent0.dom(),
                self.rank@ == rank0,
                self.parent@.contains_key(current),
                self.parent@.contains_key(node),
                up == self.parent@[current],
                self.root(current) == root,
                self.parent@[root] == root,
                self.parent@.contains_key(root),
                current == node || self.parent@[node] == root,
                forest(parent0, rank0),
                on_path(parent0, rank0, node, current),
                forall|n: u64|
                    parent0.contains_key(n) ==> #[trigger] self.parent@[n] == (if on_path(
                        parent0,
                        rank0,
                        node,
                        n,
                    ) && !on_path(parent0, rank0, current, n) {
                        root
                    } else {
                        parent0[n]
                    }),
                forall|n: u64|
                    parent0.contains_key(n) ==> #[trigger] self.root(n) == root_from(
                        parent0,
                        rank0,
                        n,
                    ),
            decreases u64::MAX - self.rank@[current],
        {
            let ghost before = self.parent@;
            proof {
                lemma_root(before, rank0, current);
                lemma_compress_forest(before, rank0, current);
                assert forall|n: u64| parent0.contains_key(n) implies root_from(
                    before.insert(current, root),
                    rank0,
                    n,
                ) == root_from(parent0, rank0, n) by {
                    lemma_compress(before, rank0, current, n);
                    assert(self.root(n) == root_from(parent0, rank0, n));
                }
                assert(before.contains_key(up));
                assert(root_from(before, rank0, current) == root_from(before, rank0, up));
                lemma_compress(before, rank0, current, up);
                assert(up == parent0[current]);
                assert(parent0.contains_key(current));
                lemma_path_step(parent0, rank0, node, current);
                assert forall|n: u64| parent0.contains_key(n) implies #[trigger] before.insert(
                    current,
                    root,
                )[n] == (if on_path(parent0, rank0, node, n) && !on_path(parent0, rank0, up, n) {
                    root
                } else {
                    parent0[n]
                }) by {
                    if on_path(parent0, rank0, up, n) {
                        lemma_path_rank(parent0, rank0, up, n);
                    }
                }
            }
            self.parent.insert(current, root);
            current = up;
            up = *self.parent.get(&current).unwrap();
        }
        proof {
            assert forall|n: u64| parent0.contains_key(n) implies #[trigger] self.parent@[n] == (
            if on_path(parent0, rank0, node, n) {
                root
            } else {
                parent0[n]
            }) by {
                if on_path(parent0, rank0, current, n) {
                    lemma_path_step(parent0, rank0, node, current);
                    if n != current {
                        assert(on_path(parent0, rank0, root, n));
                    }
                }
            }
            assert(self.parent@ =~= compressed(parent0, rank0, node));
        }
        root
    }

    /// Merges the classes of `node1` and `node2`. Two nodes are in one class
    /// afterwards exactly if they were before, or if one was with `node1` and
    /// the other with `node2`. Where the two already share a class, no class
    /// and no rank changes.
    pub fn union(&mut self, node1: u64, node2: u64)
        requires
            old(self).wf(),
            old(self).nodes().contains(node1),
            old(self).nodes().contains(node2),
        ensures
            final(self).merges(*old(self), node1, node2),
            forall|n: u64|
                old(self).nodes().contains(n) ==> #[trigger] final(self).root(n) == (if old(
                    self,
                ).same_class(n, node1) || old(self).same_class(n, node2) {
                    old(self).winner(node1, node2)
                } else {
                    old(self).root(n)
                }),
            final(self).rank@ == old(self).ranks_after(node1, node2),
            final(self).parent@ == old(self).links_after(node1, node2),
            old(self).same_class(node1, node2) ==> final(self).rank@ == old(self).rank@ && forall|
                n: u64,
            |
                old(self).nodes().contains(n) ==> #[trigger] final(self).root(n) == old(self).root(
                    n,
                ),
    {
        let ghost parent0 = self.parent@;
        let ghost rank0 = self.rank@;
        let root1 = self.find(node1);
        let root2 = self.find(node2);
        let ghost parent1 = self.parent@;
        assert(root1 == root_from(parent0, rank0, node1));
        assert(root2 == root_from(parent0, rank0, node2)) by {
            assert(self.root(node2) == root_from(parent0, rank0, node2));
        }
        proof {
            lemma_root(parent0, rank0, node1);
            assert(self.root(root1) == root_from(parent0, rank0, root1));
            lemma_root(parent1, rank0, root1);
        }
        if root1 != root2 {
            let rank1 = *self.rank.get(&root1).unwrap();
            let rank2 = *self.rank.get(&root2).unwrap();
            if rank1 < rank2 {
                proof {
                    lemma_link_forest(parent1, rank0, rank0, root2, root1);
                    assert forall|n: u64| parent0.contains_key(n) implies root_from(
                        parent1.insert(root1, root2),
                        rank0,
                        n,
                    ) == (if root_from(parent0, rank0, n) == root1 {
                        root2
                    } else {
                        root_from(parent0, rank0, n)
                    }) by {
                        lemma_link(parent1, rank0, rank0, root2, root1, n);
                        assert(self.root(n) == root_from(parent0, rank0, n));
                    }
                }
                self.parent.insert(root1, root2);
            } else {
                let ghost rank_after = if rank1 == rank2 {
                    rank0.insert(root1, (rank1 + 1) as u64)
                } else {
                    rank0
                };
                proof {
                    lemma_rank_below_len(parent1, rank0, root1);
                    assert(parent1.dom().len() == spec_hash_map_len(&self.parent));
                    assert(rank_after.dom() =~= rank0.dom());
                    lemma_link_forest(parent1, rank0, rank_after, root1, root2);
                    assert forall|n: u64| parent0.contains_key(n) implies root_from(
                        parent1.insert(root2, root1),
                        rank_after,
                        n,
                    ) == (if root_from(parent0, rank0, n) == root2 {
                        root1
                    } else {
                        root_from(parent0, rank0, n)
                    }) by {
                        lemma_link(parent1, rank0, rank_after, root1, root2, n);
                        assert(self.root(n) == root_from(parent0, rank0, n));
                    }
                }
                self.parent.insert(root2, root1);
                if rank1 == rank2 {
                    self.rank.insert(root1, rank1 + 1);
                }
                assert(self.rank@ =~= rank_after);
            }
        }
    }
}

} // verus!
