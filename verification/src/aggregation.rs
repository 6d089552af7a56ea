//! The sparse 0/1 matrix that relates the nodes before merging to the merged
//! ones.

use nalgebra_sparse::CooMatrix;
use std::collections::{HashMap, HashSet};
use vstd::prelude::*;
use vstd::std_specs::hash::{spec_hash_map_len, spec_hash_set_len};
use vstd::std_specs::iter::IteratorSpec;

verus! {

broadcast use vstd::std_specs::hash::group_hash_axioms;

/// The coordinate-format sparse matrix of `nalgebra_sparse`, whose fields are
/// private: a value of it is carried through, and read by the two names below.
#[verifier::external_type_specification]
#[verifier::external_body]
#[verifier::reject_recursive_types(T)]
pub struct ExCooMatrix<T>(nalgebra_sparse::CooMatrix<T>);

/// The explicitly stored entries of `m` as (row, column, value), in the
/// order in which they were pushed.
pub uninterp spec fn coo_triplets(m: CooMatrix<u64>) -> Seq<(usize, usize, u64)>;

/// The numbers of rows and of columns that `m` was made with.
pub uninterp spec fn coo_shape(m: CooMatrix<u64>) -> (usize, usize);

/// `CooMatrix::new`: a matrix of the given shape with no stored entry.
#[verifier::external_body]
fn coo_new(nrows: usize, ncols: usize) -> (m: CooMatrix<u64>)
    ensures
        coo_shape(m) == (nrows, ncols),
        coo_triplets(m) == Seq::<(usize, usize, u64)>::empty(),
{
    CooMatrix::new(nrows, ncols)
}

/// `CooMatrix::push`: appends the entry `(i, j, v)` and keeps the shape and
/// the entries stored before. The method panics where `i` or `j` is outside
/// the shape, so the contract leaves that out.
#[verifier::external_body]
fn coo_push(m: &mut CooMatrix<u64>, i: usize, j: usize, v: u64)
    requires
        i < coo_shape(*old(m)).0,
        j < coo_shape(*old(m)).1,
    ensures
        coo_shape(*final(m)) == coo_shape(*old(m)),
        coo_triplets(*final(m)) == coo_triplets(*old(m)).push((i, j, v)),
{
    m.push(i, j, v)
}

/// Whether each of `nodes` has a new identifier in `mapping` that is below
/// the number of distinct new identifiers.
pub open spec fn covered(nodes: Seq<u64>, mapping: Map<u64, u64>) -> bool {
    forall|i: int|
        0 <= i < nodes.len() ==> mapping.contains_key(#[trigger] nodes[i]) && mapping[nodes[i]]
            < mapping.values().len()
}

/// One entry for each of `nodes`: in the row of its place in `nodes` and the
/// column of its new identifier, with value 1.
pub open spec fn aggregation_triplets(nodes: Seq<u64>, mapping: Map<u64, u64>) -> Seq<
    (usize, usize, u64),
> {
    Seq::new(nodes.len(), |i: int| (i as usize, mapping[nodes[i]] as usize, 1u64))
}

/// The number of distinct new identifiers in `mapping`.
pub fn merged_node_count(mapping: &HashMap<u64, u64>) -> (count: usize)
    ensures
        count == mapping@.values().len(),
{
    let mut distinct: HashSet<u64> = HashSet::new();
    for v in it: mapping.values()
        invariant
            it.seq() == mapping.values().remaining(),
            forall|x: u64|
                distinct@.contains(x) <==> exists|j: int|
                    0 <= j < it.index() && *#[trigger] it.seq()[j] == x,
    {
        distinct.insert(*v);
    }
    proof {
        let vs = mapping.values().remaining();
        assert forall|x: u64| distinct@.contains(x) <==> mapping@.values().contains(x) by {
            if distinct@.contains(x) {
                let j = choose|j: int| 0 <= j < vs.len() && *#[trigger] vs[j] == x;
                assert(vs.unref()[j] == x);
            }
            if vs.unref().contains(x) {
                let j = choose|j: int| 0 <= j < vs.unref().len() && vs.unref()[j] == x;
                assert(*vs[j] == x);
            }
        }
        assert(distinct@ =~= mapping@.values());
        assert(distinct@.len() == spec_hash_set_len(&distinct));
    }
    distinct.len()
}

/// Builds the aggregation matrix of `nodes` under `node_mapping`: one row for
/// each node before merging, in the order of `nodes`, one column for each merged
/// node, and a single 1 in each row, in the column of the node's new
/// identifier. There is no matrix where a node has no new identifier, or one
/// that is no column.
pub fn build_aggregation_matrix(nodes: &[u64], node_mapping: &HashMap<u64, u64>) -> (matrix:
    Option<CooMatrix<u64>>)
    ensures
        matrix is Some <==> covered(nodes@, node_mapping@),
        matrix is Some ==> coo_shape(matrix->Some_0) == (
            nodes@.len() as usize,
            node_mapping@.values().len() as usize,
        ) && coo_triplets(matrix->Some_0) == aggregation_triplets(nodes@, node_mapping@),
{
    let original_node_count = nodes.len();
    let new_node_count = merged_node_count(node_mapping);
    let mut mat = coo_new(original_node_count, new_node_count);
    let mut i: usize = 0;
    while i < nodes.len()
        invariant
            i <= nodes.len(),
            original_node_count == nodes@.len(),
            new_node_count == node_mapping@.values().len(),
            coo_shape(mat) == (original_node_count, new_node_count),
            covered(nodes@.take(i as int), node_mapping@),
            coo_triplets(mat) == aggregation_triplets(nodes@.take(i as int), node_mapping@),
        decreases nodes.len() - i,
    {
        let column = match node_mapping.get(&nodes[i]) {
            Some(id) => *id,
            None => {
                return None;
            },
        };
        if column >= new_node_count as u64 {
            return None;
        }
        coo_push(&mut mat, i, column as usize, 1);
        proof {
            assert(nodes@.take(i + 1) =~= nodes@.take(i as int).push(nodes@[i as int]));
            assert(aggregation_triplets(nodes@.take(i + 1), node_mapping@)
                =~= aggregation_triplets(nodes@.take(i as int), node_mapping@).push(
                (i, column as usize, 1u64),
            ));
        }
        i += 1;
    }
    proof {
        assert(nodes@.take(nodes@.len() as int) =~= nodes@);
    }
    Some(mat)
}

} // verus!
