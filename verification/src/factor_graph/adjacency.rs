//! The sparse adjacency that holds which variable leads to which.

use petgraph::csr::Csr;
use petgraph::visit::EdgeRef;
use petgraph::Directed;
use vstd::prelude::*;

verus! {

/// `petgraph::csr::Csr`, the sparse adjacency. Nothing is known of what is inside but
/// what `csr_rows` names.
#[verifier::external_type_specification]
#[verifier::external_body]
#[verifier::reject_recursive_types(N)]
#[verifier::reject_recursive_types(E)]
#[verifier::reject_recursive_types(Ty)]
#[verifier::reject_recursive_types(Ix)]
pub struct ExCsr<N, E, Ty, Ix>(Csr<N, E, Ty, Ix>);

/// `petgraph::Directed`, the mark of an adjacency whose edges have a direction.
#[verifier::external_type_specification]
#[verifier::external_body]
pub struct ExDirected(Directed);

/// What a sparse adjacency holds: one row for each node, in the order in which the nodes
/// were added, and in each row the edges that leave the node, each as the node it leads to
/// and its weight, in the order in which the adjacency hands them out.
pub uninterp spec fn csr_rows(c: Csr<(), usize, Directed, usize>) -> Seq<Seq<(usize, usize)>>;

/// Index of the first edge of `row` that leads to `target` or beyond; the length of `row`
/// where there is none.
pub open spec fn row_position(row: Seq<(usize, usize)>, target: usize) -> int
    decreases row.len(),
{
    if row.len() == 0 || row[0].0 >= target {
        0
    } else {
        1 + row_position(row.drop_first(), target)
    }
}

/// Whether an edge of `row` leads to `target`, for a row in ascending order.
pub open spec fn row_has(row: Seq<(usize, usize)>, target: usize) -> bool {
    let p = row_position(row, target);
    p < row.len() && row[p].0 == target
}

/// The edges of `row` lead to ever greater nodes.
pub open spec fn row_ascending(row: Seq<(usize, usize)>) -> bool {
    forall|i: int, j: int| 0 <= i < j < row.len() ==> (#[trigger] row[i]).0 < (#[trigger] row[j]).0
}

/// `petgraph::csr::Csr::new`: an adjacency without nodes.
#[verifier::external_body]
pub(crate) fn csr_new() -> (c: Csr<(), usize, Directed, usize>)
    ensures
        csr_rows(c) == Seq::<Seq<(usize, usize)>>::empty(),
{
    Csr::new()
}

/// `petgraph::csr::Csr::add_node`: appends a node that no edge leaves and returns its
/// index, the number of nodes before the call. The rows of the other nodes stay.
#[verifier::external_body]
pub(crate) fn csr_add_node(c: &mut Csr<(), usize, Directed, usize>) -> (index: usize)
    ensures
        index == csr_rows(*old(c)).len(),
        csr_rows(*final(c)) == csr_rows(*old(c)).push(Seq::empty()),
{
    c.add_node(())
}

/// `petgraph::csr::Csr::add_edge`: where no edge leads from `a` to `b` yet, puts one with
/// the given weight into the row of `a`, before the first edge that leads beyond `b`, and
/// returns `true`; where one does, changes nothing and returns `false`. It panics for
/// nodes that the adjacency does not have, and it searches the row as one in ascending
/// order.
#[verifier::external_body]
pub(crate) fn csr_add_edge(
    c: &mut Csr<(), usize, Directed, usize>,
    a: usize,
    b: usize,
    weight: usize,
) -> (added: bool)
    requires
        a < csr_rows(*old(c)).len(),
        b < csr_rows(*old(c)).len(),
        row_ascending(csr_rows(*old(c))[a as int]),
    ensures
        added == !row_has(csr_rows(*old(c))[a as int], b),
        added ==> csr_rows(*final(c)) == csr_rows(*old(c)).update(
            a as int,
            csr_rows(*old(c))[a as int].insert(
                row_position(csr_rows(*old(c))[a as int], b),
                (b, weight),
            ),
        ),
        !added ==> csr_rows(*final(c)) == csr_rows(*old(c)),
{
    c.add_edge(a, b, weight)
}

/// `petgraph::csr::Csr::edges`: the edges that leave `a`, each as the node it leads to and
/// its weight, in the order of the row. It panics for a node that the adjacency does not
/// have.
#[verifier::external_body]
pub(crate) fn csr_edges(c: &Csr<(), usize, Directed, usize>, a: usize) -> (row: Vec<(usize, usize)>)
    requires
        a < csr_rows(*c).len(),
    ensures
        row@ == csr_rows(*c)[a as int],
{
    c.edges(a).map(|edge| (edge.target(), *edge.weight())).collect()
}

/// In an ascending row, the position of `target` parts the edges that lead to lesser
/// nodes from those that lead to `target` or beyond.
pub proof fn lemma_row_position(row: Seq<(usize, usize)>, target: usize)
    requires
        row_ascending(row),
    ensures
        0 <= row_position(row, target) <= row.len(),
        forall|i: int| 0 <= i < row_position(row, target) ==> (#[trigger] row[i]).0 < target,
        forall|i: int|
            row_position(row, target) <= i < row.len() ==> (#[trigger] row[i]).0 >= target,
        row_has(row, target) <==> exists|i: int| 0 <= i < row.len() && (#[trigger] row[i]).0 == target,
    decreases row.len(),
{
    if row.len() == 0 || row[0].0 >= target {
        if row.len() > 0 {
            assert forall|i: int| 0 <= i < row.len() implies (#[trigger] row[i]).0 >= target by {
                if i > 0 {
                    assert(row[0].0 < row[i].0);
                }
            }
        }
    } else {
        let rest = row.drop_first();
        assert(row_ascending(rest)) by {
            assert forall|i: int, j: int| 0 <= i < j < rest.len() implies (#[trigger] rest[i]).0 < (
            #[trigger] rest[j]).0 by {
                assert(rest[i] == row[i + 1]);
                assert(rest[j] == row[j + 1]);
            }
        }
        lemma_row_position(rest, target);
        let p = row_position(rest, target);
        assert forall|i: int| 0 <= i < p + 1 implies (#[trigger] row[i]).0 < target by {
            if i > 0 {
                assert(row[i] == rest[i - 1]);
            }
        }
        assert forall|i: int| p + 1 <= i < row.len() implies (#[trigger] row[i]).0 >= target by {
            assert(row[i] == rest[i - 1]);
        }
        if p < rest.len() {
            assert(row[p + 1] == rest[p]);
        }
    }
}

/// Putting an edge to a node that a row does not lead to yet at that node's position
/// keeps the row ascending.
pub proof fn lemma_insert_ascending(row: Seq<(usize, usize)>, target: usize, weight: usize)
    requires
        row_ascending(row),
        !row_has(row, target),
    ensures
        row_ascending(row.insert(row_position(row, target), (target, weight))),
{
    lemma_row_position(row, target);
    let p = row_position(row, target);
    let next = row.insert(p, (target, weight));
    assert forall|i: int, j: int| 0 <= i < j < next.len() implies (#[trigger] next[i]).0 < (
    #[trigger] next[j]).0 by {
        if j < p {
            assert(next[i] == row[i] && next[j] == row[j]);
        } else if j == p {
            assert(next[i] == row[i]);
        } else if i < p {
            assert(next[i] == row[i] && next[j] == row[j - 1]);
        } else if i == p {
            assert(next[j] == row[j - 1]);
            assert(row[j - 1].0 >= target);
            if row[j - 1].0 == target {
                assert(row_has(row, target));
            }
        } else {
            assert(next[i] == row[i - 1] && next[j] == row[j - 1]);
        }
    }
}

} // verus!
