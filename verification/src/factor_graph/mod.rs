//! The factor graph: variables, the factors between them, and the place of each variable in
//! the linear system.

use crate::factor_graph::adjacency::{
    csr_add_edge, csr_add_node, csr_edges, csr_new, csr_rows, lemma_insert_ascending,
    lemma_row_position, row_ascending, row_has, row_position,
};
use crate::factor_graph::factor::{Factor, FactorView};
use crate::factor_graph::variable::{
    lemma_variable_of, variable_of, FixedType, Variable, VariableType,
};
use std::ops::Range;
use petgraph::csr::Csr;
use petgraph::Directed;
use std::collections::HashMap;
use vstd::prelude::*;

pub mod adjacency;
pub mod factor;
pub mod variable;

verus! {

/// The factors that lead from one variable to another, in the order in which they were
/// added, with the index of the variable that they lead to.
pub type Group = (usize, Seq<FactorView>);

/// For each variable, in the order of the variables, the groups of factors that leave it.
pub type Adjacency = Seq<Seq<Group>>;

/// A factor graph: variables in the order in which they were added, and between them
/// factors, any number from one variable to another.
pub struct FactorGraph {
    /// Which variable leads to which. The weight of an edge is the index of its factors in
    /// `bundles`.
    csr: Csr<(), usize, Directed, usize>,
    /// For each edge of `csr`, the factors that lie on it.
    bundles: Vec<Vec<Factor>>,
    /// The variables, each at its index.
    variables: Vec<Variable>,
    /// Map from the identifiers that the graph's source gave to indices into `variables`.
    custom_to_csr_id_map: HashMap<usize, usize>,
    /// The number of rows of the linear system: the sum of the local dimensions of the
    /// variables that are not fixed.
    matrix_dim: usize,
}

/// A factor with the indices of the variable that it leaves and of the one that it leads
/// to.
pub type Link = (usize, usize, FactorView);

/// The first `count` factors of a group that leaves the variable at `source`.
pub open spec fn group_links(source: usize, group: Group, count: int) -> Seq<Link>
    decreases count,
{
    if count <= 0 {
        Seq::empty()
    } else {
        group_links(source, group, count - 1).push((source, group.0, group.1[count - 1]))
    }
}

/// The factors of the first `count` groups that leave the variable at `source`.
pub open spec fn row_links(source: usize, row: Seq<Group>, count: int) -> Seq<Link>
    decreases count,
{
    if count <= 0 {
        Seq::empty()
    } else {
        row_links(source, row, count - 1) + group_links(
            source,
            row[count - 1],
            row[count - 1].1.len() as int,
        )
    }
}

/// The factors that leave the first `count` variables.
pub open spec fn links_upto(adjacency: Adjacency, count: int) -> Seq<Link>
    decreases count,
{
    if count <= 0 {
        Seq::empty()
    } else {
        links_upto(adjacency, count - 1) + row_links(
            (count - 1) as usize,
            adjacency[count - 1],
            adjacency[count - 1].len() as int,
        )
    }
}

/// The identifiers of those of the first `count` variables that are fixed, in the order
/// of the variables.
pub open spec fn fixed_upto(variables: Seq<Variable>, count: int) -> Seq<usize>
    decreases count,
{
    if count <= 0 {
        Seq::empty()
    } else if variables[count - 1].fixed_type().is_fixed() {
        fixed_upto(variables, count - 1).push(variables[count - 1].id())
    } else {
        fixed_upto(variables, count - 1)
    }
}

/// What a factor graph holds.
#[verifier::ext_equal]
pub struct GraphView {
    /// The variables, in the order in which they were added.
    pub variables: Seq<Variable>,
    /// The factors, by the variable that each leaves.
    pub adjacency: Adjacency,
    /// The number of rows of the linear system.
    pub dim: usize,
    /// The index of each variable, by its identifier.
    pub ids: Map<usize, usize>,
}

/// The place in a linear system of `dim` rows that the next variable gets.
pub open spec fn next_place(dim: usize, kind: VariableType, fixed: bool) -> FixedType {
    if fixed {
        FixedType::Fixed
    } else {
        FixedType::NonFixed(
            Range { start: dim, end: (dim + kind.spec_local_dim()) as usize },
        )
    }
}

/// The local dimension of a variable that is not fixed, and nothing for one that is.
pub open spec fn owned_dim(variable: Variable) -> int {
    if variable.fixed_type() is Fixed {
        0
    } else {
        variable.kind().spec_local_dim() as int
    }
}

/// Number of rows of the linear system that the first `count` variables own together.
pub open spec fn offset(variables: Seq<Variable>, count: int) -> int
    decreases count,
{
    if count <= 0 {
        0
    } else {
        offset(variables, count - 1) + owned_dim(variables[count - 1])
    }
}

/// The variable at `index`, if it is not fixed, owns the rows that follow those of the
/// variables before it, as many as its local dimension.
pub open spec fn placed(variables: Seq<Variable>, index: int) -> bool {
    let variable = variables[index];
    variable.fixed_type() is Fixed || (variable.fixed_type().start() == offset(variables, index)
        && variable.fixed_type().end() == offset(variables, index + 1))
}

/// Exactly the variables that are not fixed own rows, one after the other in the order of
/// the variables, and together all `dim` of them.
pub open spec fn layout_ok(variables: Seq<Variable>, dim: int) -> bool {
    &&& dim == offset(variables, variables.len() as int)
    &&& forall|i: int| 0 <= i < variables.len() ==> placed(variables, i)
}

/// The map leads from each variable's identifier to its index, and from nothing else.
pub open spec fn ids_ok(variables: Seq<Variable>, ids: Map<usize, usize>) -> bool {
    &&& forall|i: int|
        0 <= i < variables.len() ==> ids.contains_key((#[trigger] variables[i]).id())
            && ids[variables[i].id()] == i
    &&& forall|id: usize| #[trigger]
        ids.contains_key(id) ==> ids[id] < variables.len() && variables[ids[id] as int].id() == id
}

/// A factor may lead from the variable at `source` to the one at `target`.
pub open spec fn factor_ok(
    variables: Seq<Variable>,
    source: int,
    target: int,
    factor: FactorView,
) -> bool {
    &&& 0 <= source < variables.len()
    &&& 0 <= target < variables.len()
    &&& factor.wf()
    &&& factor.joins(variables[source].kind(), variables[target].kind())
    &&& factor.factor_type.spec_is_prior() ==> source == target
}

/// A group that leaves the variable at `source` is not empty and holds only factors that
/// may lead to its target.
pub open spec fn group_ok(variables: Seq<Variable>, source: int, group: Group) -> bool {
    &&& group.1.len() > 0
    &&& forall|k: int|
        0 <= k < group.1.len() ==> factor_ok(variables, source, group.0 as int, #[trigger] group.1[k])
}

/// The groups of a row lead to ever greater variables.
pub open spec fn groups_ascending(row: Seq<Group>) -> bool {
    forall|i: int, j: int| 0 <= i < j < row.len() ==> (#[trigger] row[i]).0 < (#[trigger] row[j]).0
}

/// Each variable has a row, and each row holds sound groups in ascending order.
pub open spec fn edges_ok(variables: Seq<Variable>, adjacency: Adjacency) -> bool {
    &&& adjacency.len() == variables.len()
    &&& forall|a: int| 0 <= a < adjacency.len() ==> groups_ascending(#[trigger] adjacency[a])
    &&& forall|a: int, i: int|
        0 <= a < adjacency.len() && 0 <= i < adjacency[a].len() ==> group_ok(
            variables,
            a,
            #[trigger] adjacency[a][i],
        )
}

/// Index of the first group of `row` that leads to `target` or beyond; the length of
/// `row` where there is none.
pub open spec fn group_position(row: Seq<Group>, target: usize) -> int
    decreases row.len(),
{
    if row.len() == 0 || row[0].0 >= target {
        0
    } else {
        1 + group_position(row.drop_first(), target)
    }
}

/// The row with one more factor to `target`: behind the factors that lead there already,
/// or, where there is none, as a group of its own that keeps the row ascending.
pub open spec fn insert_into_row(row: Seq<Group>, target: usize, factor: FactorView) -> Seq<Group> {
    let p = group_position(row, target);
    if p < row.len() && row[p].0 == target {
        row.update(p, (target, row[p].1.push(factor)))
    } else {
        row.insert(p, (target, seq![factor]))
    }
}

/// The adjacency with one more factor from `source` to `target`.
pub open spec fn insert_factor(
    adjacency: Adjacency,
    source: int,
    target: usize,
    factor: FactorView,
) -> Adjacency {
    adjacency.update(source, insert_into_row(adjacency[source], target, factor))
}

/// What the factors of one edge hold.
pub open spec fn bundle_view(bundle: Vec<Factor>) -> Seq<FactorView> {
    bundle@.map_values(|factor: Factor| factor@)
}

/// The groups that a row of edges stands for, each edge's weight being the index of its
/// factors.
pub open spec fn row_groups(row: Seq<(usize, usize)>, bundles: Seq<Vec<Factor>>) -> Seq<Group> {
    Seq::new(row.len(), |i: int| (row[i].0, bundle_view(bundles[row[i].1 as int])))
}

/// The adjacency that rows of edges stand for.
pub open spec fn rows_adjacency(rows: Seq<Seq<(usize, usize)>>, bundles: Seq<Vec<Factor>>) -> Adjacency {
    Seq::new(rows.len(), |a: int| row_groups(rows[a], bundles))
}

/// Each edge has factors of its own, and each row is in ascending order.
pub open spec fn storage_ok(rows: Seq<Seq<(usize, usize)>>, bundles: Seq<Vec<Factor>>) -> bool {
    &&& forall|a: int| 0 <= a < rows.len() ==> row_ascending(#[trigger] rows[a])
    &&& forall|a: int, i: int|
        0 <= a < rows.len() && 0 <= i < rows[a].len() ==> (#[trigger] rows[a][i]).1 < bundles.len()
    &&& forall|a: int, i: int, b: int, j: int|
        0 <= a < rows.len() && 0 <= i < rows[a].len() && 0 <= b < rows.len() && 0 <= j
            < rows[b].len() && (#[trigger] rows[a][i]).1 == (#[trigger] rows[b][j]).1 ==> a == b && i
            == j
}

/// Why a variable or a factor cannot enter a graph.
#[derive(Debug, Clone, Copy, PartialEq, Eq, Structural)]
pub enum GraphError {
    /// A variable with this identifier is in the graph already.
    DuplicateId,
    /// The value has not as many scalars as the variable's kind asks for.
    ContentLength,
    /// The linear system would have more rows than the machine can count.
    TooLarge,
    /// The graph has no variable at this index.
    UnknownVariable,
    /// The measurement or the information matrix has not the size that the factor's kind
    /// asks for.
    FactorShape,
    /// The factor connects variables of kinds that it is not made for.
    KindMismatch,
}

/// Gives a variable its place in the linear system: none if it is fixed, else the next
/// `added_dim` rows behind the `dim` that are taken, which it adds to `dim`.
pub fn add_var_to_matrix(dim: &mut usize, added_dim: usize, fixed: bool) -> (fixed_type: FixedType)
    requires
        !fixed ==> *old(dim) + added_dim <= usize::MAX,
    ensures
        fixed ==> fixed_type is Fixed && *final(dim) == *old(dim),
        !fixed ==> fixed_type is NonFixed && fixed_type.start() == *old(dim) && fixed_type.end()
            == *old(dim) + added_dim && *final(dim) == *old(dim) + added_dim,
{
    if fixed {
        FixedType::Fixed
    } else {
        *dim += added_dim;
        FixedType::NonFixed(*dim - added_dim..*dim)
    }
}

/// What `add_variable` answers: the first of its errors that applies, if one does.
pub open spec fn variable_error(
    variables: Seq<Variable>,
    ids: Map<usize, usize>,
    dim: usize,
    kind: VariableType,
    id: usize,
    content: Seq<u64>,
    fixed: bool,
) -> Option<GraphError> {
    if ids.contains_key(id) {
        Some(GraphError::DuplicateId)
    } else if content.len() != kind.spec_content_len() {
        Some(GraphError::ContentLength)
    } else if !fixed && dim + kind.spec_local_dim() > usize::MAX {
        Some(GraphError::TooLarge)
    } else {
        None
    }
}

/// What `add_factor` answers: the first of its errors that applies, if one does.
pub open spec fn factor_error(
    variables: Seq<Variable>,
    source: usize,
    target: usize,
    factor: FactorView,
) -> Option<GraphError> {
    if source >= variables.len() || target >= variables.len() {
        Some(GraphError::UnknownVariable)
    } else if !factor.wf() {
        Some(GraphError::FactorShape)
    } else if !factor.joins(variables[source as int].kind(), variables[target as int].kind()) || (
    factor.factor_type.spec_is_prior() && source != target) {
        Some(GraphError::KindMismatch)
    } else {
        None
    }
}

/// The offset of a variable depends only on which of the variables before it are fixed,
/// and on their kinds.
pub proof fn lemma_offset_same(first: Seq<Variable>, second: Seq<Variable>, count: int)
    requires
        forall|i: int| 0 <= i < count ==> owned_dim(#[trigger] first[i]) == owned_dim(second[i]),
    ensures
        offset(first, count) == offset(second, count),
    decreases count,
{
    if count > 0 {
        lemma_offset_same(first, second, count - 1);
    }
}

/// Offsets do not decrease along the variables.
pub proof fn lemma_offset_monotonic(variables: Seq<Variable>, i: int, j: int)
    requires
        i <= j,
    ensures
        0 <= offset(variables, i) <= offset(variables, j),
    decreases j - i + (if i > 0 { i } else { 0 }),
{
    if i > 0 && i == j {
        lemma_offset_monotonic(variables, i - 1, i - 1);
    } else if i < j {
        lemma_offset_monotonic(variables, i, j - 1);
    }
}

/// Two variables that differ in their values at most.
pub open spec fn same_place(first: Variable, second: Variable) -> bool {
    &&& first.id() == second.id()
    &&& first.kind() == second.kind()
    &&& first.fixed_type() == second.fixed_type()
}

/// Two lists of variables that differ in the variables' values at most.
pub open spec fn same_places(first: Seq<Variable>, second: Seq<Variable>) -> bool {
    &&& first.len() == second.len()
    &&& forall|i: int| 0 <= i < first.len() ==> same_place(#[trigger] first[i], second[i])
}

/// What holds of a graph's layout, identifiers and factors does not depend on the values
/// of its variables.
pub proof fn lemma_same_places(
    before: Seq<Variable>,
    after: Seq<Variable>,
    dim: int,
    ids: Map<usize, usize>,
    adjacency: Adjacency,
)
    requires
        same_places(after, before),
    ensures
        layout_ok(before, dim) ==> layout_ok(after, dim),
        ids_ok(before, ids) ==> ids_ok(after, ids),
        edges_ok(before, adjacency) ==> edges_ok(after, adjacency),
{
    assert forall|i: int| 0 <= i <= before.len() implies offset(after, i) == offset(before, i) by {
        assert forall|j: int| 0 <= j < i implies owned_dim(#[trigger] after[j]) == owned_dim(
            before[j],
        ) by {
            assert(same_place(after[j], before[j]));
        }
        lemma_offset_same(after, before, i);
    }
    if layout_ok(before, dim) {
        assert forall|i: int| 0 <= i < after.len() implies placed(after, i) by {
            assert(placed(before, i));
            assert(same_place(after[i], before[i]));
        }
    }
    if ids_ok(before, ids) {
        assert forall|i: int| 0 <= i < after.len() implies ids.contains_key(
            (#[trigger] after[i]).id(),
        ) && ids[after[i].id()] == i by {
            assert(same_place(after[i], before[i]));
            assert(ids.contains_key(before[i].id()));
        }
        assert forall|id: usize| #[trigger] ids.contains_key(id) implies ids[id] < after.len()
            && after[ids[id] as int].id() == id by {
            assert(same_place(after[ids[id] as int], before[ids[id] as int]));
        }
    }
    if edges_ok(before, adjacency) {
        assert forall|a: int, i: int|
            0 <= a < adjacency.len() && 0 <= i < adjacency[a].len() implies group_ok(
            after,
            a,
            #[trigger] adjacency[a][i],
        ) by {
            let group = adjacency[a][i];
            assert(group_ok(before, a, group));
            assert forall|k: int| 0 <= k < group.1.len() implies factor_ok(
                after,
                a,
                group.0 as int,
                #[trigger] group.1[k],
            ) by {
                assert(factor_ok(before, a, group.0 as int, group.1[k]));
                assert(same_place(after[a], before[a]));
                assert(same_place(after[group.0 as int], before[group.0 as int]));
            }
        }
    }
}

/// A variable that is not fixed owns as many rows as its local dimension, all of them
/// rows of the linear system.
pub proof fn lemma_range_within(variables: Seq<Variable>, dim: int, index: int)
    requires
        layout_ok(variables, dim),
        0 <= index < variables.len(),
        !variables[index].fixed_type().is_fixed(),
    ensures
        0 <= variables[index].fixed_type().start(),
        variables[index].fixed_type().end() == variables[index].fixed_type().start()
            + variables[index].kind().spec_local_dim(),
        variables[index].fixed_type().end() <= dim,
{
    assert(placed(variables, index));
    lemma_offset_monotonic(variables, 0, index);
    lemma_offset_monotonic(variables, index + 1, variables.len() as int);
}

/// No row of the linear system belongs to two variables: of two variables that are not
/// fixed, the rows of the earlier end where the rows of the later begin, or before.
pub proof fn lemma_ranges_disjoint(variables: Seq<Variable>, dim: int, first: int, second: int)
    requires
        layout_ok(variables, dim),
        0 <= first < second < variables.len(),
        !variables[first].fixed_type().is_fixed(),
        !variables[second].fixed_type().is_fixed(),
    ensures
        variables[first].fixed_type().end() <= variables[second].fixed_type().start(),
{
    assert(placed(variables, first));
    assert(placed(variables, second));
    lemma_offset_monotonic(variables, first + 1, second);
}

/// Every row of the linear system belongs to a variable that is not fixed: the index
/// ranges partition the rows.
pub proof fn lemma_ranges_cover(variables: Seq<Variable>, dim: int, row: int)
    requires
        layout_ok(variables, dim),
        0 <= row < dim,
    ensures
        exists|index: int|
            0 <= index < variables.len() && !(#[trigger] variables[index]).fixed_type().is_fixed()
                && variables[index].fixed_type().start() <= row < variables[index].fixed_type().end(),
{
    lemma_cover_upto(variables, dim, row, variables.len() as int);
}

/// A row below the offset of the first `count` variables belongs to one of them.
proof fn lemma_cover_upto(variables: Seq<Variable>, dim: int, row: int, count: int)
    requires
        layout_ok(variables, dim),
        0 <= count <= variables.len(),
        0 <= row < offset(variables, count),
    ensures
        exists|index: int|
            0 <= index < count && !(#[trigger] variables[index]).fixed_type().is_fixed()
                && variables[index].fixed_type().start() <= row < variables[index].fixed_type().end(),
    decreases count,
{
    if count > 0 {
        if row < offset(variables, count - 1) {
            lemma_cover_upto(variables, dim, row, count - 1);
        } else {
            assert(placed(variables, count - 1));
            assert(!variables[count - 1].fixed_type().is_fixed());
        }
    }
}

/// The position of a target among groups is its position among the edges that the groups
/// stand for.
proof fn lemma_group_position(row: Seq<(usize, usize)>, bundles: Seq<Vec<Factor>>, target: usize)
    ensures
        group_position(row_groups(row, bundles), target) == row_position(row, target),
    decreases row.len(),
{
    let groups = row_groups(row, bundles);
    if row.len() > 0 && row[0].0 < target {
        assert(groups.drop_first() =~= row_groups(row.drop_first(), bundles));
        lemma_group_position(row.drop_first(), bundles, target);
    }
}

/// A new edge with a weight that no edge has yet keeps the weights apart and below the
/// number of bundles.
proof fn lemma_storage_after_insert(
    rows: Seq<Seq<(usize, usize)>>,
    fresh: nat,
    source: int,
    p: int,
    target: usize,
)
    requires
        0 <= source < rows.len(),
        0 <= p <= rows[source].len(),
        fresh <= usize::MAX,
        forall|a: int, i: int|
            0 <= a < rows.len() && 0 <= i < rows[a].len() ==> (#[trigger] rows[a][i]).1 < fresh,
        forall|a: int, i: int, b: int, j: int|
            0 <= a < rows.len() && 0 <= i < rows[a].len() && 0 <= b < rows.len() && 0 <= j
                < rows[b].len() && (#[trigger] rows[a][i]).1 == (#[trigger] rows[b][j]).1 ==> a == b
                && i == j,
    ensures
        ({
            let next = rows.update(source, rows[source].insert(p, (target, fresh as usize)));
            &&& forall|a: int, i: int|
                0 <= a < next.len() && 0 <= i < next[a].len() ==> (#[trigger] next[a][i]).1 < fresh
                    + 1
            &&& forall|a: int, i: int, b: int, j: int|
                0 <= a < next.len() && 0 <= i < next[a].len() && 0 <= b < next.len() && 0 <= j
                    < next[b].len() && (#[trigger] next[a][i]).1 == (#[trigger] next[b][j]).1 ==> a
                    == b && i == j
        }),
{
    let next = rows.update(source, rows[source].insert(p, (target, fresh as usize)));
    // Where an edge of `next` stood in `rows`, if it is not the new one.
    let back = |a: int, i: int| if a == source && i > p { i - 1 } else { i };
    assert forall|a: int, i: int| 0 <= a < next.len() && 0 <= i < next[a].len() implies (
    #[trigger] next[a][i]).1 < fresh + 1 by {
        if !(a == source && i == p) {
            assert(next[a][i] == rows[a][back(a, i)]);
        }
    }
    assert forall|a: int, i: int, b: int, j: int|
        0 <= a < next.len() && 0 <= i < next[a].len() && 0 <= b < next.len() && 0 <= j
            < next[b].len() && (#[trigger] next[a][i]).1 == (#[trigger] next[b][j]).1 implies a == b
        && i == j by {
        if !(a == source && i == p) {
            assert(next[a][i] == rows[a][back(a, i)]);
        }
        if !(b == source && j == p) {
            assert(next[b][j] == rows[b][back(b, j)]);
        }
    }
}

/// One more factor that may lead from `source` to `target` leaves a sound adjacency
/// sound.
proof fn lemma_edges_after_insert(
    variables: Seq<Variable>,
    adjacency: Adjacency,
    source: int,
    target: usize,
    factor: FactorView,
)
    requires
        edges_ok(variables, adjacency),
        factor_ok(variables, source, target as int, factor),
    ensures
        edges_ok(variables, insert_factor(adjacency, source, target, factor)),
{
    let row = adjacency[source];
    let next_row = insert_into_row(row, target, factor);
    let next = insert_factor(adjacency, source, target, factor);
    lemma_group_bounds(row, target);
    let p = group_position(row, target);
    assert(groups_ascending(row));
    if p < row.len() && row[p].0 == target {
        assert forall|i: int| 0 <= i < next_row.len() implies group_ok(
            variables,
            source,
            #[trigger] next_row[i],
        ) by {
            assert(group_ok(variables, source, row[i]));
            if i == p {
                let group = next_row[i];
                assert forall|k: int| 0 <= k < group.1.len() implies factor_ok(
                    variables,
                    source,
                    group.0 as int,
                    #[trigger] group.1[k],
                ) by {
                    if k < row[p].1.len() {
                        assert(group.1[k] == row[p].1[k]);
                    }
                }
            }
        }
        assert forall|i: int, j: int| 0 <= i < j < next_row.len() implies (#[trigger] next_row[i]).0
            < (#[trigger] next_row[j]).0 by {
            assert(row[i].0 < row[j].0);
        }
    } else {
        assert forall|i: int| 0 <= i < next_row.len() implies group_ok(
            variables,
            source,
            #[trigger] next_row[i],
        ) by {
            if i < p {
                assert(group_ok(variables, source, row[i]));
            } else if i > p {
                assert(group_ok(variables, source, row[i - 1]));
            }
        }
        assert forall|i: int, j: int| 0 <= i < j < next_row.len() implies (#[trigger] next_row[i]).0
            < (#[trigger] next_row[j]).0 by {
            if j < p {
                assert(row[i].0 < row[j].0);
            } else if j == p {
                assert(next_row[i] == row[i]);
            } else if i < p {
                assert(next_row[i] == row[i] && next_row[j] == row[j - 1]);
                assert(row[i].0 < row[j - 1].0);
            } else if i == p {
                assert(next_row[j] == row[j - 1]);
            } else {
                assert(next_row[i] == row[i - 1] && next_row[j] == row[j - 1]);
                assert(row[i - 1].0 < row[j - 1].0);
            }
        }
    }
    assert forall|a: int, i: int| 0 <= a < next.len() && 0 <= i < next[a].len() implies group_ok(
        variables,
        a,
        #[trigger] next[a][i],
    ) by {
        if a != source {
            assert(group_ok(variables, a, adjacency[a][i]));
        }
    }
    assert forall|a: int| 0 <= a < next.len() implies groups_ascending(#[trigger] next[a]) by {
        if a != source {
            assert(groups_ascending(adjacency[a]));
        }
    }
}

/// The position of `target` parts the groups that lead to lesser variables from those
/// that lead to `target` or beyond.
pub proof fn lemma_group_bounds(row: Seq<Group>, target: usize)
    ensures
        0 <= group_position(row, target) <= row.len(),
        forall|i: int| 0 <= i < group_position(row, target) ==> (#[trigger] row[i]).0 < target,
        group_position(row, target) < row.len() ==> row[group_position(row, target)].0 >= target,
    decreases row.len(),
{
    if row.len() > 0 && row[0].0 < target {
        let rest = row.drop_first();
        lemma_group_bounds(rest, target);
        let p = group_position(rest, target);
        assert forall|i: int| 0 <= i < p + 1 implies (#[trigger] row[i]).0 < target by {
            if i > 0 {
                assert(row[i] == rest[i - 1]);
            }
        }
        if p < rest.len() {
            assert(row[p + 1] == rest[p]);
        }
    }
}

impl GraphView {
    /// A graph without variables.
    pub open spec fn empty() -> GraphView {
        GraphView { variables: Seq::empty(), adjacency: Seq::empty(), dim: 0, ids: Map::empty() }
    }

    /// All factors, in the order in which the graph hands them out: by the variable that
    /// they leave, then by the variable that they lead to, then in the order in which they
    /// were added.
    pub open spec fn links(self) -> Seq<Link> {
        links_upto(self.adjacency, self.adjacency.len() as int)
    }

    /// The graph's invariant, but for its storage.
    pub open spec fn wf(self) -> bool {
        &&& layout_ok(self.variables, self.dim as int)
        &&& ids_ok(self.variables, self.ids)
        &&& edges_ok(self.variables, self.adjacency)
    }

    /// The graph with one more variable, behind the others, or the reason why there is
    /// none.
    pub open spec fn add_variable(
        self,
        kind: VariableType,
        id: usize,
        content: Seq<u64>,
        fixed: bool,
    ) -> Result<GraphView, GraphError> {
        match variable_error(self.variables, self.ids, self.dim, kind, id, content, fixed) {
            Some(error) => Err(error),
            None => Ok(
                GraphView {
                    variables: self.variables.push(
                        variable_of(kind, id, content, next_place(self.dim, kind, fixed)),
                    ),
                    adjacency: self.adjacency.push(Seq::empty()),
                    dim: if fixed {
                        self.dim
                    } else {
                        (self.dim + kind.spec_local_dim()) as usize
                    },
                    ids: self.ids.insert(id, self.variables.len() as usize),
                },
            ),
        }
    }

    /// The graph with one more factor from the variable at `source` to the one at
    /// `target`, or the reason why there is none.
    pub open spec fn add_factor(self, source: usize, target: usize, factor: FactorView) -> Result<
        GraphView,
        GraphError,
    > {
        match factor_error(self.variables, source, target, factor) {
            Some(error) => Err(error),
            None => Ok(
                GraphView {
                    variables: self.variables,
                    adjacency: insert_factor(self.adjacency, source as int, target, factor),
                    dim: self.dim,
                    ids: self.ids,
                },
            ),
        }
    }
}

impl View for FactorGraph {
    type V = GraphView;

    open spec fn view(&self) -> GraphView {
        GraphView {
            variables: self.variables(),
            adjacency: self.adjacency(),
            dim: self.dim(),
            ids: self.ids(),
        }
    }
}

/// One more variable leaves a sound graph sound.
pub proof fn lemma_add_variable(
    graph: GraphView,
    kind: VariableType,
    id: usize,
    content: Seq<u64>,
    fixed: bool,
)
    requires
        graph.wf(),
        graph.variables.len() <= usize::MAX,
        graph.add_variable(kind, id, content, fixed) is Ok,
    ensures
        graph.add_variable(kind, id, content, fixed)->Ok_0.wf(),
{
    let after = graph.add_variable(kind, id, content, fixed)->Ok_0;
    let old_vars = graph.variables;
    let new_vars = after.variables;
    let n = old_vars.len() as int;
    lemma_variable_of(kind, id, content, next_place(graph.dim, kind, fixed));
    assert forall|i: int| 0 <= i <= n implies offset(new_vars, i) == offset(old_vars, i) by {
        lemma_offset_same(new_vars, old_vars, i);
    }
    assert forall|i: int| 0 <= i < new_vars.len() implies placed(new_vars, i) by {
        if i < n {
            assert(placed(old_vars, i));
            assert(new_vars[i] == old_vars[i]);
        }
    }
    assert(ids_ok(new_vars, after.ids)) by {
        assert forall|i: int| 0 <= i < new_vars.len() implies after.ids.contains_key(
            (#[trigger] new_vars[i]).id(),
        ) && after.ids[new_vars[i].id()] == i by {
            if i < n {
                assert(new_vars[i] == old_vars[i]);
            }
        }
    }
    assert(edges_ok(new_vars, after.adjacency)) by {
        let adjacency = after.adjacency;
        assert forall|a: int, i: int|
            0 <= a < adjacency.len() && 0 <= i < adjacency[a].len() implies group_ok(
            new_vars,
            a,
            #[trigger] adjacency[a][i],
        ) by {
            assert(a < n);
            let group = graph.adjacency[a][i];
            assert(group_ok(old_vars, a, group));
            assert(factor_ok(old_vars, a, group.0 as int, group.1[0]));
            assert(new_vars[a] == old_vars[a]);
            assert(new_vars[group.0 as int] == old_vars[group.0 as int]);
            assert forall|k: int| 0 <= k < group.1.len() implies factor_ok(
                new_vars,
                a,
                group.0 as int,
                #[trigger] group.1[k],
            ) by {
                assert(factor_ok(old_vars, a, group.0 as int, group.1[k]));
            }
        }
        assert forall|a: int| 0 <= a < adjacency.len() implies groups_ascending(
            #[trigger] adjacency[a],
        ) by {
            if a < n {
                assert(adjacency[a] == graph.adjacency[a]);
            }
        }
    }
}

/// One more factor leaves a sound graph sound.
pub proof fn lemma_add_factor(graph: GraphView, source: usize, target: usize, factor: FactorView)
    requires
        graph.wf(),
        graph.add_factor(source, target, factor) is Ok,
    ensures
        graph.add_factor(source, target, factor)->Ok_0.wf(),
        graph.add_factor(source, target, factor)->Ok_0.variables == graph.variables,
{
    lemma_edges_after_insert(graph.variables, graph.adjacency, source as int, target, factor);
}

impl FactorGraph {
    /// The variables, in the order in which they were added.
    pub closed spec fn variables(&self) -> Seq<Variable> {
        self.variables@
    }

    /// The factors, by the variable that each leaves.
    pub closed spec fn adjacency(&self) -> Adjacency {
        rows_adjacency(csr_rows(self.csr), self.bundles@)
    }

    /// The number of rows of the linear system.
    pub closed spec fn dim(&self) -> usize {
        self.matrix_dim
    }

    /// The index of each variable, by its identifier.
    pub closed spec fn ids(&self) -> Map<usize, usize> {
        self.custom_to_csr_id_map@
    }

    /// What holds of the graph's storage.
    pub closed spec fn stored(&self) -> bool {
        &&& csr_rows(self.csr).len() == self.variables@.len()
        &&& storage_ok(csr_rows(self.csr), self.bundles@)
    }

    /// The graph's invariant: its storage is sound, the index ranges of the variables that
    /// are not fixed partition the rows of the linear system, each identifier names one
    /// variable, and each factor connects variables of the kinds that it is made for.
    pub open spec fn wf(&self) -> bool {
        &&& self.stored()
        &&& self@.wf()
    }

    /// A graph without variables.
    pub fn new() -> (graph: FactorGraph)
        ensures
            graph.wf(),
            graph@ == GraphView::empty(),
    {
        let graph = FactorGraph {
            csr: csr_new(),
            bundles: Vec::new(),
            variables: Vec::new(),
            custom_to_csr_id_map: HashMap::new(),
            matrix_dim: 0,
        };
        assert(graph.adjacency() =~= Seq::<Seq<Group>>::empty());
        assert(graph@ =~= GraphView::empty());
        graph
    }

    /// Adds a variable behind those that the graph has. A variable that is not fixed gets
    /// the next rows of the linear system. Returns the variable's index, or the reason why
    /// the graph stays as it is.
    pub fn add_variable(
        &mut self,
        kind: VariableType,
        id: usize,
        content: &Vec<u64>,
        fixed: bool,
    ) -> (added: Result<usize, GraphError>)
        requires
            old(self).wf(),
        ensures
            final(self).wf(),
            match added {
                Ok(index) => {
                    &&& index == old(self)@.variables.len()
                    &&& old(self)@.add_variable(kind, id, content@, fixed) == Ok::<
                        GraphView,
                        GraphError,
                    >(final(self)@)
                },
                Err(error) => {
                    &&& old(self)@.add_variable(kind, id, content@, fixed) == Err::<
                        GraphView,
                        GraphError,
                    >(error)
                    &&& *final(self) == *old(self)
                },
            },
    {
        if self.custom_to_csr_id_map.contains_key(&id) {
            return Err(GraphError::DuplicateId);
        }
        if content.len() != kind.content_len() {
            return Err(GraphError::ContentLength);
        }
        if !fixed && self.matrix_dim > usize::MAX - kind.local_dim() {
            return Err(GraphError::TooLarge);
        }
        let ghost before = *self;
        let fixed_type = add_var_to_matrix(&mut self.matrix_dim, kind.local_dim(), fixed);
        let variable = Variable::new(kind, id, content, fixed_type);
        let index = csr_add_node(&mut self.csr);
        self.variables.push(variable);
        self.custom_to_csr_id_map.insert(id, index);
        proof {
            let n = before.variables().len() as int;
            lemma_variable_of(kind, id, content@, fixed_type);
            assert(fixed_type == next_place(before.dim(), kind, fixed));
            assert(self.variables() =~= before.variables().push(
                variable_of(kind, id, content@, fixed_type),
            ));
            assert(self.adjacency() =~= before.adjacency().push(Seq::empty())) by {
                assert(self.adjacency()[n] =~= Seq::<Group>::empty());
            }
            assert(self@ =~= before@.add_variable(kind, id, content@, fixed)->Ok_0);
            lemma_add_variable(before@, kind, id, content@, fixed);
        }
        Ok(index)
    }

    /// Adds a factor that leads from the variable at `source` to the one at `target`,
    /// behind the factors that do so already. A prior leads from its variable to the same
    /// variable. Returns the reason why the graph stays as it is, if it does.
    pub fn add_factor(&mut self, source: usize, target: usize, factor: Factor) -> (added: Result<
        (),
        GraphError,
    >)
        requires
            old(self).wf(),
        ensures
            final(self).wf(),
            match added {
                Ok(()) => old(self)@.add_factor(source, target, factor@) == Ok::<GraphView, GraphError>(
                    final(self)@,
                ),
                Err(error) => {
                    &&& old(self)@.add_factor(source, target, factor@) == Err::<GraphView, GraphError>(
                        error,
                    )
                    &&& *final(self) == *old(self)
                },
            },
    {
        if source >= self.variables.len() || target >= self.variables.len() {
            return Err(GraphError::UnknownVariable);
        }
        let kind = factor.factor_type;
        let d = kind.information_dim();
        assert(d * d <= 36) by (nonlinear_arith)
            requires
                d <= 6,
        ;
        if factor.constraint.len() != kind.constraint_len() || factor.information_matrix.dim != d
            || factor.information_matrix.content.len() != d * d {
            return Err(GraphError::FactorShape);
        }
        if self.variables[source].get_type() != kind.source_type()
            || self.variables[target].get_type() != kind.target_type() || (kind.is_prior() && source
            != target) {
            return Err(GraphError::KindMismatch);
        }
        let ghost before = *self;
        let ghost rows = csr_rows(self.csr);
        let ghost bundles = self.bundles@;
        let ghost variables = self.variables@;
        let row = csr_edges(&self.csr, source);
        let mut p: usize = 0;
        while p < row.len() && row[p].0 < target
            invariant
                p <= row.len(),
                forall|i: int| 0 <= i < p ==> (#[trigger] row@[i]).0 < target,
            decreases row.len() - p,
        {
            p += 1;
        }
        proof {
            lemma_row_position(row@, target);
            lemma_group_position(row@, bundles, target);
            let q = row_position(row@, target);
            if p < q {
                assert(row@[p as int].0 < target);
            }
            if q < p {
                assert(row@[q].0 < target);
            }
            assert(p == q);
            assert(before.adjacency()[source as int] == row_groups(row@, bundles));
            assert(factor_ok(variables, source as int, target as int, factor@));
        }
        if p < row.len() && row[p].0 == target {
            let k = row[p].1;
            assert(rows[source as int][p as int] == row@[p as int]);
            self.bundles[k].push(factor);
            proof {
                let new_bundles = self.bundles@;
                let expected = insert_factor(before.adjacency(), source as int, target, factor@);
                assert forall|a: int| 0 <= a < rows.len() implies #[trigger] self.adjacency()[a]
                    =~= expected[a] by {
                    assert forall|i: int| 0 <= i < rows[a].len() implies self.adjacency()[a][i]
                        == expected[a][i] by {
                        let weight = (#[trigger] rows[a][i]).1;
                        if a == source && i == p {
                            assert(bundle_view(new_bundles[weight as int]) =~= bundle_view(bundles[weight as int]).push(
                                factor@,
                            ));
                        } else {
                            assert(weight != k);
                            assert(before.adjacency()[a][i] == (rows[a][i].0, bundle_view(bundles[weight as int])));
                        }
                    }
                }
                assert(self.adjacency() =~= expected);
                assert(storage_ok(rows, new_bundles)) by {
                    assert forall|a: int, i: int|
                        0 <= a < rows.len() && 0 <= i < rows[a].len() implies (
                    #[trigger] rows[a][i]).1 < new_bundles.len() by {}
                }
                lemma_edges_after_insert(variables, before.adjacency(), source as int, target, factor@);
            }
        } else {
            let k = self.bundles.len();
            let mut bundle: Vec<Factor> = Vec::new();
            bundle.push(factor);
            self.bundles.push(bundle);
            assert(!row_has(row@, target));
            let added = csr_add_edge(&mut self.csr, source, target, k);
            proof {
                let new_rows = csr_rows(self.csr);
                let new_bundles = self.bundles@;
                let expected = insert_factor(before.adjacency(), source as int, target, factor@);
                lemma_insert_ascending(row@, target, k);
                assert(new_rows[source as int] == row@.insert(p as int, (target, k)));
                assert forall|a: int| 0 <= a < rows.len() implies #[trigger] self.adjacency()[a]
                    =~= expected[a] by {
                    if a == source {
                        assert forall|i: int| 0 <= i < new_rows[a].len() implies self.adjacency()[a][i]
                            == expected[a][i] by {
                            if i < p {
                                assert(new_rows[a][i] == rows[a][i]);
                            } else if i == p {
                                assert(bundle_view(new_bundles[k as int]) =~= seq![factor@]);
                            } else {
                                assert(new_rows[a][i] == rows[a][i - 1]);
                            }
                        }
                    } else {
                        assert(new_rows[a] == rows[a]);
                        assert forall|i: int| 0 <= i < rows[a].len() implies self.adjacency()[a][i]
                            == expected[a][i] by {
                            assert((#[trigger] rows[a][i]).1 < bundles.len());
                        }
                    }
                }
                assert(self.adjacency() =~= expected);
                assert(storage_ok(new_rows, new_bundles)) by {
                    lemma_storage_after_insert(rows, bundles.len(), source as int, p as int, target);
                    assert forall|a: int| 0 <= a < new_rows.len() implies row_ascending(
                        #[trigger] new_rows[a],
                    ) by {
                        if a != source {
                            assert(new_rows[a] == rows[a]);
                        }
                    }
                }
                lemma_edges_after_insert(variables, before.adjacency(), source as int, target, factor@);
            }
        }
        assert(self@ =~= before@.add_factor(source, target, factor@)->Ok_0);
        Ok(())
    }

    /// The factors that leave the variable at `source`: for each variable that some lead
    /// to, in ascending order of its index, that index and the factors in the order in
    /// which they were added.
    pub fn edges(&self, source: usize) -> (groups: Vec<(usize, &Vec<Factor>)>)
        requires
            self.wf(),
            source < self.variables().len(),
        ensures
            groups@.len() == self.adjacency()[source as int].len(),
            forall|i: int|
                0 <= i < groups@.len() ==> (#[trigger] groups@[i]).0 == self.adjacency()[source as int][i].0
                    && bundle_view(*groups@[i].1) == self.adjacency()[source as int][i].1,
    {
        let row = csr_edges(&self.csr, source);
        let mut groups: Vec<(usize, &Vec<Factor>)> = Vec::new();
        let mut i: usize = 0;
        while i < row.len()
            invariant
                self.stored(),
                source < self.variables().len(),
                row@ == csr_rows(self.csr)[source as int],
                i <= row.len(),
                groups@.len() == i,
                forall|j: int|
                    0 <= j < i ==> (#[trigger] groups@[j]).0 == self.adjacency()[source as int][j].0
                        && bundle_view(*groups@[j].1) == self.adjacency()[source as int][j].1,
            decreases row.len() - i,
        {
            let (target, weight) = row[i];
            assert(csr_rows(self.csr)[source as int][i as int] == (target, weight));
            groups.push((target, &self.bundles[weight]));
            i += 1;
        }
        groups
    }

    /// All factors, each with the indices of the variable that it leaves and of the one
    /// that it leads to, in the order of `links`. Each may lead from the one variable to
    /// the other.
    pub fn factors(&self) -> (all: Vec<(usize, usize, &Factor)>)
        requires
            self.wf(),
        ensures
            all@.len() == self@.links().len(),
            forall|n: int|
                0 <= n < all@.len() ==> (#[trigger] all@[n]).0 == self@.links()[n].0 && all@[n].1
                    == self@.links()[n].1 && all@[n].2@ == self@.links()[n].2 && factor_ok(
                    self@.variables,
                    all@[n].0 as int,
                    all@[n].1 as int,
                    all@[n].2@,
                ),
    {
        let mut all: Vec<(usize, usize, &Factor)> = Vec::new();
        let ghost adjacency = self@.adjacency;
        let ghost variables = self@.variables;
        let count = self.variables.len();
        let mut a: usize = 0;
        while a < count
            invariant
                self.wf(),
                adjacency == self@.adjacency,
                variables == self@.variables,
                count == adjacency.len(),
                a <= count,
                all@.len() == links_upto(adjacency, a as int).len(),
                forall|n: int|
                    0 <= n < all@.len() ==> (#[trigger] all@[n]).0 == links_upto(adjacency, a as int)[n].0
                        && all@[n].1 == links_upto(adjacency, a as int)[n].1 && all@[n].2@
                        == links_upto(adjacency, a as int)[n].2 && factor_ok(
                        variables,
                        all@[n].0 as int,
                        all@[n].1 as int,
                        all@[n].2@,
                    ),
            decreases count - a,
        {
            let groups = self.edges(a);
            let ghost row = adjacency[a as int];
            let ghost done = links_upto(adjacency, a as int);
            let mut i: usize = 0;
            while i < groups.len()
                invariant
                    self.wf(),
                    adjacency == self@.adjacency,
                    variables == self@.variables,
                    a < adjacency.len(),
                    row == adjacency[a as int],
                    done == links_upto(adjacency, a as int),
                    groups@.len() == row.len(),
                    forall|g: int|
                        0 <= g < groups@.len() ==> (#[trigger] groups@[g]).0 == row[g].0
                            && bundle_view(*groups@[g].1) == row[g].1,
                    i <= groups@.len(),
                    all@.len() == (done + row_links(a, row, i as int)).len(),
                    forall|n: int|
                        0 <= n < all@.len() ==> (#[trigger] all@[n]).0 == (done + row_links(
                            a,
                            row,
                            i as int,
                        ))[n].0 && all@[n].1 == (done + row_links(a, row, i as int))[n].1
                            && all@[n].2@ == (done + row_links(a, row, i as int))[n].2 && factor_ok(
                            variables,
                            all@[n].0 as int,
                            all@[n].1 as int,
                            all@[n].2@,
                        ),
                decreases groups@.len() - i,
            {
                let target = groups[i].0;
                let bundle = groups[i].1;
                let ghost group = row[i as int];
                let ghost before = done + row_links(a, row, i as int);
                assert(group.0 == target && bundle_view(*bundle) == group.1);
                assert(group_ok(variables, a as int, adjacency[a as int][i as int]));
                let mut k: usize = 0;
                while k < bundle.len()
                    invariant
                        group.0 == target,
                        bundle_view(*bundle) == group.1,
                        group_ok(variables, a as int, group),
                        bundle@.len() == group.1.len(),
                        k <= bundle@.len(),
                        all@.len() == (before + group_links(a, group, k as int)).len(),
                        forall|n: int|
                            0 <= n < all@.len() ==> (#[trigger] all@[n]).0 == (before + group_links(
                                a,
                                group,
                                k as int,
                            ))[n].0 && all@[n].1 == (before + group_links(a, group, k as int))[n].1
                                && all@[n].2@ == (before + group_links(a, group, k as int))[n].2
                                && factor_ok(
                                variables,
                                all@[n].0 as int,
                                all@[n].1 as int,
                                all@[n].2@,
                            ),
                    decreases bundle@.len() - k,
                {
                    let factor = &bundle[k];
                    let ghost earlier = all@;
                    assert(factor@ == group.1[k as int]);
                    assert(factor_ok(variables, a as int, group.0 as int, group.1[k as int]));
                    all.push((a, target, factor));
                    proof {
                        let now = before + group_links(a, group, k as int + 1);
                        let then = before + group_links(a, group, k as int);
                        assert(now =~= then.push((a, group.0, group.1[k as int])));
                        assert forall|n: int| 0 <= n < all@.len() implies (#[trigger] all@[n]).0
                            == now[n].0 && all@[n].1 == now[n].1 && all@[n].2@ == now[n].2
                            && factor_ok(variables, all@[n].0 as int, all@[n].1 as int, all@[n].2@) by {
                            if n < earlier.len() {
                                assert(all@[n] == earlier[n]);
                            }
                        }
                    }
                    k += 1;
                }
                assert(before + group_links(a, group, group.1.len() as int) =~= done + row_links(
                    a,
                    row,
                    i as int + 1,
                ));
                i += 1;
            }
            assert(done + row_links(a, row, row.len() as int) =~= links_upto(adjacency, a as int + 1));
            a += 1;
        }
        all
    }

    /// Replaces the value of the variable at `index` by the first scalars of `update`, as
    /// many as a value of its kind has. Nothing else changes.
    pub fn set_content(&mut self, index: usize, update: Vec<u64>)
        requires
            old(self).wf(),
            index < old(self).variables().len(),
            update@.len() >= old(self).variables()[index as int].kind().spec_content_len(),
        ensures
            final(self).wf(),
            final(self).adjacency() == old(self).adjacency(),
            final(self).dim() == old(self).dim(),
            final(self).ids() == old(self).ids(),
            final(self).variables().len() == old(self).variables().len(),
            forall|i: int|
                0 <= i < old(self).variables().len() && i != index ==> final(self).variables()[i]
                    == old(self).variables()[i],
            same_place(final(self).variables()[index as int], old(self).variables()[index as int]),
            final(self).variables()[index as int].content() == update@.subrange(
                0,
                old(self).variables()[index as int].kind().spec_content_len() as int,
            ),
    {
        let ghost before = *self;
        self.variables[index].set_content(update);
        proof {
            lemma_same_places(before.variables(), self.variables(), self.dim() as int, self.ids(), self.adjacency());
        }
    }

    /// The identifiers of the fixed variables, in the order of the variables.
    pub fn fixed_ids(&self) -> (ids: Vec<usize>)
        ensures
            ids@ == fixed_upto(self.variables(), self.variables().len() as int),
    {
        let mut ids: Vec<usize> = Vec::new();
        let mut i: usize = 0;
        while i < self.variables.len()
            invariant
                i <= self.variables@.len(),
                ids@ == fixed_upto(self.variables(), i as int),
            decreases self.variables@.len() - i,
        {
            match self.variables[i].get_fixed_type() {
                FixedType::Fixed => {
                    ids.push(self.variables[i].get_id());
                },
                _ => {},
            }
            i += 1;
        }
        ids
    }

    /// The number of variables.
    pub fn node_count(&self) -> (count: usize)
        ensures
            count == self.variables().len(),
    {
        self.variables.len()
    }

    /// The number of rows, and of columns, of the linear system.
    pub fn matrix_dim(&self) -> (dim: usize)
        ensures
            dim == self.dim(),
    {
        self.matrix_dim
    }

    /// Returns the variable at the corresponding internal index.
    pub fn get_var(&self, csr_index: usize) -> (variable: &Variable)
        requires
            csr_index < self.variables().len(),
        ensures
            *variable == self.variables()[csr_index as int],
    {
        &self.variables[csr_index]
    }

    /// The index of the variable with the given identifier, if there is one.
    pub fn index_of(&self, id: usize) -> (index: Option<usize>)
        ensures
            index == if self.ids().contains_key(id) {
                Some(self.ids()[id])
            } else {
                None
            },
    {
        match self.custom_to_csr_id_map.get(&id) {
            Some(index) => Some(*index),
            None => None,
        }
    }
}

} // verus!
