//! The model of a graph describes that graph.

use crate::factor_graph::variable::{
    lemma_content_len, lemma_variable_equal, lemma_variable_of, variable_of, Variable,
};
use crate::factor_graph::{
    edges_ok, factor_ok, group_links, group_ok, group_position, groups_ascending, ids_ok,
    insert_factor, insert_into_row, lemma_add_variable, lemma_group_bounds,
    lemma_offset_monotonic, links_upto, next_place, offset, owned_dim, placed, row_links,
    Adjacency, GraphError, GraphView, Group, Link,
};
use crate::parser::model::converter::{
    edge_factor, edge_of, fixed_ids, graph_of, graph_with_edge, graph_with_edges,
    graph_with_vertex, graph_with_vertices, model_of, vertex_of, ModelError,
};
use crate::parser::model::{lemma_factor_type_names, lemma_variable_type_names};
use vstd::prelude::*;

verus! {

/// Rows without groups, one for each of `count` variables.
pub open spec fn empty_rows(count: int) -> Adjacency {
    Seq::new(count as nat, |a: int| Seq::<Group>::empty())
}

/// The adjacency of `rows` variables that holds the first `count` of some factors,
/// added in their order.
pub open spec fn rebuilt(links: Seq<Link>, count: int, rows: int) -> Adjacency
    decreases count,
{
    if count <= 0 {
        empty_rows(rows)
    } else {
        insert_factor(
            rebuilt(links, count - 1, rows),
            links[count - 1].0 as int,
            links[count - 1].1,
            links[count - 1].2,
        )
    }
}

/// The part of an adjacency that lies before the factor at position `k` of the group at
/// position `i` of the row of variable `a`.
pub open spec fn truncated(adjacency: Adjacency, a: int, i: int, k: int) -> Adjacency {
    Seq::new(
        adjacency.len(),
        |x: int|
            if x < a {
                adjacency[x]
            } else if x == a {
                adjacency[a].take(i) + (if k > 0 {
                    seq![(adjacency[a][i].0, adjacency[a][i].1.take(k))]
                } else {
                    Seq::<Group>::empty()
                })
            } else {
                Seq::<Group>::empty()
            },
    )
}

/// The factors that lie before the factor at position `k` of the group at position `i`
/// of the row of variable `a`.
pub open spec fn links_before(adjacency: Adjacency, a: int, i: int, k: int) -> Seq<Link> {
    links_upto(adjacency, a) + row_links(a as usize, adjacency[a], i) + group_links(
        a as usize,
        adjacency[a][i],
        k,
    )
}

/// What was built of the first factors does not depend on the factors behind them.
proof fn lemma_rebuilt_prefix(first: Seq<Link>, second: Seq<Link>, count: int, rows: int)
    requires
        0 <= count <= first.len(),
        count <= second.len(),
        forall|n: int| 0 <= n < count ==> first[n] == second[n],
    ensures
        rebuilt(first, count, rows) == rebuilt(second, count, rows),
    decreases count,
{
    if count > 0 {
        lemma_rebuilt_prefix(first, second, count - 1, rows);
    }
}

/// Adding the factors of an adjacency in the order in which the adjacency hands them out
/// builds the adjacency: after the factors that lie before a place, what is built is the
/// part of the adjacency that lies before that place.
proof fn lemma_rebuild(variables: Seq<Variable>, adjacency: Adjacency, a: int, i: int, k: int)
    requires
        edges_ok(variables, adjacency),
        adjacency.len() <= usize::MAX,
        0 <= a <= adjacency.len(),
        a < adjacency.len() ==> 0 <= i <= adjacency[a].len(),
        a < adjacency.len() && i < adjacency[a].len() ==> 0 <= k <= adjacency[a][i].1.len(),
        a < adjacency.len() && i == adjacency[a].len() ==> k == 0,
        a == adjacency.len() ==> i == 0 && k == 0,
    ensures
        rebuilt(
            links_before(adjacency, a, i, k),
            links_before(adjacency, a, i, k).len() as int,
            adjacency.len() as int,
        ) == truncated(adjacency, a, i, k),
    decreases a, i, k,
{
    let rows = adjacency.len() as int;
    let links = links_before(adjacency, a, i, k);
    if k > 0 {
        let group = adjacency[a][i];
        let earlier = links_before(adjacency, a, i, k - 1);
        lemma_rebuild(variables, adjacency, a, i, k - 1);
        let link = (a as usize, group.0, group.1[k - 1]);
        assert(links =~= earlier.push(link));
        lemma_rebuilt_prefix(links, earlier, earlier.len() as int, rows);
        let before = truncated(adjacency, a, i, k - 1);
        let row = before[a];
        assert(groups_ascending(adjacency[a]));
        lemma_group_bounds(row, group.0);
        let p = group_position(row, group.0);
        assert forall|g: int| 0 <= g < i implies (#[trigger] row[g]).0 < group.0 by {
            assert(row[g] == adjacency[a][g]);
            assert(adjacency[a][g].0 < adjacency[a][i].0);
        }
        if p < i {
            assert(row[p].0 < group.0);
        }
        if k - 1 > 0 {
            assert(row[i] == (group.0, group.1.take(k - 1)));
            if p > i {
                assert(row[i].0 < group.0);
            }
            assert(p == i);
            assert(group.1.take(k - 1).push(group.1[k - 1]) =~= group.1.take(k));
            assert(insert_into_row(row, group.0, group.1[k - 1]) =~= truncated(adjacency, a, i, k)[a]);
        } else {
            assert(row.len() == i);
            assert(p == i);
            assert(seq![group.1[k - 1]] =~= group.1.take(k));
            assert(insert_into_row(row, group.0, group.1[k - 1]) =~= truncated(adjacency, a, i, k)[a]);
        }
        assert(insert_factor(before, a, group.0, group.1[k - 1]) =~= truncated(adjacency, a, i, k));
    } else if a < adjacency.len() && i > 0 {
        let group = adjacency[a][i - 1];
        lemma_rebuild(variables, adjacency, a, i - 1, group.1.len() as int);
        assert(links =~= links_before(adjacency, a, i - 1, group.1.len() as int));
        assert(group_ok(variables, a, adjacency[a][i - 1]));
        assert(group.1.take(group.1.len() as int) =~= group.1);
        assert(truncated(adjacency, a, i, 0)[a] =~= truncated(
            adjacency,
            a,
            i - 1,
            group.1.len() as int,
        )[a]) by {
            assert(adjacency[a].take(i) =~= adjacency[a].take(i - 1).push(group));
        }
        assert(truncated(adjacency, a, i, 0) =~= truncated(adjacency, a, i - 1, group.1.len() as int));
    } else if a > 0 {
        let row = adjacency[a - 1];
        lemma_rebuild(variables, adjacency, a - 1, row.len() as int, 0);
        assert(links =~= links_before(adjacency, a - 1, row.len() as int, 0));
        assert(row.take(row.len() as int) =~= row);
        assert(truncated(adjacency, a, 0, 0) =~= truncated(adjacency, a - 1, row.len() as int, 0)) by {
            if a < adjacency.len() {
                assert(adjacency[a].take(0) =~= Seq::<Group>::empty());
            }
        }
    } else {
        assert(links =~= Seq::<Link>::empty());
        assert(truncated(adjacency, a, 0, 0) =~= empty_rows(rows)) by {
            if a < adjacency.len() {
                assert(adjacency[a].take(0) =~= Seq::<Group>::empty());
            }
        }
    }
}

/// Adding all factors of an adjacency, in the order in which the adjacency hands them
/// out, to rows without groups builds the adjacency.
pub proof fn lemma_rebuilt_whole(variables: Seq<Variable>, adjacency: Adjacency)
    requires
        edges_ok(variables, adjacency),
        adjacency.len() <= usize::MAX,
    ensures
        rebuilt(
            links_upto(adjacency, adjacency.len() as int),
            links_upto(adjacency, adjacency.len() as int).len() as int,
            adjacency.len() as int,
        ) == adjacency,
{
    let n = adjacency.len() as int;
    lemma_rebuild(variables, adjacency, n, 0, 0);
    assert(links_before(adjacency, n, 0, 0) =~= links_upto(adjacency, n));
    assert(truncated(adjacency, n, 0, 0) =~= adjacency);
}

/// The graph of the given variables without factors.
pub open spec fn bare(graph: GraphView) -> GraphView {
    GraphView {
        variables: graph.variables,
        adjacency: empty_rows(graph.variables.len() as int),
        dim: graph.dim,
        ids: graph.ids,
    }
}

/// Two maps that lead from each variable's identifier to its index are one map.
proof fn lemma_ids_unique(variables: Seq<Variable>, first: Map<usize, usize>, second: Map<usize, usize>)
    requires
        ids_ok(variables, first),
        ids_ok(variables, second),
    ensures
        first == second,
{
    assert forall|id: usize| first.contains_key(id) implies second.contains_key(id) && first[id]
        == second[id] by {
        let i = first[id] as int;
        assert(variables[i].id() == id);
        assert(second.contains_key(variables[i].id()));
    }
    assert forall|id: usize| second.contains_key(id) implies first.contains_key(id) by {
        let i = second[id] as int;
        assert(variables[i].id() == id);
        assert(first.contains_key(variables[i].id()));
    }
    assert(first =~= second);
}

/// The vertices of the model of a sound graph give the graph's variables back, one
/// after the other.
proof fn lemma_vertices_back(graph: GraphView, count: int)
    requires
        graph.wf(),
        graph.variables.len() <= usize::MAX,
        0 <= count <= graph.variables.len(),
    ensures
        graph_with_vertices(GraphView::empty(), model_of(graph), count) is Ok,
        ({
            let built = graph_with_vertices(GraphView::empty(), model_of(graph), count)->Ok_0;
            &&& built.variables == graph.variables.take(count)
            &&& built.adjacency == empty_rows(count)
            &&& built.dim == offset(graph.variables, count)
            &&& built.wf()
        }),
    decreases count,
{
    let model = model_of(graph);
    let variables = graph.variables;
    if count > 0 {
        lemma_vertices_back(graph, count - 1);
        let before = graph_with_vertices(GraphView::empty(), model, count - 1)->Ok_0;
        let variable = variables[count - 1];
        let vertex = model.vertices[count - 1];
        assert(vertex == vertex_of(variable));
        let kind = variable.kind();
        lemma_variable_type_names(kind);
        lemma_content_len(variable);
        let fixed = model.fixed_vertices.contains(vertex.id);
        // The model fixes the vertex exactly if the variable is fixed.
        assert(fixed == variable.fixed_type().is_fixed()) by {
            if fixed {
                let w = choose|w: int|
                    0 <= w < variables.len() && w < variables.len() && (#[trigger] variables[w]).id()
                        == vertex.id && variables[w].fixed_type() is Fixed;
                assert(graph.ids[variables[w].id()] == w);
                assert(graph.ids[variables[count - 1].id()] == count - 1);
            } else if variable.fixed_type().is_fixed() {
                assert(variables[count - 1].id() == vertex.id);
                assert(fixed_ids(variables, variables.len() as int).contains(vertex.id));
            }
        }
        // No earlier variable has the identifier.
        assert(!before.ids.contains_key(vertex.id)) by {
            if before.ids.contains_key(vertex.id) {
                let j = before.ids[vertex.id] as int;
                assert(before.variables[j].id() == vertex.id);
                assert(before.variables[j] == variables[j]);
                assert(graph.ids[variables[j].id()] == j);
                assert(graph.ids[variables[count - 1].id()] == count - 1);
            }
        }
        lemma_offset_monotonic(variables, count, variables.len() as int);
        lemma_offset_monotonic(variables, 0, count - 1);
        assert(offset(variables, count) == offset(variables, count - 1) + owned_dim(variable));
        assert(placed(variables, count - 1));
        let place = next_place(before.dim, kind, fixed);
        lemma_variable_of(kind, vertex.id, vertex.content, place);
        assert(place == variable.fixed_type()) by {
            if !fixed {
                assert(place->NonFixed_0.start == variable.fixed_type()->NonFixed_0.start);
                assert(place->NonFixed_0.end == variable.fixed_type()->NonFixed_0.end);
            }
        }
        lemma_variable_equal(variable_of(kind, vertex.id, vertex.content, place), variable);
        let after = before.add_variable(kind, vertex.id, vertex.content, fixed)->Ok_0;
        assert(graph_with_vertex(before, vertex, fixed, (count - 1) as usize) == Ok::<
            GraphView,
            ModelError,
        >(after));
        lemma_add_variable(before, kind, vertex.id, vertex.content, fixed);
        assert(after.variables =~= variables.take(count));
        assert(after.adjacency =~= empty_rows(count));
    } else {
        assert(GraphView::empty().variables =~= variables.take(count));
        assert(GraphView::empty().adjacency =~= empty_rows(count));
        assert(GraphView::empty().wf());
    }
}

/// The edges of the model of a sound graph give the graph's factors back, one after the
/// other.
proof fn lemma_edges_back(graph: GraphView, count: int)
    requires
        graph.wf(),
        graph.variables.len() <= usize::MAX,
        0 <= count <= graph.links().len(),
        forall|n: int|
            0 <= n < graph.links().len() ==> factor_ok(
                graph.variables,
                (#[trigger] graph.links()[n]).0 as int,
                graph.links()[n].1 as int,
                graph.links()[n].2,
            ),
    ensures
        graph_with_edges(bare(graph), model_of(graph), count) == Ok::<GraphView, ModelError>(
            GraphView {
                variables: graph.variables,
                adjacency: rebuilt(graph.links(), count, graph.variables.len() as int),
                dim: graph.dim,
                ids: graph.ids,
            },
        ),
    decreases count,
{
    let model = model_of(graph);
    let links = graph.links();
    let variables = graph.variables;
    if count > 0 {
        lemma_edges_back(graph, count - 1);
        let before = graph_with_edges(bare(graph), model, count - 1)->Ok_0;
        let link = links[count - 1];
        let edge = model.edges[count - 1];
        assert(edge == edge_of(variables, link.0 as int, link.1 as int, link.2));
        assert(factor_ok(variables, link.0 as int, link.1 as int, link.2));
        let kind = link.2.factor_type;
        lemma_factor_type_names(kind);
        assert(graph.ids[variables[link.0 as int].id()] == link.0);
        assert(graph.ids[variables[link.1 as int].id()] == link.1);
        assert(edge_factor(edge, kind) == link.2);
        let after = GraphView {
            variables,
            adjacency: rebuilt(links, count, variables.len() as int),
            dim: graph.dim,
            ids: graph.ids,
        };
        assert(before.add_factor(link.0, link.1, link.2) == Ok::<GraphView, GraphError>(after));
        assert(graph_with_edge(before, edge, (count - 1) as usize) == Ok::<GraphView, ModelError>(
            after,
        ));
    } else {
        assert(bare(graph) =~= GraphView {
            variables: graph.variables,
            adjacency: rebuilt(graph.links(), count, graph.variables.len() as int),
            dim: graph.dim,
            ids: graph.ids,
        });
    }
}

/// Each factor of a sound graph may lead from its one variable to its other.
proof fn lemma_links_ok(variables: Seq<Variable>, adjacency: Adjacency, a: int, i: int, k: int)
    requires
        edges_ok(variables, adjacency),
        adjacency.len() <= usize::MAX,
        0 <= a <= adjacency.len(),
        a < adjacency.len() ==> 0 <= i <= adjacency[a].len(),
        a < adjacency.len() && i < adjacency[a].len() ==> 0 <= k <= adjacency[a][i].1.len(),
        a < adjacency.len() && i == adjacency[a].len() ==> k == 0,
        a == adjacency.len() ==> i == 0 && k == 0,
    ensures
        forall|n: int|
            0 <= n < links_before(adjacency, a, i, k).len() ==> factor_ok(
                variables,
                (#[trigger] links_before(adjacency, a, i, k)[n]).0 as int,
                links_before(adjacency, a, i, k)[n].1 as int,
                links_before(adjacency, a, i, k)[n].2,
            ),
    decreases a, i, k,
{
    let links = links_before(adjacency, a, i, k);
    if k > 0 {
        let group = adjacency[a][i];
        lemma_links_ok(variables, adjacency, a, i, k - 1);
        let earlier = links_before(adjacency, a, i, k - 1);
        assert(links =~= earlier.push((a as usize, group.0, group.1[k - 1])));
        assert(group_ok(variables, a, adjacency[a][i]));
        assert(factor_ok(variables, a, group.0 as int, group.1[k - 1]));
        assert forall|n: int| 0 <= n < links.len() implies factor_ok(
            variables,
            (#[trigger] links[n]).0 as int,
            links[n].1 as int,
            links[n].2,
        ) by {
            if n < earlier.len() {
                assert(links[n] == earlier[n]);
            }
        }
    } else if a < adjacency.len() && i > 0 {
        let group = adjacency[a][i - 1];
        lemma_links_ok(variables, adjacency, a, i - 1, group.1.len() as int);
        assert(links =~= links_before(adjacency, a, i - 1, group.1.len() as int));
    } else if a > 0 {
        let row = adjacency[a - 1];
        lemma_links_ok(variables, adjacency, a - 1, row.len() as int, 0);
        assert(links =~= links_before(adjacency, a - 1, row.len() as int, 0));
    } else {
        assert(links =~= Seq::<Link>::empty());
    }
}

/// A graph is what its model describes: the model of a sound graph describes that
/// graph.
pub proof fn lemma_graph_round_trip(graph: GraphView)
    requires
        graph.wf(),
        graph.variables.len() <= usize::MAX,
    ensures
        graph_of(model_of(graph)) == Ok::<GraphView, ModelError>(graph),
{
    let n = graph.variables.len() as int;
    let model = model_of(graph);
    lemma_vertices_back(graph, n);
    let built = graph_with_vertices(GraphView::empty(), model, n)->Ok_0;
    assert(graph.variables.take(n) =~= graph.variables);
    lemma_ids_unique(graph.variables, built.ids, graph.ids);
    assert(built =~= bare(graph));
    lemma_links_ok(graph.variables, graph.adjacency, n, 0, 0);
    assert(links_before(graph.adjacency, n, 0, 0) =~= graph.links());
    lemma_edges_back(graph, graph.links().len() as int);
    lemma_rebuilt_whole(graph.variables, graph.adjacency);
    assert(model.vertices.len() == n);
    assert(model.edges.len() == graph.links().len());
}

} // verus!
