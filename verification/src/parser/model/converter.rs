//! From models to factor graphs and back.

use crate::factor_graph::factor::{Factor, FactorType, FactorView, InformationMatrix};
use crate::factor_graph::variable::{lemma_variable_of, FixedType, Variable, VariableType};
use crate::factor_graph::{
    factor_ok, lemma_add_factor, lemma_add_variable, next_place, FactorGraph, GraphError,
    GraphView, Link,
};
use crate::parser::model::{
    edge_views, factor_type_name, factor_type_named, variable_type_name, variable_type_named,
    vertex_views, Edge, EdgeView, FactorGraphModel, ModelView, Vertex, VertexView,
};
use crate::text::copy_of;
use std::collections::BTreeSet;
use vstd::prelude::*;

verus! {

/// Why a model is no factor graph. Each reason names the vertex or the edge that it is
/// about by its position in the model.
#[derive(Debug, Clone, Copy, PartialEq, Eq, Structural)]
pub enum ModelError {
    /// The vertex's type is none of the four that there are.
    UnsupportedVertexType(usize),
    /// An earlier vertex has the same identifier.
    DuplicateVertexId(usize),
    /// The vertex's content has not as many scalars as its type asks for.
    VertexContentLength(usize),
    /// With this vertex the linear system would have more rows than the machine can
    /// count.
    TooLarge(usize),
    /// The edge's type is none of the six that there are.
    UnsupportedEdgeType(usize),
    /// The edge names more or fewer vertices than its type asks for.
    EdgeVertexCount(usize),
    /// The edge names a vertex that the model does not hold.
    UnknownVertex(usize),
    /// The edge's restriction or information matrix has not the size that its type asks
    /// for.
    EdgeShape(usize),
    /// The edge names vertices of types that it cannot connect.
    EdgeVertexTypes(usize),
}

/// The factor that an edge of the given kind describes.
pub open spec fn edge_factor(edge: EdgeView, kind: FactorType) -> FactorView {
    FactorView {
        factor_type: kind,
        constraint: edge.restriction,
        information: edge.information_matrix,
        information_dim: kind.spec_information_dim(),
    }
}

/// The graph with the vertex that stands at position `at` of a model added, fixed or not,
/// or the reason why the vertex cannot be added.
pub open spec fn graph_with_vertex(graph: GraphView, vertex: VertexView, fixed: bool, at: usize) -> Result<
    GraphView,
    ModelError,
> {
    match variable_type_named(vertex.vertex_type) {
        None => Err(ModelError::UnsupportedVertexType(at)),
        Some(kind) => match graph.add_variable(kind, vertex.id, vertex.content, fixed) {
            Ok(next) => Ok(next),
            Err(GraphError::DuplicateId) => Err(ModelError::DuplicateVertexId(at)),
            Err(GraphError::ContentLength) => Err(ModelError::VertexContentLength(at)),
            Err(_) => Err(ModelError::TooLarge(at)),
        },
    }
}

/// The graph with the edge that stands at position `at` of a model added, or the reason
/// why the edge cannot be added.
pub open spec fn graph_with_edge(graph: GraphView, edge: EdgeView, at: usize) -> Result<
    GraphView,
    ModelError,
> {
    match factor_type_named(edge.edge_type) {
        None => Err(ModelError::UnsupportedEdgeType(at)),
        Some(kind) => if edge.vertices.len() != kind.spec_arity() {
            Err(ModelError::EdgeVertexCount(at))
        } else if !graph.ids.contains_key(edge.vertices[0]) || !graph.ids.contains_key(
            edge.vertices[kind.spec_arity() - 1],
        ) {
            Err(ModelError::UnknownVertex(at))
        } else {
            match graph.add_factor(
                graph.ids[edge.vertices[0]],
                graph.ids[edge.vertices[kind.spec_arity() - 1]],
                edge_factor(edge, kind),
            ) {
                Ok(next) => Ok(next),
                Err(GraphError::FactorShape) => Err(ModelError::EdgeShape(at)),
                Err(_) => Err(ModelError::EdgeVertexTypes(at)),
            }
        },
    }
}

/// The graph with the first `count` vertices of a model added in their order, or the
/// reason why the first of them that cannot be added cannot.
pub open spec fn graph_with_vertices(graph: GraphView, model: ModelView, count: int) -> Result<
    GraphView,
    ModelError,
>
    decreases count,
{
    if count <= 0 {
        Ok(graph)
    } else {
        match graph_with_vertices(graph, model, count - 1) {
            Err(error) => Err(error),
            Ok(next) => graph_with_vertex(
                next,
                model.vertices[count - 1],
                model.fixed_vertices.contains(model.vertices[count - 1].id),
                (count - 1) as usize,
            ),
        }
    }
}

/// The graph with the first `count` edges of a model added in their order, or the reason
/// why the first of them that cannot be added cannot.
pub open spec fn graph_with_edges(graph: GraphView, model: ModelView, count: int) -> Result<
    GraphView,
    ModelError,
>
    decreases count,
{
    if count <= 0 {
        Ok(graph)
    } else {
        match graph_with_edges(graph, model, count - 1) {
            Err(error) => Err(error),
            Ok(next) => graph_with_edge(next, model.edges[count - 1], (count - 1) as usize),
        }
    }
}

/// The graph that a model describes: its vertices in their order, each fixed if the
/// model says so, and then its edges in their order. Where a vertex or an edge cannot be
/// added, the reason for the first such.
pub open spec fn graph_of(model: ModelView) -> Result<GraphView, ModelError> {
    match graph_with_vertices(GraphView::empty(), model, model.vertices.len() as int) {
        Err(error) => Err(error),
        Ok(graph) => graph_with_edges(graph, model, model.edges.len() as int),
    }
}

/// Adds the vertex that stands at position `at` of a model to a graph.
pub fn add_vertex(graph: &mut FactorGraph, vertex: &Vertex, fixed: bool, at: usize) -> (added: Result<
    (),
    ModelError,
>)
    requires
        old(graph).wf(),
    ensures
        final(graph).wf(),
        match added {
            Ok(()) => graph_with_vertex(old(graph)@, vertex@, fixed, at) == Ok::<
                GraphView,
                ModelError,
            >(final(graph)@),
            Err(error) => graph_with_vertex(old(graph)@, vertex@, fixed, at) == Err::<
                GraphView,
                ModelError,
            >(error) && *final(graph) == *old(graph),
        },
{
    let kind = match VariableType::from_name(vertex.vertex_type.as_str()) {
        None => {
            return Err(ModelError::UnsupportedVertexType(at));
        },
        Some(kind) => kind,
    };
    match graph.add_variable(kind, vertex.id, &vertex.content, fixed) {
        Ok(_) => Ok(()),
        Err(GraphError::DuplicateId) => Err(ModelError::DuplicateVertexId(at)),
        Err(GraphError::ContentLength) => Err(ModelError::VertexContentLength(at)),
        Err(_) => Err(ModelError::TooLarge(at)),
    }
}

/// Adds the edge that stands at position `at` of a model to a graph.
pub fn add_edge(graph: &mut FactorGraph, edge: &Edge, at: usize) -> (added: Result<(), ModelError>)
    requires
        old(graph).wf(),
    ensures
        final(graph).wf(),
        match added {
            Ok(()) => graph_with_edge(old(graph)@, edge@, at) == Ok::<GraphView, ModelError>(
                final(graph)@,
            ),
            Err(error) => graph_with_edge(old(graph)@, edge@, at) == Err::<GraphView, ModelError>(
                error,
            ) && *final(graph) == *old(graph),
        },
{
    let kind = match FactorType::from_name(edge.edge_type.as_str()) {
        None => {
            return Err(ModelError::UnsupportedEdgeType(at));
        },
        Some(kind) => kind,
    };
    if edge.vertices.len() != kind.arity() {
        return Err(ModelError::EdgeVertexCount(at));
    }
    let source = match graph.index_of(edge.vertices[0]) {
        None => {
            return Err(ModelError::UnknownVertex(at));
        },
        Some(index) => index,
    };
    let target = match graph.index_of(edge.vertices[kind.arity() - 1]) {
        None => {
            return Err(ModelError::UnknownVertex(at));
        },
        Some(index) => index,
    };
    let factor = Factor {
        factor_type: kind,
        constraint: copy_of(&edge.restriction),
        information_matrix: InformationMatrix {
            content: copy_of(&edge.information_matrix),
            dim: kind.information_dim(),
        },
    };
    assert(factor@ == edge_factor(edge@, kind));
    match graph.add_factor(source, target, factor) {
        Ok(()) => Ok(()),
        Err(GraphError::FactorShape) => Err(ModelError::EdgeShape(at)),
        Err(_) => Err(ModelError::EdgeVertexTypes(at)),
    }
}

impl FactorGraph {
    /// The factor graph that a model describes, or the reason why it describes none.
    pub fn from(model: FactorGraphModel) -> (graph: Result<FactorGraph, ModelError>)
        ensures
            match graph {
                Ok(graph) => graph.wf() && graph_of(model@) == Ok::<GraphView, ModelError>(graph@),
                Err(error) => graph_of(model@) == Err::<GraphView, ModelError>(error),
            },
    {
        let mut factor_graph = FactorGraph::new();
        let mut i: usize = 0;
        while i < model.vertices.len()
            invariant
                i <= model.vertices@.len(),
                factor_graph.wf(),
                graph_with_vertices(GraphView::empty(), model@, i as int) == Ok::<
                    GraphView,
                    ModelError,
                >(factor_graph@),
            decreases model.vertices@.len() - i,
        {
            let vertex = &model.vertices[i];
            let fixed = model.fixed_vertices.contains(&vertex.id);
            assert(model@.vertices[i as int] == vertex@);
            match add_vertex(&mut factor_graph, vertex, fixed, i) {
                Ok(()) => {},
                Err(error) => {
                    proof {
                        lemma_vertices_fail(model@, i as int + 1, model@.vertices.len() as int);
                    }
                    return Err(error);
                },
            }
            i += 1;
        }
        let ghost with_vertices = factor_graph@;
        let mut j: usize = 0;
        while j < model.edges.len()
            invariant
                j <= model.edges@.len(),
                factor_graph.wf(),
                graph_with_vertices(
                    GraphView::empty(),
                    model@,
                    model@.vertices.len() as int,
                ) == Ok::<GraphView, ModelError>(with_vertices),
                graph_with_edges(with_vertices, model@, j as int) == Ok::<GraphView, ModelError>(
                    factor_graph@,
                ),
            decreases model.edges@.len() - j,
        {
            let edge = &model.edges[j];
            assert(model@.edges[j as int] == edge@);
            match add_edge(&mut factor_graph, edge, j) {
                Ok(()) => {},
                Err(error) => {
                    proof {
                        lemma_edges_fail(with_vertices, model@, j as int + 1, model@.edges.len() as int);
                    }
                    return Err(error);
                },
            }
            j += 1;
        }
        Ok(factor_graph)
    }
}

/// The vertex that describes a variable.
pub open spec fn vertex_of(variable: Variable) -> VertexView {
    VertexView {
        id: variable.id(),
        vertex_type: variable_type_name(variable.kind()),
        content: variable.content(),
    }
}

/// The edge that describes a factor which leads from the variable at `source` to the one
/// at `target`. A prior names its one variable, other factors name both.
pub open spec fn edge_of(
    variables: Seq<Variable>,
    source: int,
    target: int,
    factor: FactorView,
) -> EdgeView {
    EdgeView {
        edge_type: factor_type_name(factor.factor_type),
        vertices: if factor.factor_type.spec_is_prior() {
            seq![variables[source].id()]
        } else {
            seq![variables[source].id(), variables[target].id()]
        },
        restriction: factor.constraint,
        information_matrix: factor.information,
    }
}

/// The edges that describe some factors, in the order of the factors.
pub open spec fn edges_of(variables: Seq<Variable>, links: Seq<Link>) -> Seq<EdgeView> {
    Seq::new(
        links.len(),
        |n: int| edge_of(variables, links[n].0 as int, links[n].1 as int, links[n].2),
    )
}

/// The identifiers of those of the first `count` variables that are fixed.
pub open spec fn fixed_ids(variables: Seq<Variable>, count: int) -> Set<usize> {
    Set::new(
        |id: usize|
            exists|i: int|
                0 <= i < count && i < variables.len() && (#[trigger] variables[i]).id() == id
                    && variables[i].fixed_type() is Fixed,
    )
}

/// The vertices that describe the first `count` variables.
pub open spec fn vertices_of(variables: Seq<Variable>, count: int) -> Seq<VertexView> {
    Seq::new(count as nat, |i: int| vertex_of(variables[i]))
}

/// The model that describes a graph: a vertex for each variable, in the order of the
/// variables; an edge for each factor, in the order of the variables that the factors
/// leave, then of those that they lead to, then in the order in which they were added;
/// and the identifiers of the fixed variables.
pub open spec fn model_of(graph: GraphView) -> ModelView {
    ModelView {
        vertices: vertices_of(graph.variables, graph.variables.len() as int),
        edges: edges_of(graph.variables, graph.links()),
        fixed_vertices: fixed_ids(graph.variables, graph.variables.len() as int),
    }
}

impl FactorGraphModel {
    /// The model that describes a factor graph.
    pub fn from(factor_graph: &FactorGraph) -> (model: FactorGraphModel)
        requires
            factor_graph.wf(),
        ensures
            model@ == model_of(factor_graph@),
    {
        let mut vertices: Vec<Vertex> = Vec::new();
        let mut edges: Vec<Edge> = Vec::new();
        let mut fixed_vertices: BTreeSet<usize> = BTreeSet::new();
        let ghost variables = factor_graph@.variables;
        let ghost links = factor_graph@.links();
        let count = factor_graph.node_count();
        let mut a: usize = 0;
        while a < count
            invariant
                factor_graph.wf(),
                variables == factor_graph@.variables,
                count == variables.len(),
                a <= count,
                vertices@.len() == a,
                vertex_views(vertices@) == vertices_of(variables, a as int),
                fixed_vertices@ == fixed_ids(variables, a as int),
            decreases count - a,
        {
            let node = factor_graph.get_var(a);
            let id = node.get_id();
            let vertex = Vertex {
                id,
                vertex_type: node.get_type().name(),
                content: node.get_content(),
            };
            assert(vertex@ == vertex_of(variables[a as int]));
            let ghost before_vertices = vertices@;
            vertices.push(vertex);
            assert(vertex_views(vertices@) =~= vertices_of(variables, a as int + 1)) by {
                assert forall|v: int| 0 <= v < a as int + 1 implies vertex_views(vertices@)[v]
                    == vertices_of(variables, a as int + 1)[v] by {
                    if v < a {
                        assert(vertices@[v] == before_vertices[v]);
                        assert(vertex_views(before_vertices)[v] == before_vertices[v]@);
                    }
                }
            }
            let fixed = match node.get_fixed_type() {
                FixedType::Fixed => true,
                _ => false,
            };
            if fixed {
                fixed_vertices.insert(id);
            }
            assert(fixed_vertices@ =~= fixed_ids(variables, a as int + 1)) by {
                assert forall|other: usize|
                    fixed_ids(variables, a as int + 1).contains(other) implies fixed_ids(
                    variables,
                    a as int,
                ).contains(other) || (fixed && other == id) by {
                    let w = choose|w: int|
                        0 <= w < a as int + 1 && w < variables.len() && (#[trigger] variables[w]).id()
                            == other && variables[w].fixed_type() is Fixed;
                    if w < a {
                        assert(variables[w].id() == other);
                    }
                }
                if fixed {
                    assert(variables[a as int].id() == id);
                }
                assert forall|other: usize|
                    fixed_ids(variables, a as int).contains(other) implies fixed_ids(
                    variables,
                    a as int + 1,
                ).contains(other) by {
                    let w = choose|w: int|
                        0 <= w < a as int && w < variables.len() && (#[trigger] variables[w]).id()
                            == other && variables[w].fixed_type() is Fixed;
                    assert(variables[w].id() == other);
                }
            }
            a += 1;
        }
        let all = factor_graph.factors();
        let mut n: usize = 0;
        while n < all.len()
            invariant
                factor_graph.wf(),
                variables == factor_graph@.variables,
                links == factor_graph@.links(),
                all@.len() == links.len(),
                forall|m: int|
                    0 <= m < all@.len() ==> (#[trigger] all@[m]).0 == links[m].0 && all@[m].1
                        == links[m].1 && all@[m].2@ == links[m].2 && factor_ok(
                        variables,
                        all@[m].0 as int,
                        all@[m].1 as int,
                        all@[m].2@,
                    ),
                n <= all@.len(),
                edges@.len() == n,
                forall|m: int|
                    0 <= m < n ==> (#[trigger] edges@[m])@ == edge_of(
                        variables,
                        links[m].0 as int,
                        links[m].1 as int,
                        links[m].2,
                    ),
            decreases all@.len() - n,
        {
            let (source, target, factor) = all[n];
            assert(factor_ok(
                variables,
                all@[n as int].0 as int,
                all@[n as int].1 as int,
                all@[n as int].2@,
            ));
            let mut edge_vertices: Vec<usize> = Vec::new();
            edge_vertices.push(factor_graph.get_var(source).get_id());
            if !factor.factor_type.is_prior() {
                edge_vertices.push(factor_graph.get_var(target).get_id());
            }
            let edge = Edge {
                edge_type: factor.factor_type.name(),
                vertices: edge_vertices,
                restriction: copy_of(&factor.constraint),
                information_matrix: copy_of(&factor.information_matrix.content),
            };
            assert(edge@.vertices =~= edge_of(
                variables,
                source as int,
                target as int,
                factor@,
            ).vertices);
            let ghost before_edges = edges@;
            edges.push(edge);
            assert forall|m: int| 0 <= m < n + 1 implies (#[trigger] edges@[m])@ == edge_of(
                variables,
                links[m].0 as int,
                links[m].1 as int,
                links[m].2,
            ) by {
                if m < n {
                    assert(edges@[m] == before_edges[m]);
                }
            }
            n += 1;
        }
        let model = FactorGraphModel { vertices, edges, fixed_vertices };
        assert(edge_views(model.edges@) =~= edges_of(variables, links));
        assert(model@ =~= model_of(factor_graph@));
        model
    }
}

/// What the vertices of a model say of the first variables of a graph: each variable has
/// the identifier, the kind and the content of the vertex at its position, and is fixed
/// exactly if the model fixes the vertex.
pub open spec fn variables_match(graph: GraphView, model: ModelView, count: int) -> bool {
    &&& graph.variables.len() >= count
    &&& forall|i: int|
        0 <= i < count ==> vertex_of(#[trigger] graph.variables[i]) == model.vertices[i]
            && graph.variables[i].fixed_type().is_fixed() == model.fixed_vertices.contains(
            model.vertices[i].id,
        )
}

/// A graph that a model describes has a variable for each vertex of the model, in the
/// model's order, with the vertex's identifier, kind and content, fixed exactly if the
/// model fixes the vertex; and it is sound.
pub proof fn lemma_graph_of_vertices(model: ModelView, graph: GraphView)
    requires
        model.vertices.len() <= usize::MAX,
        graph_of(model) == Ok::<GraphView, ModelError>(graph),
    ensures
        graph.variables.len() == model.vertices.len(),
        variables_match(graph, model, model.vertices.len() as int),
        graph.wf(),
{
    let count = model.vertices.len() as int;
    let with_vertices = graph_with_vertices(GraphView::empty(), model, count)->Ok_0;
    lemma_with_vertices(model, count);
    lemma_with_edges(with_vertices, model, model.edges.len() as int);
}

/// What holds of a graph after the first `count` vertices of a model were added.
proof fn lemma_with_vertices(model: ModelView, count: int)
    requires
        0 <= count <= model.vertices.len(),
        model.vertices.len() <= usize::MAX,
        graph_with_vertices(GraphView::empty(), model, count) is Ok,
    ensures
        ({
            let graph = graph_with_vertices(GraphView::empty(), model, count)->Ok_0;
            &&& graph.variables.len() == count
            &&& variables_match(graph, model, count)
            &&& graph.wf()
            &&& graph.adjacency.len() == count
        }),
    decreases count,
{
    if count > 0 {
        lemma_with_vertices(model, count - 1);
        let before = graph_with_vertices(GraphView::empty(), model, count - 1)->Ok_0;
        let after = graph_with_vertices(GraphView::empty(), model, count)->Ok_0;
        let vertex = model.vertices[count - 1];
        let fixed = model.fixed_vertices.contains(vertex.id);
        let kind = variable_type_named(vertex.vertex_type)->0;
        assert(before.add_variable(kind, vertex.id, vertex.content, fixed) == Ok::<
            GraphView,
            GraphError,
        >(after));
        lemma_add_variable(before, kind, vertex.id, vertex.content, fixed);
        lemma_variable_of(
            kind,
            vertex.id,
            vertex.content,
            next_place(before.dim, kind, fixed),
        );
        assert forall|i: int| 0 <= i < count implies vertex_of(#[trigger] after.variables[i])
            == model.vertices[i] && after.variables[i].fixed_type().is_fixed()
            == model.fixed_vertices.contains(model.vertices[i].id) by {
            if i < count - 1 {
                assert(after.variables[i] == before.variables[i]);
            }
        }
    } else {
        assert(GraphView::empty().wf());
    }
}

/// Edges leave the variables of a graph as they are, and the graph sound.
proof fn lemma_with_edges(graph: GraphView, model: ModelView, count: int)
    requires
        0 <= count <= model.edges.len(),
        graph.wf(),
        graph_with_edges(graph, model, count) is Ok,
    ensures
        graph_with_edges(graph, model, count)->Ok_0.variables == graph.variables,
        graph_with_edges(graph, model, count)->Ok_0.wf(),
    decreases count,
{
    if count > 0 {
        lemma_with_edges(graph, model, count - 1);
        let before = graph_with_edges(graph, model, count - 1)->Ok_0;
        let edge = model.edges[count - 1];
        let kind = factor_type_named(edge.edge_type)->0;
        lemma_add_factor(
            before,
            before.ids[edge.vertices[0]],
            before.ids[edge.vertices[kind.spec_arity() - 1]],
            edge_factor(edge, kind),
        );
    }
}

/// Once a vertex cannot be added, the vertices behind it do not change the reason.
proof fn lemma_vertices_fail(model: ModelView, failed: int, count: int)
    requires
        failed <= count,
        graph_with_vertices(GraphView::empty(), model, failed) is Err,
    ensures
        graph_with_vertices(GraphView::empty(), model, count) == graph_with_vertices(
            GraphView::empty(),
            model,
            failed,
        ),
    decreases count - failed,
{
    if failed < count {
        lemma_vertices_fail(model, failed, count - 1);
    }
}

/// Once an edge cannot be added, the edges behind it do not change the reason.
proof fn lemma_edges_fail(graph: GraphView, model: ModelView, failed: int, count: int)
    requires
        failed <= count,
        graph_with_edges(graph, model, failed) is Err,
    ensures
        graph_with_edges(graph, model, count) == graph_with_edges(graph, model, failed),
    decreases count - failed,
{
    if failed < count {
        lemma_edges_fail(graph, model, failed, count - 1);
    }
}

} // verus!
