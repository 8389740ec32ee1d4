use gs_rs::factor_graph::variable::FixedType;
use gs_rs::factor_graph::FactorGraph;
use gs_rs::parser::model::converter::ModelError;
use gs_rs::parser::model::{Edge, FactorGraphModel, Vertex};
use std::collections::BTreeSet;

fn bits(values: &[f64]) -> Vec<u64> {
    values.iter().map(|v| v.to_bits()).collect()
}

fn get_2d_model() -> FactorGraphModel {
    let vertices = vec![
        Vertex { id: 0, vertex_type: String::from("Vehicle2D"), content: bits(&[1.0, 0.0, 1.57]) },
        Vertex { id: 1, vertex_type: String::from("Vehicle2D"), content: bits(&[0.0, 1.0, 3.14]) },
        Vertex { id: 2, vertex_type: String::from("Landmark2D"), content: bits(&[1.5, 2.0]) },
    ];
    let edges = vec![
        Edge {
            edge_type: String::from("Odometry2D"),
            vertices: vec![0, 1],
            restriction: bits(&[1.0, 1.5, 1.57]),
            information_matrix: bits(&[1.0, 0.0, 0.0, 0.0, 1.0, 0.0, 0.0, 0.0, 1.0]),
        },
        Edge {
            edge_type: String::from("Observation2D"),
            vertices: vec![0, 2],
            restriction: bits(&[0.0, -1.0]),
            information_matrix: bits(&[1.0, 0.0, 0.0, 1.0]),
        },
        Edge {
            edge_type: String::from("Position2D"),
            vertices: vec![1],
            restriction: bits(&[0.0, 1.0, 3.13]),
            information_matrix: bits(&[10.0, 0.0, 0.0, 0.0, 10.0, 0.0, 0.0, 0.0, 1.0]),
        },
    ];
    let mut fixed_vertices = BTreeSet::new();
    fixed_vertices.insert(0);
    FactorGraphModel { vertices, edges, fixed_vertices }
}

#[test]
fn model_to_graph_assigns_ranges_in_order() {
    let graph = FactorGraph::from(get_2d_model()).unwrap();
    assert_eq!(graph.node_count(), 3);
    assert_eq!(graph.matrix_dim(), 5);
    assert_eq!(graph.get_var(0).get_fixed_type(), &FixedType::Fixed);
    assert_eq!(graph.get_var(1).get_fixed_type(), &FixedType::NonFixed(0..3));
    assert_eq!(graph.get_var(2).get_fixed_type(), &FixedType::NonFixed(3..5));
    assert_eq!(graph.get_var(1).get_content(), bits(&[0.0, 1.0, 3.14]));
    assert_eq!(graph.index_of(2), Some(2));
    assert_eq!(graph.index_of(7), None);
}

#[test]
fn graph_to_model_round_trip() {
    let graph = FactorGraph::from(get_2d_model()).unwrap();
    let model = FactorGraphModel::from(&graph);
    assert_eq!(model, get_2d_model());
}

#[test]
fn a_graph_is_what_its_model_describes() {
    let mut model = get_2d_model();
    model.edges.reverse();
    let graph = FactorGraph::from(model).unwrap();
    let described = FactorGraphModel::from(&graph);
    // The model of a graph lists the edges by the vertices that they connect.
    assert_eq!(described, get_2d_model());
    let again = FactorGraph::from(FactorGraphModel::from(&graph)).unwrap();
    assert_eq!(FactorGraphModel::from(&again), described);
    assert_eq!(again.matrix_dim(), graph.matrix_dim());
}

#[test]
fn parallel_factors_are_kept() {
    let mut model = get_2d_model();
    model.edges.push(Edge {
        edge_type: String::from("Odometry2D"),
        vertices: vec![0, 1],
        restriction: bits(&[2.0, 2.5, 0.5]),
        information_matrix: bits(&[1.0, 0.0, 0.0, 0.0, 1.0, 0.0, 0.0, 0.0, 1.0]),
    });
    let graph = FactorGraph::from(model).unwrap();
    let groups = graph.edges(0);
    assert_eq!(groups.len(), 2);
    assert_eq!(groups[0].0, 1);
    assert_eq!(groups[0].1.len(), 2);
    assert_eq!(groups[0].1[1].constraint, bits(&[2.0, 2.5, 0.5]));
    assert_eq!(groups[1].0, 2);
    assert_eq!(graph.factors().len(), 4);
}

#[test]
fn model_errors() {
    let mut model = get_2d_model();
    model.vertices[1].vertex_type = String::from("Vehicle4D");
    assert_eq!(FactorGraph::from(model).err(), Some(ModelError::UnsupportedVertexType(1)));

    let mut model = get_2d_model();
    model.vertices[2].id = 0;
    assert_eq!(FactorGraph::from(model).err(), Some(ModelError::DuplicateVertexId(2)));

    let mut model = get_2d_model();
    model.vertices[2].content.push(0);
    assert_eq!(FactorGraph::from(model).err(), Some(ModelError::VertexContentLength(2)));

    let mut model = get_2d_model();
    model.edges[0].edge_type = String::from("Odometry");
    assert_eq!(FactorGraph::from(model).err(), Some(ModelError::UnsupportedEdgeType(0)));

    let mut model = get_2d_model();
    model.edges[2].vertices.push(0);
    assert_eq!(FactorGraph::from(model).err(), Some(ModelError::EdgeVertexCount(2)));

    let mut model = get_2d_model();
    model.edges[1].vertices[1] = 9;
    assert_eq!(FactorGraph::from(model).err(), Some(ModelError::UnknownVertex(1)));

    let mut model = get_2d_model();
    model.edges[1].restriction.push(0);
    assert_eq!(FactorGraph::from(model).err(), Some(ModelError::EdgeShape(1)));

    let mut model = get_2d_model();
    model.edges[0].vertices[1] = 2;
    assert_eq!(FactorGraph::from(model).err(), Some(ModelError::EdgeVertexTypes(0)));
}
