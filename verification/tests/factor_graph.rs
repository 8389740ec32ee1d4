use gs_rs::factor_graph::factor::{Factor, FactorType, InformationMatrix};
use gs_rs::factor_graph::variable::{
    FixedType, LandmarkVariable2D, LandmarkVariable3D, Variable, VariableType, VehicleVariable2D,
    VehicleVariable3D,
};
use gs_rs::factor_graph::{add_var_to_matrix, FactorGraph, GraphError};

fn factor(factor_type: FactorType, constraint: usize, dim: usize) -> Factor {
    Factor {
        factor_type,
        constraint: (0..constraint as u64).collect(),
        information_matrix: InformationMatrix { content: vec![7; dim * dim], dim },
    }
}

#[test]
fn ranges_follow_each_other() {
    let mut dim = 0;
    assert_eq!(add_var_to_matrix(&mut dim, 3, false), FixedType::NonFixed(0..3));
    assert_eq!(add_var_to_matrix(&mut dim, 2, true), FixedType::Fixed);
    assert_eq!(dim, 3);
    assert_eq!(add_var_to_matrix(&mut dim, 6, false), FixedType::NonFixed(3..9));
    assert_eq!(add_var_to_matrix(&mut dim, 3, false), FixedType::NonFixed(9..12));
    assert_eq!(dim, 12);
}

#[test]
fn kinds_have_their_sizes() {
    let kinds =
        [VariableType::Vehicle2D, VariableType::Landmark2D, VariableType::Vehicle3D, VariableType::Landmark3D];
    assert_eq!(kinds.map(|k| k.content_len()), [3, 2, 7, 3]);
    assert_eq!(kinds.map(|k| k.local_dim()), [3, 2, 6, 3]);
    assert_eq!(kinds.map(|k| k.name()), ["Vehicle2D", "Landmark2D", "Vehicle3D", "Landmark3D"]);
    assert_eq!(VariableType::from_name("Landmark3D"), Some(VariableType::Landmark3D));
    assert_eq!(VariableType::from_name("landmark3d"), None);
    let factors = [
        FactorType::Position2D,
        FactorType::Odometry2D,
        FactorType::Observation2D,
        FactorType::Position3D,
        FactorType::Odometry3D,
        FactorType::Observation3D,
    ];
    assert_eq!(factors.map(|f| f.constraint_len()), [3, 3, 2, 7, 7, 3]);
    assert_eq!(factors.map(|f| f.information_dim()), [3, 3, 2, 6, 6, 3]);
    assert_eq!(factors.map(|f| f.arity()), [1, 2, 2, 1, 2, 2]);
    assert_eq!(factors.map(|f| f.is_prior()), [true, false, false, true, false, false]);
    assert_eq!(factors.map(|f| f.target_type()).map(|k| k.name())[5], "Landmark3D");
    assert_eq!(factors.map(|f| f.source_type()).map(|k| k.name())[2], "Vehicle2D");
    assert_eq!(FactorType::from_name("Odometry3D"), Some(FactorType::Odometry3D));
    assert_eq!(FactorType::from_name(""), None);
    assert_eq!(FactorType::Observation2D.name(), "Observation2D");
}

#[test]
fn variables_hold_their_values() {
    let mut variable = Variable::Vehicle2D(VehicleVariable2D::new(5, 10, 20, 30, FixedType::NonFixed(3..6)));
    assert_eq!(variable.get_id(), 5);
    assert_eq!(variable.get_type(), VariableType::Vehicle2D);
    assert_eq!(variable.get_fixed_type(), &FixedType::NonFixed(3..6));
    assert_eq!(variable.get_content(), vec![10, 20, 30]);
    variable.set_content(vec![1, 2, 3, 4]);
    assert_eq!(variable.get_content(), vec![1, 2, 3]);
    assert_eq!(variable.get_id(), 5);
    assert_eq!(variable.clone_value().get_content(), vec![1, 2, 3]);

    let mut landmark = Variable::Landmark3D(LandmarkVariable3D::new(1, 7, 8, 9, FixedType::Fixed));
    landmark.set_content(vec![4, 5, 6]);
    assert_eq!(landmark.get_content(), vec![4, 5, 6]);
    let landmark = Variable::Landmark2D(LandmarkVariable2D::new(2, 7, 8, FixedType::Fixed));
    assert_eq!(landmark.get_content(), vec![7, 8]);
    let vehicle = Variable::Vehicle3D(VehicleVariable3D::new(3, 1, 2, 3, 4, 5, 6, 7, FixedType::Fixed));
    assert_eq!(vehicle.get_content(), vec![1, 2, 3, 4, 5, 6, 7]);
    let made = Variable::new(VariableType::Landmark2D, 9, &vec![3, 4], FixedType::NonFixed(0..2));
    assert_eq!(made.get_content(), vec![3, 4]);
    assert_eq!(made.get_type(), VariableType::Landmark2D);
}

#[test]
fn information_matrices_are_square() {
    assert_eq!(InformationMatrix::from(vec![0; 9]).unwrap().dim, 3);
    assert_eq!(InformationMatrix::from(vec![0; 36]).unwrap().dim, 6);
    assert_eq!(InformationMatrix::from(vec![]).unwrap().dim, 0);
    assert_eq!(InformationMatrix::from(vec![5]).unwrap().content, vec![5]);
    assert!(InformationMatrix::from(vec![0; 8]).is_none());
    assert!(InformationMatrix::from(vec![0; 2]).is_none());
}

#[test]
fn variables_enter_a_graph() {
    let mut graph = FactorGraph::new();
    assert_eq!(graph.node_count(), 0);
    assert_eq!(graph.add_variable(VariableType::Vehicle2D, 10, &vec![1, 2, 3], false), Ok(0));
    assert_eq!(graph.add_variable(VariableType::Landmark2D, 20, &vec![4, 5], true), Ok(1));
    assert_eq!(graph.add_variable(VariableType::Vehicle3D, 30, &vec![1, 2, 3, 4, 5, 6, 7], false), Ok(2));
    assert_eq!(
        graph.add_variable(VariableType::Vehicle2D, 20, &vec![1, 2, 3], false),
        Err(GraphError::DuplicateId)
    );
    assert_eq!(
        graph.add_variable(VariableType::Vehicle2D, 40, &vec![1, 2], false),
        Err(GraphError::ContentLength)
    );
    assert_eq!(graph.node_count(), 3);
    assert_eq!(graph.matrix_dim(), 9);
    assert_eq!(graph.get_var(0).get_fixed_type(), &FixedType::NonFixed(0..3));
    assert_eq!(graph.get_var(1).get_fixed_type(), &FixedType::Fixed);
    assert_eq!(graph.get_var(2).get_fixed_type(), &FixedType::NonFixed(3..9));
    assert_eq!(graph.index_of(30), Some(2));
    assert_eq!(graph.fixed_ids(), vec![20]);
    assert_eq!(graph.index_of(0), None);
    graph.set_content(1, vec![8, 9]);
    assert_eq!(graph.get_var(1).get_content(), vec![8, 9]);
    assert_eq!(graph.get_var(0).get_content(), vec![1, 2, 3]);
}

#[test]
fn factors_enter_a_graph_in_order() {
    let mut graph = FactorGraph::new();
    graph.add_variable(VariableType::Vehicle2D, 0, &vec![0, 0, 0], false).unwrap();
    graph.add_variable(VariableType::Vehicle2D, 1, &vec![0, 0, 0], false).unwrap();
    graph.add_variable(VariableType::Landmark2D, 2, &vec![0, 0], false).unwrap();
    assert_eq!(graph.add_factor(0, 2, factor(FactorType::Observation2D, 2, 2)), Ok(()));
    assert_eq!(graph.add_factor(0, 1, factor(FactorType::Odometry2D, 3, 3)), Ok(()));
    assert_eq!(graph.add_factor(0, 0, factor(FactorType::Position2D, 3, 3)), Ok(()));
    let mut second = factor(FactorType::Odometry2D, 3, 3);
    second.constraint = vec![9, 9, 9];
    assert_eq!(graph.add_factor(0, 1, second), Ok(()));
    assert_eq!(graph.add_factor(0, 3, factor(FactorType::Odometry2D, 3, 3)), Err(GraphError::UnknownVariable));
    assert_eq!(graph.add_factor(0, 1, factor(FactorType::Odometry2D, 2, 3)), Err(GraphError::FactorShape));
    assert_eq!(graph.add_factor(0, 1, factor(FactorType::Odometry2D, 3, 2)), Err(GraphError::FactorShape));
    assert_eq!(graph.add_factor(0, 2, factor(FactorType::Odometry2D, 3, 3)), Err(GraphError::KindMismatch));
    assert_eq!(graph.add_factor(2, 0, factor(FactorType::Observation2D, 2, 2)), Err(GraphError::KindMismatch));
    assert_eq!(graph.add_factor(0, 1, factor(FactorType::Position2D, 3, 3)), Err(GraphError::KindMismatch));

    let groups = graph.edges(0);
    let targets: Vec<usize> = groups.iter().map(|g| g.0).collect();
    assert_eq!(targets, vec![0, 1, 2]);
    assert_eq!(groups[1].1.len(), 2);
    assert_eq!(groups[1].1[0].constraint, vec![0, 1, 2]);
    assert_eq!(groups[1].1[1].constraint, vec![9, 9, 9]);
    assert!(graph.edges(1).is_empty());
    let all: Vec<(usize, usize, FactorType)> =
        graph.factors().iter().map(|f| (f.0, f.1, f.2.factor_type)).collect();
    assert_eq!(
        all,
        vec![
            (0, 0, FactorType::Position2D),
            (0, 1, FactorType::Odometry2D),
            (0, 1, FactorType::Odometry2D),
            (0, 2, FactorType::Observation2D)
        ]
    );
}

#[test]
fn many_factors_leave_one_variable() {
    // More targets than a short row holds, added from the last to the first.
    let mut graph = FactorGraph::new();
    graph.add_variable(VariableType::Vehicle2D, 0, &vec![0, 0, 0], false).unwrap();
    for id in 1..=40 {
        graph.add_variable(VariableType::Landmark2D, id, &vec![0, 0], true).unwrap();
    }
    for target in (1..=40).rev() {
        assert_eq!(graph.add_factor(0, target, factor(FactorType::Observation2D, 2, 2)), Ok(()));
    }
    assert_eq!(graph.add_factor(0, 17, factor(FactorType::Observation2D, 2, 2)), Ok(()));
    let groups = graph.edges(0);
    let targets: Vec<usize> = groups.iter().map(|g| g.0).collect();
    assert_eq!(targets, (1..=40).collect::<Vec<usize>>());
    assert_eq!(groups[16].1.len(), 2);
    assert_eq!(graph.factors().len(), 41);
}
