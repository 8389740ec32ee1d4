use gs_rs::factor_graph::factor::{Factor, FactorType};
use gs_rs::factor_graph::variable::Variable;
use gs_rs::factor_graph::FactorGraph;
use gs_rs::optimizer::linear_system::{
    calculate_H_b, negate, negate_b, update_H_b, Block, LinearSystem, Segment,
};
use gs_rs::optimizer::solver::{SolverError, SparseCholeskySolver};
use gs_rs::optimizer::{
    apply_value, correction_for, optimize, update_once, update_var, Numerics, OptimizeError,
};
use gs_rs::factor_graph::variable::{FixedType, LandmarkVariable2D, VehicleVariable2D};
use gs_rs::parser::model::{Edge, FactorGraphModel, Vertex};
use gs_rs::parser::NumberText;
use nalgebra::{
    CsCholesky, CsMatrix, DMatrix, DVector, Isometry3, Matrix3, Quaternion, Rotation2, Rotation3,
    SMatrix, Translation3, UnitQuaternion, Vector2, Vector3,
};
use std::collections::BTreeSet;
use std::f64::consts::PI;

/// Double-precision arithmetic on scalars that the library holds as bit patterns.
pub struct Doubles;

fn floats(bits: &[u64]) -> Vec<f64> {
    bits.iter().map(|b| f64::from_bits(*b)).collect()
}

fn bits(values: &[f64]) -> Vec<u64> {
    values.iter().map(|v| v.to_bits()).collect()
}

/// The angle in `(-PI, PI]` that differs from `angle` by a multiple of a full turn.
pub fn wrap_angle(angle: f64) -> f64 {
    let turn = 2.0 * PI;
    let wrapped = ((angle % turn) + turn) % turn;
    if wrapped > PI {
        wrapped - turn
    } else {
        wrapped
    }
}

#[allow(non_snake_case)]
pub fn calc_dq_dR(matr: &Matrix3<f64>) -> SMatrix<f64, 3, 9> {
    let m = matr;
    let trace = m[(0, 0)] + m[(1, 1)] + m[(2, 2)];
    let sin = (trace + 1.0).sqrt() * 0.5;
    let factor = -0.03125 / (sin * sin * sin);
    let a1 = (m[(2, 1)] - m[(1, 2)]) * factor;
    let a2 = (m[(0, 2)] - m[(2, 0)]) * factor;
    let a3 = (m[(1, 0)] - m[(0, 1)]) * factor;
    let b = 0.25 / sin;
    let columns = [ a1,  a2,  a3,
                   0.0, 0.0,   b,
                   0.0,  -b, 0.0,
                   0.0, 0.0,  -b,
                    a1,  a2,  a3,
                     b, 0.0, 0.0,
                   0.0,   b, 0.0,
                    -b, 0.0, 0.0,
                    a1,  a2,  a3];
    SMatrix::<f64, 3, 9>::from_column_slice(&columns)
}

pub fn skew_trans(trans: &Translation3<f64>) -> Matrix3<f64> {
    let t = 2.0 * trans.vector;
    let columns = [  0.0, -t[2],  t[1],
                    t[2],   0.0, -t[0],
                   -t[1],  t[0],   0.0];
    Matrix3::from_column_slice(&columns)
}

fn column_as_translation(m: &Matrix3<f64>, col: usize) -> Translation3<f64> {
    Translation3::new(m[(0, col)], m[(1, col)], m[(2, col)])
}

pub fn skew_matr_and_mult_parts(matr: &Matrix3<f64>, mult: &Matrix3<f64>) -> SMatrix<f64, 9, 3> {
    let mut ret = SMatrix::<f64, 9, 3>::zeros();
    for part in 0..3 {
        let block = mult * skew_trans(&column_as_translation(matr, part));
        ret.fixed_view_mut::<3, 3>(3 * part, 0).copy_from(&block);
    }
    ret
}

#[allow(non_snake_case)]
pub fn skew_matr_T_and_mult_parts(matr: &Matrix3<f64>, mult: &Matrix3<f64>) -> SMatrix<f64, 9, 3> {
    let mut ret = SMatrix::<f64, 9, 3>::zeros();
    for part in 0..3 {
        let block = mult * skew_trans(&column_as_translation(matr, part)).transpose();
        ret.fixed_view_mut::<3, 3>(3 * part, 0).copy_from(&block);
    }
    ret
}

pub fn get_isometry(pose: &[f64]) -> Isometry3<f64> {
    Isometry3::from_parts(
        Translation3::new(pose[0], pose[1], pose[2]),
        UnitQuaternion::from_quaternion(Quaternion::new(pose[6], pose[3], pose[4], pose[5])),
    )
}

pub fn get_isometry_normalized(pose: &[f64]) -> Isometry3<f64> {
    let quaternion = Quaternion::new(1.0, pose[3], pose[4], pose[5]);
    Isometry3::from_parts(
        Translation3::new(pose[0], pose[1], pose[2]),
        UnitQuaternion::new_normalize(quaternion),
    )
}

fn rotation_z(angle: f64) -> Matrix3<f64> {
    *Rotation3::from_axis_angle(&Vector3::z_axis(), angle).matrix()
}

fn isometry_error(err: &Isometry3<f64>) -> DVector<f64> {
    let q = err.rotation.quaternion().coords;
    let t = err.translation.vector;
    DVector::from_vec(vec![t[0], t[1], t[2], q[0], q[1], q[2]])
}

/// The Jacobian and the residual of a factor at the values of its variables.
#[allow(non_snake_case)]
pub fn jacobian_and_error(factor_type: FactorType, constraint: &[f64], source: &[f64], target: &[f64]) -> (DMatrix<f64>, DVector<f64>) {
    match factor_type {
        FactorType::Position2D => {
            let (pos_v, rot_v) = (Vector2::new(source[0], source[1]), source[2]);
            let (pos_m, rot_m) = (Vector2::new(constraint[0], constraint[1]), constraint[2]);
            let jacobian = DMatrix::from_column_slice(3, 3, rotation_z(-rot_m).as_slice());
            let err_pos = Rotation2::new(-rot_m) * (pos_v - pos_m);
            let err = DVector::from_vec(vec![err_pos[0], err_pos[1], wrap_angle(rot_v - rot_m)]);
            (jacobian, err)
        }
        FactorType::Odometry2D => {
            let (pos_i, rot_i) = (Vector2::new(source[0], source[1]), source[2]);
            let (pos_j, rot_j) = (Vector2::new(target[0], target[1]), target[2]);
            let (pos_ij, rot_ij) = (Vector2::new(constraint[0], constraint[1]), constraint[2]);
            let R_ij_T = rotation_z(-rot_ij);
            let delta = pos_j - pos_i;
            let (sin_i, cos_i) = (rot_i.sin(), rot_i.cos());
            let top = -sin_i * delta[0] + cos_i * delta[1];
            let mid = -cos_i * delta[0] - sin_i * delta[1];
            let jacobian_i = R_ij_T * Matrix3::from_column_slice(&[-cos_i,  sin_i,  0.0,
                                                                    -sin_i, -cos_i,  0.0,
                                                                       top,    mid, -1.0]);
            let jacobian_j = R_ij_T * rotation_z(-rot_i);
            let mut jacobian = DMatrix::zeros(3, 6);
            jacobian.view_mut((0, 0), (3, 3)).copy_from(&jacobian_i);
            jacobian.view_mut((0, 3), (3, 3)).copy_from(&jacobian_j);
            let err_pos = Rotation2::new(-rot_ij) * (Rotation2::new(-rot_i) * delta - pos_ij);
            let err = DVector::from_vec(vec![err_pos[0], err_pos[1], wrap_angle(rot_j - rot_i - rot_ij)]);
            (jacobian, err)
        }
        FactorType::Observation2D => {
            let (pos_i, rot_i) = (Vector2::new(source[0], source[1]), source[2]);
            let pos_j = Vector2::new(target[0], target[1]);
            let pos_ij = Vector2::new(constraint[0], constraint[1]);
            let delta = pos_j - pos_i;
            let (sin_i, cos_i) = (rot_i.sin(), rot_i.cos());
            let top = -sin_i * delta[0] + cos_i * delta[1];
            let bot = -cos_i * delta[0] - sin_i * delta[1];
            let jacobian = DMatrix::from_column_slice(2, 5, &[-cos_i,  sin_i,
                                                               -sin_i, -cos_i,
                                                                  top,    bot,
                                                                cos_i, -sin_i,
                                                                sin_i,  cos_i]);
            let err_pos = Rotation2::new(-rot_i) * delta - pos_ij;
            (jacobian, DVector::from_vec(vec![err_pos[0], err_pos[1]]))
        }
        FactorType::Position3D => {
            let iso_v = get_isometry(source);
            let iso_m = get_isometry(constraint);
            let err = iso_m.inverse() * iso_v;
            let err_rot = *err.rotation.to_rotation_matrix().matrix();
            let mut jacobian = DMatrix::zeros(6, 6);
            jacobian.view_mut((0, 0), (3, 3)).copy_from(&err_rot);
            jacobian
                .view_mut((3, 3), (3, 3))
                .copy_from(&(calc_dq_dR(&err_rot) * skew_matr_and_mult_parts(&Matrix3::identity(), &err_rot)));
            (jacobian, isometry_error(&err))
        }
        FactorType::Odometry3D => {
            let iso_i = get_isometry(source);
            let iso_j = get_isometry(target);
            let iso_ij = get_isometry(constraint);
            let A_ij = iso_ij.inverse();
            let B_ij = iso_i.inverse() * iso_j;
            let err = A_ij * B_ij;
            let A_rot = *A_ij.rotation.to_rotation_matrix().matrix();
            let B_rot = *B_ij.rotation.to_rotation_matrix().matrix();
            let err_rot = *err.rotation.to_rotation_matrix().matrix();
            let dq_dR = calc_dq_dR(&err_rot);
            let mut jacobian = DMatrix::zeros(6, 12);
            jacobian.view_mut((0, 0), (3, 3)).copy_from(&(-1.0 * A_rot));
            jacobian.view_mut((0, 3), (3, 3)).copy_from(&(A_rot * skew_trans(&B_ij.translation).transpose()));
            jacobian.view_mut((3, 3), (3, 3)).copy_from(&(dq_dR * skew_matr_T_and_mult_parts(&B_rot, &A_rot)));
            jacobian.view_mut((0, 6), (3, 3)).copy_from(&err_rot);
            jacobian
                .view_mut((3, 9), (3, 3))
                .copy_from(&(dq_dR * skew_matr_and_mult_parts(&Matrix3::identity(), &err_rot)));
            (jacobian, isometry_error(&err))
        }
        FactorType::Observation3D => {
            let iso_i = get_isometry(source);
            let trans_j = Translation3::new(target[0], target[1], target[2]);
            let local_j = (iso_i.inverse() * trans_j).translation;
            let pos_ij = Vector3::new(constraint[0], constraint[1], constraint[2]);
            let rot_i_inv = *iso_i.inverse().rotation.to_rotation_matrix().matrix();
            let mut jacobian = DMatrix::zeros(3, 9);
            jacobian.view_mut((0, 0), (3, 3)).copy_from(&(-Matrix3::<f64>::identity()));
            jacobian.view_mut((0, 3), (3, 3)).copy_from(&skew_trans(&local_j).transpose());
            jacobian.view_mut((0, 6), (3, 3)).copy_from(&rot_i_inv);
            let err_pos = local_j.vector - pos_ij;
            (jacobian, DVector::from_vec(vec![err_pos[0], err_pos[1], err_pos[2]]))
        }
    }
}

/// The matrix and the right-hand side of a linear system, as dense arrays.
#[allow(non_snake_case)]
pub fn dense(system: &LinearSystem) -> (DMatrix<f64>, DVector<f64>) {
    let mut H = DMatrix::zeros(system.dim, system.dim);
    let mut b = DVector::zeros(system.dim);
    for block in &system.blocks {
        for c in 0..block.cols {
            for r in 0..block.rows {
                H[(block.row + r, block.col + c)] += f64::from_bits(block.values[c * block.rows + r]);
            }
        }
    }
    for segment in &system.segments {
        for (r, value) in segment.values.iter().enumerate() {
            b[segment.row + r] += f64::from_bits(*value);
        }
    }
    (H, b)
}

/// Solves `H x = b` by sparse Cholesky factorization. Assumes that `H` is symmetric.
#[allow(non_snake_case)]
pub fn cholesky_solve(H: DMatrix<f64>, b: &DVector<f64>) -> Option<Vec<f64>> {
    let sparse = CsCholesky::new(&CsMatrix::from(H));
    let l = sparse.l()?;
    let y = l.solve_lower_triangular(b)?;
    let x = l.tr_solve_lower_triangular(&y)?;
    Some(x.as_slice().to_vec())
}

impl Numerics for Doubles {
    #[allow(non_snake_case)]
    fn linearize(&self, factor: &Factor, source: &Variable, target: &Variable) -> (Vec<u64>, Vec<u64>) {
        let (jacobi, err) = jacobian_and_error(
            factor.factor_type,
            &floats(&factor.constraint),
            &floats(&source.get_content()),
            &floats(&target.get_content()),
        );
        let dim = factor.information_matrix.dim;
        let omega = DMatrix::from_vec(dim, dim, floats(&factor.information_matrix.content));
        let right_mult = &omega * &jacobi;
        let H_updates = jacobi.transpose() * &right_mult;
        let b_updates = (err.transpose() * &right_mult).transpose();
        (bits(H_updates.as_slice()), bits(b_updates.as_slice()))
    }

    #[allow(non_snake_case)]
    fn solve(&self, system: &LinearSystem) -> Option<Vec<u64>> {
        let (H, b) = dense(system);
        cholesky_solve(H, &b).map(|x| bits(&x))
    }

    fn retract(&self, variable: &Variable, correction: &Vec<u64>) -> Vec<u64> {
        let old = floats(&variable.get_content());
        let cor = floats(correction);
        let updated = match variable {
            Variable::Vehicle2D(_) => vec![old[0] + cor[0], old[1] + cor[1], wrap_angle(old[2] + cor[2])],
            Variable::Landmark2D(_) | Variable::Landmark3D(_) => {
                old.iter().zip(cor.iter()).map(|(o, c)| o + c).collect()
            }
            Variable::Vehicle3D(_) => {
                let new_iso = get_isometry(&old) * get_isometry_normalized(&cor);
                let t = new_iso.translation.vector;
                let q = new_iso.rotation.quaternion().coords;
                vec![t[0], t[1], t[2], q[0], q[1], q[2], q[3]]
            }
        };
        bits(&updated)
    }
}

impl NumberText for Doubles {
    fn parse(&self, word: &str) -> Option<u64> {
        word.parse::<f64>().ok().map(|value| value.to_bits())
    }

    fn format(&self, number: u64) -> String {
        format!("{:?}", f64::from_bits(number))
    }
}

fn identity(dim: usize) -> Vec<u64> {
    let mut matrix = vec![0.0; dim * dim];
    for i in 0..dim {
        matrix[i * dim + i] = 1.0;
    }
    bits(&matrix)
}

fn vertex(id: usize, vertex_type: &str, content: &[f64]) -> Vertex {
    Vertex { id, vertex_type: String::from(vertex_type), content: bits(content) }
}

fn edge(edge_type: &str, vertices: &[usize], restriction: &[f64], dim: usize) -> Edge {
    Edge {
        edge_type: String::from(edge_type),
        vertices: vertices.to_vec(),
        restriction: bits(restriction),
        information_matrix: identity(dim),
    }
}

fn model(vertices: Vec<Vertex>, edges: Vec<Edge>, fixed: &[usize]) -> FactorGraphModel {
    FactorGraphModel { vertices, edges, fixed_vertices: fixed.iter().cloned().collect::<BTreeSet<usize>>() }
}

fn content(graph: &FactorGraph, index: usize) -> Vec<f64> {
    floats(&graph.get_var(index).get_content())
}

fn relative_eq(a: f64, b: f64, epsilon: f64) -> bool {
    approx::Relative::default().epsilon(epsilon).eq(&a, &b)
}

fn relative_eq_slice(actual: &[f64], expected: &[f64], epsilon: f64) {
    assert_eq!(actual.len(), expected.len());
    actual.iter().zip(expected.iter()).for_each(|(a, e)| assert!(relative_eq(*a, *e, epsilon), "{} versus {}", a, e));
}

fn mixed_2d_model() -> FactorGraphModel {
    model(
        vec![
            vertex(0, "Vehicle2D", &[0.0, 0.0, 0.0]),
            vertex(1, "Vehicle2D", &[1.1, 0.2, 0.1]),
            vertex(2, "Landmark2D", &[2.4, 1.3]),
        ],
        vec![
            edge("Odometry2D", &[0, 1], &[1.0, 0.0, 0.0], 3),
            edge("Observation2D", &[0, 2], &[2.0, 1.0], 2),
            edge("Observation2D", &[1, 2], &[1.0, 1.0], 2),
            edge("Position2D", &[1], &[1.0, 0.0, 0.0], 3),
        ],
        &[0],
    )
}

#[test]
fn test_testing_helper_pass() {
    let actual = vec![1.0, 2.0, 3.0, 4.0, 5.0];
    let expected = vec![1.0, 2.0, 3.0, 4.0, 5.0];
    relative_eq_slice(&actual, &expected, 1e-10);
}

#[test]
#[should_panic]
fn test_testing_helper_fail() {
    let actual = vec![1.01, 2.0, 3.0, 4.0, 5.0];
    let expected = vec![1.0, 2.0, 3.0, 4.0, 5.0];
    relative_eq_slice(&actual, &expected, 1e-10);
}

#[test]
#[allow(non_snake_case)]
fn test_dq_dR() {
    let err_rot_matrix = Matrix3::from_column_slice(&[         1.0,  -7.7835e-07, 5.74141e-08,
                                                       7.99504e-07,          1.0, 1.14998e-07,
                                                      -7.15592e-08, -1.46825e-07,         1.0]);
    let actual = calc_dq_dR(&err_rot_matrix);
    let a1 = -8.18195e-09;
    let a2 = 4.03041e-09;
    let a3 = 4.93079e-08;
    let b = 0.25;
    let expected = SMatrix::<f64, 3, 9>::from_column_slice(&[ a1,  a2,  a3,
                                                             0.0, 0.0,   b,
                                                             0.0,  -b, 0.0,
                                                             0.0, 0.0,  -b,
                                                              a1,  a2,  a3,
                                                               b, 0.0, 0.0,
                                                             0.0,   b, 0.0,
                                                              -b, 0.0, 0.0,
                                                              a1,  a2,  a3]);
    relative_eq_slice(actual.as_slice(), expected.as_slice(), 1e-10);
}

#[test]
fn test_skew_trans() {
    let b_trans = Translation3::new(-0.0199389, 2.43871, -0.14102);
    let actual = skew_trans(&b_trans).transpose();
    let expected = Matrix3::from_column_slice(&[      0.0,  -0.282041,   -4.87743,
                                                 0.282041,        0.0, -0.0398779,
                                                  4.87743,  0.0398779,        0.0]);
    relative_eq_slice(actual.as_slice(), expected.as_slice(), 1e-5 + 1e-10);
}

#[test]
#[allow(non_snake_case)]
fn test_skew_matr_T_and_mult_parts() {
    let actual = skew_matr_T_and_mult_parts(
        &Matrix3::<f64>::from_column_slice(&[  0.999284, -0.0244698, 0.0288424,
                                              0.0150356,   0.956688,  0.290726,
                                             -0.0347072,  -0.290084,  0.956372]),
        &Matrix3::<f64>::from_column_slice(&[  0.999284, 0.0150348, -0.0347071,
                                             -0.0244691,  0.956688,  -0.290084,
                                              0.0288425,  0.290726,   0.956372]),
    );
    let expected = SMatrix::<f64, 9, 3>::from_column_slice(&[
         5.23021e-08, 0.0694143, 0.0300711, -0.0694142,  2.85328e-07,   -1.99857, -0.0300695,    1.99857,  2.91287e-07,
         3.41719e-07,  0.580168,   1.91338,  -0.580168,  4.58219e-07,  0.0489397,   -1.91338, -0.0489382, -1.44105e-07,
        -1.52217e-06,  -1.91274,  0.581451,    1.91274, -1.52261e-06, -0.0576846,  -0.581452,  0.0576852, -3.31386e-08]);
    relative_eq_slice(actual.as_slice(), expected.as_slice(), 1e-5);
}

#[allow(non_snake_case)]
fn system_of(H: &[f64], b: &[f64]) -> LinearSystem {
    LinearSystem {
        dim: b.len(),
        blocks: vec![Block { row: 0, col: 0, rows: b.len(), cols: b.len(), values: bits(H) }],
        segments: vec![Segment { row: 0, values: bits(b) }],
    }
}

#[test]
#[allow(non_snake_case)]
fn sparse_cholesky_solver_positive_definite_test() {
    let positive_definite_H = vec![ 2.0, -1.0,  0.0,
                                   -1.0,  2.0, -1.0,
                                    0.0, -1.0,  2.0];
    let b = vec![6.0, 6.0, 6.0];
    let solve_output = SparseCholeskySolver::solve(&Doubles, &system_of(&positive_definite_H, &b));
    let x = match solve_output {
        Ok(sol) => floats(&sol),
        Err(error) => panic!("{}", error.message()),
    };
    assert!(relative_eq(x[0], 9.0, 1e-10));
    assert!(relative_eq(x[1], 12.0, 1e-10));
    assert!(relative_eq(x[2], 9.0, 1e-10));
}

#[test]
#[should_panic]
#[allow(non_snake_case)]
fn sparse_cholesky_solver_not_positive_definite_test() {
    let not_positive_definite_H = vec![1.0, 2.0, 4.0,
                                       2.0, 3.0, 5.0,
                                       4.0, 5.0, 6.0];
    let b = vec![6.0, 6.0, 6.0];
    let solve_output = SparseCholeskySolver::solve(&Doubles, &system_of(&not_positive_definite_H, &b));
    let x = match solve_output {
        Ok(sol) => floats(&sol),
        Err(error) => panic!("{}", error.message()),
    };
    println!("The solver returned {:?} for not positive-definite H", x);
}

#[test]
fn solver_reports_why_there_is_no_solution() {
    let singular = system_of(&[1.0, 2.0, 4.0, 2.0, 3.0, 5.0, 4.0, 5.0, 6.0], &[6.0, 6.0, 6.0]);
    assert_eq!(SparseCholeskySolver::solve(&Doubles, &singular), Err(SolverError::NotPositiveDefinite));
    assert_eq!(SparseCholeskySolver::check(3, None), Err(SolverError::NotPositiveDefinite));
    assert_eq!(SparseCholeskySolver::check(3, Some(vec![1, 2])), Err(SolverError::DimensionMismatch));
    assert_eq!(SparseCholeskySolver::check(2, Some(vec![1, 2])), Ok(vec![1, 2]));
    assert_eq!(SolverError::NotPositiveDefinite.message(), "H is not positive-definite");
}

#[test]
fn zero_iterations_change_nothing() {
    let mut graph = FactorGraph::from(mixed_2d_model()).unwrap();
    assert_eq!(optimize(&mut graph, 0, &Doubles), Ok(()));
    assert_eq!(FactorGraphModel::from(&graph), FactorGraphModel::from(&FactorGraph::from(mixed_2d_model()).unwrap()));
    for i in 0..3 {
        assert_eq!(graph.get_var(i).get_content(), mixed_2d_model().vertices[i].content);
    }
}

#[test]
fn fixed_variables_keep_their_values() {
    let mut graph = FactorGraph::from(mixed_2d_model()).unwrap();
    assert_eq!(optimize(&mut graph, 5, &Doubles), Ok(()));
    assert_eq!(graph.get_var(0).get_content(), bits(&[0.0, 0.0, 0.0]));
    assert_ne!(graph.get_var(1).get_content(), mixed_2d_model().vertices[1].content);
    relative_eq_slice(&content(&graph, 1), &[1.0, 0.0, 0.0], 1e-7);
    relative_eq_slice(&content(&graph, 2), &[2.0, 1.0], 1e-7);
}

#[test]
fn optimizing_again_without_iterations_keeps_the_result() {
    let mut graph = FactorGraph::from(mixed_2d_model()).unwrap();
    optimize(&mut graph, 3, &Doubles).unwrap();
    let after = FactorGraphModel::from(&graph);
    optimize(&mut graph, 0, &Doubles).unwrap();
    assert_eq!(FactorGraphModel::from(&graph), after);
}

#[test]
fn position_prior_2d_snaps_the_pose_to_the_prior() {
    let mut graph = FactorGraph::from(model(
        vec![vertex(7, "Vehicle2D", &[1.0, 2.0, 0.5])],
        vec![edge("Position2D", &[7], &[3.0, 4.0, 1.0], 3)],
        &[],
    ))
    .unwrap();
    assert_eq!(optimize(&mut graph, 1, &Doubles), Ok(()));
    relative_eq_slice(&content(&graph, 0), &[3.0, 4.0, 1.0], 1e-7);
}

#[test]
fn odometry_2d_chain_with_the_first_vehicle_fixed() {
    let mut graph = FactorGraph::from(model(
        vec![
            vertex(0, "Vehicle2D", &[0.0, 0.0, 0.0]),
            vertex(1, "Vehicle2D", &[1.2, -0.1, 0.05]),
            vertex(2, "Vehicle2D", &[1.9, 0.2, -0.05]),
        ],
        vec![edge("Odometry2D", &[0, 1], &[1.0, 0.0, 0.0], 3), edge("Odometry2D", &[1, 2], &[1.0, 0.0, 0.0], 3)],
        &[0],
    ))
    .unwrap();
    assert_eq!(optimize(&mut graph, 10, &Doubles), Ok(()));
    assert_eq!(graph.get_var(0).get_content(), bits(&[0.0, 0.0, 0.0]));
    relative_eq_slice(&content(&graph, 1), &[1.0, 0.0, 0.0], 1e-7);
    relative_eq_slice(&content(&graph, 2), &[2.0, 0.0, 0.0], 1e-7);
}

#[test]
fn fixed_vehicle_with_a_prior_stays_and_the_system_is_empty() {
    let mut graph = FactorGraph::from(model(
        vec![vertex(0, "Vehicle2D", &[1.0, 2.0, 0.5])],
        vec![edge("Position2D", &[0], &[3.0, 4.0, 1.0], 3)],
        &[0],
    ))
    .unwrap();
    let system = calculate_H_b(&graph, &Doubles).unwrap();
    assert_eq!(system.dim, 0);
    assert!(system.blocks.is_empty());
    assert!(system.segments.is_empty());
    for k in 0..4 {
        assert_eq!(optimize(&mut graph, k, &Doubles), Ok(()));
        assert_eq!(graph.get_var(0).get_content(), bits(&[1.0, 2.0, 0.5]));
    }
}

#[test]
fn heading_stays_within_half_a_turn() {
    let mut graph = FactorGraph::from(model(
        vec![vertex(0, "Vehicle2D", &[0.0, 0.0, 3.0])],
        vec![edge("Position2D", &[0], &[0.0, 0.0, -3.0], 3)],
        &[],
    ))
    .unwrap();
    for _ in 0..3 {
        assert_eq!(optimize(&mut graph, 1, &Doubles), Ok(()));
        let theta = content(&graph, 0)[2];
        assert!(-PI < theta && theta <= PI);
    }
    assert!((content(&graph, 0)[2] + 3.0).abs() < 1e-7);
    assert_eq!(wrap_angle(3.0 * PI), PI);
    assert_eq!(wrap_angle(-PI), PI);
    assert_eq!(wrap_angle(0.25), 0.25);
}

#[test]
fn blocks_lie_where_the_ranges_of_free_variables_meet() {
    let graph = FactorGraph::from(mixed_2d_model()).unwrap();
    let system = calculate_H_b(&graph, &Doubles).unwrap();
    assert_eq!(system.dim, 5);
    let places: Vec<(usize, usize, usize, usize)> =
        system.blocks.iter().map(|b| (b.row, b.col, b.rows, b.cols)).collect();
    // Factors in the order 0 -> 1, 0 -> 2, then from 1: the prior 1 -> 1 and 1 -> 2.
    assert_eq!(
        places,
        vec![(0, 0, 3, 3), (3, 3, 2, 2), (0, 0, 3, 3), (0, 0, 3, 3), (0, 3, 3, 2), (3, 0, 2, 3), (3, 3, 2, 2)]
    );
    let stretches: Vec<(usize, usize)> = system.segments.iter().map(|s| (s.row, s.values.len())).collect();
    assert_eq!(stretches, vec![(0, 3), (3, 2), (0, 3), (0, 3), (3, 2)]);
    let (h, _) = dense(&system);
    assert!((h.clone() - h.transpose()).amax() <= 1e-12);
}

#[test]
fn the_order_of_the_edges_does_not_change_the_system() {
    let first = mixed_2d_model();
    let mut second = mixed_2d_model();
    second.edges.reverse();
    let mut third = mixed_2d_model();
    third.edges.swap(0, 2);
    let (h1, b1) = dense(&calculate_H_b(&FactorGraph::from(first).unwrap(), &Doubles).unwrap());
    for other in [second, third] {
        let (h2, b2) = dense(&calculate_H_b(&FactorGraph::from(other).unwrap(), &Doubles).unwrap());
        assert!((h1.clone() - h2).amax() <= 1e-12);
        assert!((b1.clone() - b2).amax() <= 1e-12);
    }
}

#[test]
fn position_prior_3d_pulls_the_pose_to_the_prior() {
    let mut graph = FactorGraph::from(model(
        vec![vertex(0, "Vehicle3D", &[1.0, 2.0, 3.0, 0.0, 0.0, 0.0, 1.0])],
        vec![edge("Position3D", &[0], &[0.5, 1.5, 2.5, 0.0, 0.0, 0.0, 1.0], 6)],
        &[],
    ))
    .unwrap();
    assert_eq!(optimize(&mut graph, 5, &Doubles), Ok(()));
    let pose = content(&graph, 0);
    relative_eq_slice(&pose[..3], &[0.5, 1.5, 2.5], 1e-7);
    let norm = pose[3..].iter().map(|q| q * q).sum::<f64>().sqrt();
    assert!((norm - 1.0).abs() <= 1e-9);
}

#[test]
fn odometry_and_observation_3d() {
    let mut graph = FactorGraph::from(model(
        vec![
            vertex(0, "Vehicle3D", &[0.0, 0.0, 0.0, 0.0, 0.0, 0.0, 1.0]),
            vertex(1, "Vehicle3D", &[1.2, 0.1, -0.1, 0.0, 0.0, 0.0, 1.0]),
            vertex(2, "Landmark3D", &[1.0, 2.0, 3.5]),
        ],
        vec![
            edge("Odometry3D", &[0, 1], &[1.0, 0.0, 0.0, 0.0, 0.0, 0.0, 1.0], 6),
            edge("Observation3D", &[0, 2], &[1.0, 2.0, 3.0], 3),
        ],
        &[0],
    ))
    .unwrap();
    assert_eq!(optimize(&mut graph, 5, &Doubles), Ok(()));
    assert_eq!(graph.get_var(0).get_content(), bits(&[0.0, 0.0, 0.0, 0.0, 0.0, 0.0, 1.0]));
    let pose = content(&graph, 1);
    relative_eq_slice(&pose[..3], &[1.0, 0.0, 0.0], 1e-7);
    let norm = pose[3..].iter().map(|q| q * q).sum::<f64>().sqrt();
    assert!((norm - 1.0).abs() <= 1e-9);
    relative_eq_slice(&content(&graph, 2), &[1.0, 2.0, 3.0], 1e-7);
}

#[test]
fn an_iteration_without_a_solution_leaves_the_graph_untouched() {
    // Without a factor the matrix is zero, and so not positive definite.
    let mut graph =
        FactorGraph::from(model(vec![vertex(0, "Vehicle2D", &[1.0, 2.0, 0.5])], vec![], &[])).unwrap();
    assert_eq!(update_once(&mut graph, &Doubles), Err(OptimizeError::Solver(SolverError::NotPositiveDefinite)));
    assert_eq!(optimize(&mut graph, 3, &Doubles), Err(OptimizeError::Solver(SolverError::NotPositiveDefinite)));
    assert_eq!(graph.get_var(0).get_content(), bits(&[1.0, 2.0, 0.5]));
}

/// Arithmetic that answers with results of the wrong size.
struct Broken {
    short_products: bool,
    short_solution: bool,
}

impl Numerics for Broken {
    fn linearize(&self, factor: &Factor, source: &Variable, target: &Variable) -> (Vec<u64>, Vec<u64>) {
        let (mut h, b) = Doubles.linearize(factor, source, target);
        if self.short_products {
            h.pop();
        }
        (h, b)
    }

    fn solve(&self, system: &LinearSystem) -> Option<Vec<u64>> {
        let mut solution = Doubles.solve(system)?;
        if self.short_solution {
            solution.pop();
        }
        Some(solution)
    }

    fn retract(&self, variable: &Variable, correction: &Vec<u64>) -> Vec<u64> {
        let mut value = Doubles.retract(variable, correction);
        value.push(0);
        value
    }
}

#[test]
fn results_of_the_wrong_size_end_the_optimization() {
    let before = FactorGraphModel::from(&FactorGraph::from(mixed_2d_model()).unwrap());
    let mut graph = FactorGraph::from(mixed_2d_model()).unwrap();
    let broken = Broken { short_products: true, short_solution: false };
    assert_eq!(optimize(&mut graph, 2, &broken), Err(OptimizeError::Linearization));
    let broken = Broken { short_products: false, short_solution: true };
    assert_eq!(optimize(&mut graph, 2, &broken), Err(OptimizeError::Solver(SolverError::DimensionMismatch)));
    let broken = Broken { short_products: false, short_solution: false };
    assert_eq!(optimize(&mut graph, 2, &broken), Err(OptimizeError::Retraction));
    assert_eq!(FactorGraphModel::from(&graph), before);
}

#[test]
fn a_variable_gets_its_part_of_the_solution() {
    let solution = bits(&[0.5, 0.25, 1.0, 2.0, 3.0]);
    let mut landmark = Variable::Landmark2D(LandmarkVariable2D::new(
        4,
        1.0f64.to_bits(),
        1.0f64.to_bits(),
        FixedType::NonFixed(3..5),
    ));
    assert_eq!(correction_for(&landmark, &solution), Some(bits(&[2.0, 3.0])));
    assert_eq!(update_var(&mut landmark, &solution, &Doubles), Ok(()));
    assert_eq!(landmark.get_content(), bits(&[3.0, 4.0]));
    assert_eq!(landmark.get_fixed_type(), &FixedType::NonFixed(3..5));

    let mut fixed = Variable::Vehicle2D(VehicleVariable2D::new(5, 1, 2, 3, FixedType::Fixed));
    assert_eq!(correction_for(&fixed, &solution), None);
    assert_eq!(update_var(&mut fixed, &solution, &Doubles), Ok(()));
    assert_eq!(fixed.get_content(), vec![1, 2, 3]);

    assert_eq!(apply_value(&mut fixed, vec![7, 8, 9]), Ok(()));
    assert_eq!(fixed.get_content(), vec![7, 8, 9]);
    assert_eq!(apply_value(&mut fixed, vec![7, 8]), Err(OptimizeError::Retraction));
    assert_eq!(apply_value(&mut fixed, vec![1, 2, 3, 4]), Err(OptimizeError::Retraction));
    assert_eq!(fixed.get_content(), vec![7, 8, 9]);
}

#[test]
#[allow(non_snake_case)]
fn a_factor_adds_the_blocks_of_its_free_variables() {
    let vehicle = Variable::Vehicle2D(VehicleVariable2D::new(0, 0, 0, 0, FixedType::NonFixed(2..5)));
    let landmark = Variable::Landmark2D(LandmarkVariable2D::new(1, 0, 0, FixedType::NonFixed(0..2)));
    let fixed = Variable::Landmark2D(LandmarkVariable2D::new(2, 0, 0, FixedType::Fixed));
    // A matrix of five rows, column by column: the scalar in row r and column c is 10 c + r.
    let local_h: Vec<u64> = (0..5).flat_map(|c| (0..5).map(move |r| 10 * c + r)).collect();
    let local_b: Vec<u64> = vec![100, 101, 102, 103, 104];

    let mut system = LinearSystem::new(5);
    assert!(update_H_b(&mut system, &vehicle, &landmark, false, &local_h, &local_b));
    let blocks: Vec<(usize, usize, usize, usize, Vec<u64>)> =
        system.blocks.iter().map(|b| (b.row, b.col, b.rows, b.cols, b.values.clone())).collect();
    assert_eq!(
        blocks,
        vec![
            (2, 2, 3, 3, vec![0, 1, 2, 10, 11, 12, 20, 21, 22]),
            (2, 0, 3, 2, vec![30, 31, 32, 40, 41, 42]),
            (0, 2, 2, 3, vec![3, 4, 13, 14, 23, 24]),
            (0, 0, 2, 2, vec![33, 34, 43, 44]),
        ]
    );
    let segments: Vec<(usize, Vec<u64>)> = system.segments.iter().map(|s| (s.row, s.values.clone())).collect();
    assert_eq!(segments, vec![(2, vec![100, 101, 102]), (0, vec![103, 104])]);

    // What belongs to a fixed variable is dropped.
    let mut system = LinearSystem::new(5);
    assert!(update_H_b(&mut system, &vehicle, &fixed, false, &local_h, &local_b));
    assert_eq!(system.blocks.len(), 1);
    assert_eq!((system.blocks[0].row, system.blocks[0].col), (2, 2));
    assert_eq!(system.segments.len(), 1);

    // A prior touches one variable; a linearization of the wrong size adds nothing.
    let mut system = LinearSystem::new(5);
    assert!(!update_H_b(&mut system, &vehicle, &vehicle, true, &local_h, &local_b));
    assert!(system.blocks.is_empty() && system.segments.is_empty());
    assert!(update_H_b(&mut system, &vehicle, &vehicle, true, &vec![1; 9], &vec![2; 3]));
    assert_eq!(system.blocks.len(), 1);
    assert_eq!(system.blocks[0].values, vec![1; 9]);

    system.segments[0].values = bits(&[1.5, -2.0, 0.0]);
    let blocks_before: Vec<Vec<u64>> = system.blocks.iter().map(|b| b.values.clone()).collect();
    negate_b(&mut system);
    assert_eq!(system.segments.len(), 1);
    assert_eq!(system.segments[0].row, 2);
    assert_eq!(system.segments[0].values, bits(&[-1.5, 2.0, -0.0]));
    assert_eq!(system.blocks.iter().map(|b| b.values.clone()).collect::<Vec<Vec<u64>>>(), blocks_before);
}

#[test]
fn the_negative_of_a_number_has_the_other_sign() {
    for value in [0.0, -0.0, 1.5, -2.25, 1e300, f64::MIN_POSITIVE, f64::INFINITY, f64::NEG_INFINITY] {
        assert_eq!(negate(value.to_bits()), (-value).to_bits());
        assert_eq!(negate(value.to_bits()), (value * -1.0).to_bits());
        assert_eq!(negate(negate(value.to_bits())), value.to_bits());
    }
    assert_eq!(negate(f64::NAN.to_bits()), (-f64::NAN).to_bits());
}

#[test]
fn factors_between_fixed_variables_are_not_linearized() {
    // Arithmetic that answers every linearization with the wrong size.
    let broken = Broken { short_products: true, short_solution: false };
    let fixed = model(
        vec![vertex(0, "Vehicle2D", &[1.0, 2.0, 0.5]), vertex(1, "Landmark2D", &[0.0, 1.0])],
        vec![edge("Position2D", &[0], &[3.0, 4.0, 1.0], 3), edge("Observation2D", &[0, 1], &[1.0, 1.0], 2)],
        &[0, 1],
    );
    let graph = FactorGraph::from(fixed).unwrap();
    let system = calculate_H_b(&graph, &broken).unwrap();
    assert!(system.blocks.is_empty() && system.segments.is_empty());
    // One free variable, and the factor that touches it is linearized.
    let free = model(
        vec![vertex(0, "Vehicle2D", &[1.0, 2.0, 0.5]), vertex(1, "Landmark2D", &[0.0, 1.0])],
        vec![edge("Position2D", &[0], &[3.0, 4.0, 1.0], 3), edge("Observation2D", &[0, 1], &[1.0, 1.0], 2)],
        &[0],
    );
    let graph = FactorGraph::from(free).unwrap();
    assert!(calculate_H_b(&graph, &broken).is_none());
    let system = calculate_H_b(&graph, &Doubles).unwrap();
    assert_eq!(system.blocks.len(), 1);
    assert_eq!((system.blocks[0].row, system.blocks[0].col, system.blocks[0].rows), (0, 0, 2));
}

#[test]
fn numbers_are_spelled_as_doubles() {
    assert_eq!(Doubles.format(1.0f64.to_bits()), "1.0");
    assert_eq!(Doubles.format(0.000000274428f64.to_bits()), "2.74428e-7");
    assert_eq!(Doubles.parse("-1.5"), Some((-1.5f64).to_bits()));
    assert_eq!(Doubles.parse("1.5x"), None);
}
