//! Factors: measurements with their information matrices.

use crate::factor_graph::variable::VariableType;
use vstd::prelude::*;

verus! {

/// The six kinds of factor.
#[derive(Debug, Clone, Copy, PartialEq, Eq, Structural)]
pub enum FactorType {
    /// Vehicle pose measurement in 2D.
    Position2D,
    /// Relative measurement between two poses in 2D.
    Odometry2D,
    /// Relative measurement to an observed stationary variable in 2D.
    Observation2D,
    /// Vehicle pose measurement in 3D.
    Position3D,
    /// Relative measurement between two poses in 3D.
    Odometry3D,
    /// Relative measurement to an observed stationary variable in 3D.
    Observation3D,
}

impl FactorType {
    /// Number of scalars in a measurement of this kind.
    pub open spec fn spec_constraint_len(self) -> usize {
        match self {
            FactorType::Position2D => 3,
            FactorType::Odometry2D => 3,
            FactorType::Observation2D => 2,
            FactorType::Position3D => 7,
            FactorType::Odometry3D => 7,
            FactorType::Observation3D => 3,
        }
    }

    /// Number of rows, and of columns, of the information matrix of a factor of this kind.
    pub open spec fn spec_information_dim(self) -> usize {
        match self {
            FactorType::Position2D => 3,
            FactorType::Odometry2D => 3,
            FactorType::Observation2D => 2,
            FactorType::Position3D => 6,
            FactorType::Odometry3D => 6,
            FactorType::Observation3D => 3,
        }
    }

    /// Whether a factor of this kind measures a single vehicle against the world frame.
    pub open spec fn spec_is_prior(self) -> bool {
        self == FactorType::Position2D || self == FactorType::Position3D
    }

    /// Number of variables that a factor of this kind touches.
    pub open spec fn spec_arity(self) -> usize {
        if self.spec_is_prior() {
            1
        } else {
            2
        }
    }

    /// Kind of the variable that a factor of this kind starts from.
    pub open spec fn spec_source_type(self) -> VariableType {
        match self {
            FactorType::Position2D => VariableType::Vehicle2D,
            FactorType::Odometry2D => VariableType::Vehicle2D,
            FactorType::Observation2D => VariableType::Vehicle2D,
            FactorType::Position3D => VariableType::Vehicle3D,
            FactorType::Odometry3D => VariableType::Vehicle3D,
            FactorType::Observation3D => VariableType::Vehicle3D,
        }
    }

    /// Kind of the variable that a factor of this kind ends in. A prior ends where it
    /// starts.
    pub open spec fn spec_target_type(self) -> VariableType {
        match self {
            FactorType::Position2D => VariableType::Vehicle2D,
            FactorType::Odometry2D => VariableType::Vehicle2D,
            FactorType::Observation2D => VariableType::Landmark2D,
            FactorType::Position3D => VariableType::Vehicle3D,
            FactorType::Odometry3D => VariableType::Vehicle3D,
            FactorType::Observation3D => VariableType::Landmark3D,
        }
    }

    #[verifier::when_used_as_spec(spec_constraint_len)]
    pub fn constraint_len(self) -> (n: usize)
        ensures
            n == self.spec_constraint_len(),
    {
        match self {
            FactorType::Position2D => 3,
            FactorType::Odometry2D => 3,
            FactorType::Observation2D => 2,
            FactorType::Position3D => 7,
            FactorType::Odometry3D => 7,
            FactorType::Observation3D => 3,
        }
    }

    #[verifier::when_used_as_spec(spec_information_dim)]
    pub fn information_dim(self) -> (n: usize)
        ensures
            n == self.spec_information_dim(),
    {
        match self {
            FactorType::Position2D => 3,
            FactorType::Odometry2D => 3,
            FactorType::Observation2D => 2,
            FactorType::Position3D => 6,
            FactorType::Odometry3D => 6,
            FactorType::Observation3D => 3,
        }
    }

    #[verifier::when_used_as_spec(spec_is_prior)]
    pub fn is_prior(self) -> (prior: bool)
        ensures
            prior == self.spec_is_prior(),
    {
        match self {
            FactorType::Position2D => true,
            FactorType::Position3D => true,
            _ => false,
        }
    }

    #[verifier::when_used_as_spec(spec_arity)]
    pub fn arity(self) -> (n: usize)
        ensures
            n == self.spec_arity(),
    {
        if self.is_prior() {
            1
        } else {
            2
        }
    }

    #[verifier::when_used_as_spec(spec_source_type)]
    pub fn source_type(self) -> (kind: VariableType)
        ensures
            kind == self.spec_source_type(),
    {
        match self {
            FactorType::Position2D => VariableType::Vehicle2D,
            FactorType::Odometry2D => VariableType::Vehicle2D,
            FactorType::Observation2D => VariableType::Vehicle2D,
            FactorType::Position3D => VariableType::Vehicle3D,
            FactorType::Odometry3D => VariableType::Vehicle3D,
            FactorType::Observation3D => VariableType::Vehicle3D,
        }
    }

    #[verifier::when_used_as_spec(spec_target_type)]
    pub fn target_type(self) -> (kind: VariableType)
        ensures
            kind == self.spec_target_type(),
    {
        match self {
            FactorType::Position2D => VariableType::Vehicle2D,
            FactorType::Odometry2D => VariableType::Vehicle2D,
            FactorType::Observation2D => VariableType::Landmark2D,
            FactorType::Position3D => VariableType::Vehicle3D,
            FactorType::Odometry3D => VariableType::Vehicle3D,
            FactorType::Observation3D => VariableType::Landmark3D,
        }
    }
}

/// A square matrix of double-precision numbers, each held as its bit pattern, column by
/// column.
#[derive(Debug, Clone)]
pub struct InformationMatrix {
    pub content: Vec<u64>,
    pub dim: usize,
}

/// The square of `d`, which always fits in 128 bits.
fn square(d: usize) -> (s: u128)
    ensures
        s == d * d,
{
    assert(d * d <= 0xffff_ffff_ffff_ffff * 0xffff_ffff_ffff_ffff) by (nonlinear_arith)
        requires
            d <= 0xffff_ffff_ffff_ffff,
    ;
    (d as u128) * (d as u128)
}

/// Whether `n` is the square of a natural number.
pub open spec fn is_square(n: nat) -> bool {
    exists|d: nat| #[trigger] (d * d) == n
}

impl InformationMatrix {
    pub open spec fn wf(&self) -> bool {
        self.content@.len() == self.dim * self.dim
    }

    /// Wraps the entries of a square matrix. There is a matrix exactly when the number of
    /// entries is a square.
    pub fn from(content: Vec<u64>) -> (matrix: Option<InformationMatrix>)
        ensures
            matrix is Some <==> is_square(content@.len()),
            matrix is Some ==> matrix->0.wf() && matrix->0.content@ == content@,
    {
        let len = content.len();
        let mut dim: usize = 0;
        while dim < len && square(dim) < len as u128
            invariant
                len == content@.len(),
                dim <= len,
                forall|d: nat| d < dim ==> #[trigger] (d * d) < len,
            decreases len - dim,
        {
            assert forall|d: nat| d < dim + 1 implies #[trigger] (d * d) < len by {
            }
            dim += 1;
        }
        assert(dim * dim >= len) by (nonlinear_arith)
            requires
                dim <= len,
                !(dim < len && dim * dim < len),
        ;
        if square(dim) == len as u128 {
            assert(is_square(len as nat)) by {
                assert((dim as nat) * (dim as nat) == len);
            }
            Some(InformationMatrix { content, dim })
        } else {
            assert(!is_square(len as nat)) by {
                if is_square(len as nat) {
                    let d = choose|d: nat| #[trigger] (d * d) == len as nat;
                    if d > dim {
                        assert(d * d > dim * dim) by (nonlinear_arith)
                            requires
                                d > dim,
                        ;
                    }
                }
            }
            None
        }
    }
}

/// A measurement: its kind, the measured value and how much it is trusted.
///
/// Content for Position2D and Odometry2D: x, y, rotation.
///
/// Content for Observation2D: x, y.
///
/// Content for Position3D and Odometry3D: x, y, z and the rotation quaternion's x, y, z, w.
///
/// Content for Observation3D: x, y, z.
#[derive(Debug, Clone)]
pub struct Factor {
    /// The factor's type.
    pub factor_type: FactorType,
    /// The factor's constraint.
    pub constraint: Vec<u64>,
    /// The factor's information matrix, the inverse of the measurement's covariance.
    pub information_matrix: InformationMatrix,
}

/// What a factor holds.
pub struct FactorView {
    pub factor_type: FactorType,
    pub constraint: Seq<u64>,
    pub information: Seq<u64>,
    pub information_dim: usize,
}

impl FactorView {
    /// The measurement and the information matrix have the sizes that the factor's kind
    /// asks for.
    pub open spec fn wf(self) -> bool {
        &&& self.constraint.len() == self.factor_type.spec_constraint_len()
        &&& self.information_dim == self.factor_type.spec_information_dim()
        &&& self.information.len() == self.information_dim * self.information_dim
    }

    /// Whether a factor of this kind may lead from a variable of kind `source` to one of
    /// kind `target`.
    pub open spec fn joins(self, source: VariableType, target: VariableType) -> bool {
        source == self.factor_type.spec_source_type() && target
            == self.factor_type.spec_target_type()
    }
}

impl View for Factor {
    type V = FactorView;

    open spec fn view(&self) -> FactorView {
        FactorView {
            factor_type: self.factor_type,
            constraint: self.constraint@,
            information: self.information_matrix.content@,
            information_dim: self.information_matrix.dim,
        }
    }
}

impl Factor {
    /// The measurement and the information matrix have the sizes that the factor's kind
    /// asks for.
    pub open spec fn wf(&self) -> bool {
        self@.wf()
    }
}

} // verus!
