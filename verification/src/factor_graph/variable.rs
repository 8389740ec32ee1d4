//! Variables: poses and landmarks in two and three dimensions.

use std::ops::Range;
use vstd::prelude::*;

verus! {

/// Whether a variable takes part in the optimization.
///
/// A variable that does holds the half-open range of rows and columns that it owns in the
/// linear system.
#[derive(Debug, Eq, PartialEq)]
pub enum FixedType {
    Fixed,
    NonFixed(Range<usize>),
}

impl Clone for FixedType {
    fn clone(&self) -> (copy: Self)
        ensures
            copy == *self,
    {
        match self {
            FixedType::Fixed => FixedType::Fixed,
            FixedType::NonFixed(range) => FixedType::NonFixed(range.start..range.end),
        }
    }
}

impl FixedType {
    pub open spec fn is_fixed(&self) -> bool {
        self is Fixed
    }

    /// First row of the variable's block, for a variable that is not fixed.
    pub open spec fn start(&self) -> int {
        match self {
            FixedType::Fixed => 0,
            FixedType::NonFixed(range) => range.start as int,
        }
    }

    /// One past the last row of the variable's block, for a variable that is not fixed.
    pub open spec fn end(&self) -> int {
        match self {
            FixedType::Fixed => 0,
            FixedType::NonFixed(range) => range.end as int,
        }
    }
}

/// The four kinds of variable.
#[derive(Debug, Clone, Copy, PartialEq, Eq, Structural)]
pub enum VariableType {
    /// Vehicle pose (position and rotation) in 2D.
    Vehicle2D,
    /// Landmark position in 2D.
    Landmark2D,
    /// Vehicle pose (position and rotation) in 3D.
    Vehicle3D,
    /// Landmark position in 3D.
    Landmark3D,
}

impl VariableType {
    /// Number of scalars in a value of this kind.
    pub open spec fn spec_content_len(self) -> usize {
        match self {
            VariableType::Vehicle2D => 3,
            VariableType::Landmark2D => 2,
            VariableType::Vehicle3D => 7,
            VariableType::Landmark3D => 3,
        }
    }

    /// Dimension of the tangent space: the number of rows and columns of the linear system
    /// that a variable of this kind owns when it is not fixed.
    pub open spec fn spec_local_dim(self) -> usize {
        match self {
            VariableType::Vehicle2D => 3,
            VariableType::Landmark2D => 2,
            VariableType::Vehicle3D => 6,
            VariableType::Landmark3D => 3,
        }
    }

    #[verifier::when_used_as_spec(spec_content_len)]
    pub fn content_len(self) -> (n: usize)
        ensures
            n == self.spec_content_len(),
    {
        match self {
            VariableType::Vehicle2D => 3,
            VariableType::Landmark2D => 2,
            VariableType::Vehicle3D => 7,
            VariableType::Landmark3D => 3,
        }
    }

    #[verifier::when_used_as_spec(spec_local_dim)]
    pub fn local_dim(self) -> (n: usize)
        ensures
            n == self.spec_local_dim(),
    {
        match self {
            VariableType::Vehicle2D => 3,
            VariableType::Landmark2D => 2,
            VariableType::Vehicle3D => 6,
            VariableType::Landmark3D => 3,
        }
    }
}

/// A vehicle pose in the plane: x, y and heading, each a double-precision number held as
/// its bit pattern.
#[derive(Debug, Clone)]
pub struct VehicleVariable2D {
    pub id: usize,
    pub pose: [u64; 3],
    pub fixed_type: FixedType,
}

/// A landmark position in the plane: x and y, each a double-precision number held as its
/// bit pattern.
#[derive(Debug, Clone)]
pub struct LandmarkVariable2D {
    pub id: usize,
    pub position: [u64; 2],
    pub fixed_type: FixedType,
}

/// A vehicle pose in space: x, y, z and the rotation quaternion's x, y, z, w, each a
/// double-precision number held as its bit pattern.
#[derive(Debug, Clone)]
pub struct VehicleVariable3D {
    pub id: usize,
    pub pose: [u64; 7],
    pub fixed_type: FixedType,
}

/// A landmark position in space: x, y and z, each a double-precision number held as its
/// bit pattern.
#[derive(Debug, Clone)]
pub struct LandmarkVariable3D {
    pub id: usize,
    pub position: [u64; 3],
    pub fixed_type: FixedType,
}

#[derive(Debug, Clone)]
pub enum Variable {
    /// Vehicle pose (position and rotation) in 2D.
    Vehicle2D(VehicleVariable2D),
    /// Landmark position in 2D.
    Landmark2D(LandmarkVariable2D),
    /// Vehicle pose (position and rotation) in 3D.
    Vehicle3D(VehicleVariable3D),
    /// Landmark position in 3D.
    Landmark3D(LandmarkVariable3D),
}

impl VehicleVariable2D {
    /// Returns a new variable from a 2D pose, a given ID and whether the variable is fixed.
    pub fn new(id: usize, x: u64, y: u64, phi: u64, fixed_type: FixedType) -> (v: Self)
        ensures
            v.id == id,
            v.pose@ == seq![x, y, phi],
            v.fixed_type == fixed_type,
    {
        VehicleVariable2D { id, pose: [x, y, phi], fixed_type }
    }
}

impl LandmarkVariable2D {
    /// Returns a new variable from a 2D position, a given ID and whether the variable is fixed.
    pub fn new(id: usize, x: u64, y: u64, fixed_type: FixedType) -> (v: Self)
        ensures
            v.id == id,
            v.position@ == seq![x, y],
            v.fixed_type == fixed_type,
    {
        LandmarkVariable2D { id, position: [x, y], fixed_type }
    }
}

impl VehicleVariable3D {
    /// Returns a new variable from a 3D pose, a given ID and whether the variable is fixed.
    pub fn new(
        id: usize,
        x: u64,
        y: u64,
        z: u64,
        rot_x: u64,
        rot_y: u64,
        rot_z: u64,
        rot_w: u64,
        fixed_type: FixedType,
    ) -> (v: Self)
        ensures
            v.id == id,
            v.pose@ == seq![x, y, z, rot_x, rot_y, rot_z, rot_w],
            v.fixed_type == fixed_type,
    {
        VehicleVariable3D { id, pose: [x, y, z, rot_x, rot_y, rot_z, rot_w], fixed_type }
    }
}

impl LandmarkVariable3D {
    /// Returns a new variable from a 3D position, a given ID and whether the variable is fixed.
    pub fn new(id: usize, x: u64, y: u64, z: u64, fixed_type: FixedType) -> (v: Self)
        ensures
            v.id == id,
            v.position@ == seq![x, y, z],
            v.fixed_type == fixed_type,
    {
        LandmarkVariable3D { id, position: [x, y, z], fixed_type }
    }
}

impl Variable {
    pub open spec fn id(&self) -> usize {
        match self {
            Variable::Vehicle2D(v) => v.id,
            Variable::Landmark2D(v) => v.id,
            Variable::Vehicle3D(v) => v.id,
            Variable::Landmark3D(v) => v.id,
        }
    }

    pub open spec fn kind(&self) -> VariableType {
        match self {
            Variable::Vehicle2D(_) => VariableType::Vehicle2D,
            Variable::Landmark2D(_) => VariableType::Landmark2D,
            Variable::Vehicle3D(_) => VariableType::Vehicle3D,
            Variable::Landmark3D(_) => VariableType::Landmark3D,
        }
    }

    pub open spec fn fixed_type(&self) -> FixedType {
        match self {
            Variable::Vehicle2D(v) => v.fixed_type,
            Variable::Landmark2D(v) => v.fixed_type,
            Variable::Vehicle3D(v) => v.fixed_type,
            Variable::Landmark3D(v) => v.fixed_type,
        }
    }

    /// The variable's value.
    pub open spec fn content(&self) -> Seq<u64> {
        match self {
            Variable::Vehicle2D(v) => v.pose@,
            Variable::Landmark2D(v) => v.position@,
            Variable::Vehicle3D(v) => v.pose@,
            Variable::Landmark3D(v) => v.position@,
        }
    }

    pub fn get_fixed_type(&self) -> (fixed_type: &FixedType)
        ensures
            *fixed_type == self.fixed_type(),
    {
        match self {
            Variable::Vehicle2D(v) => &v.fixed_type,
            Variable::Landmark2D(v) => &v.fixed_type,
            Variable::Vehicle3D(v) => &v.fixed_type,
            Variable::Landmark3D(v) => &v.fixed_type,
        }
    }

    pub fn get_id(&self) -> (id: usize)
        ensures
            id == self.id(),
    {
        match self {
            Variable::Vehicle2D(v) => v.id,
            Variable::Landmark2D(v) => v.id,
            Variable::Vehicle3D(v) => v.id,
            Variable::Landmark3D(v) => v.id,
        }
    }

    /// The variable's value, as a vector.
    pub fn get_content(&self) -> (content: Vec<u64>)
        ensures
            content@ == self.content(),
    {
        let mut content: Vec<u64> = Vec::new();
        match self {
            Variable::Vehicle2D(v) => {
                content.push(v.pose[0]);
                content.push(v.pose[1]);
                content.push(v.pose[2]);
            },
            Variable::Landmark2D(v) => {
                content.push(v.position[0]);
                content.push(v.position[1]);
            },
            Variable::Vehicle3D(v) => {
                content.push(v.pose[0]);
                content.push(v.pose[1]);
                content.push(v.pose[2]);
                content.push(v.pose[3]);
                content.push(v.pose[4]);
                content.push(v.pose[5]);
                content.push(v.pose[6]);
            },
            Variable::Landmark3D(v) => {
                content.push(v.position[0]);
                content.push(v.position[1]);
                content.push(v.position[2]);
            },
        }
        assert(content@ =~= self.content());
        content
    }

    /// Replaces the variable's value by the first scalars of `update`, as many as a value
    /// of this kind has. Identifier, kind and index range stay as they are.
    pub fn set_content(&mut self, update: Vec<u64>)
        requires
            update.len() >= old(self).kind().spec_content_len(),
        ensures
            final(self).id() == old(self).id(),
            final(self).kind() == old(self).kind(),
            final(self).fixed_type() == old(self).fixed_type(),
            final(self).content() == update@.subrange(
                0,
                old(self).kind().spec_content_len() as int,
            ),
    {
        let u = update;
        match self {
            Variable::Vehicle2D(v) => {
                v.pose = [u[0], u[1], u[2]];
                assert(v.pose@ =~= u@.subrange(0, 3));
            },
            Variable::Landmark2D(v) => {
                v.position = [u[0], u[1]];
                assert(v.position@ =~= u@.subrange(0, 2));
            },
            Variable::Vehicle3D(v) => {
                v.pose = [u[0], u[1], u[2], u[3], u[4], u[5], u[6]];
                assert(v.pose@ =~= u@.subrange(0, 7));
            },
            Variable::Landmark3D(v) => {
                v.position = [u[0], u[1], u[2]];
                assert(v.position@ =~= u@.subrange(0, 3));
            },
        }
    }

    /// A copy of the variable.
    pub fn clone_value(&self) -> (copy: Variable)
        ensures
            copy == *self,
    {
        match self {
            Variable::Vehicle2D(v) => Variable::Vehicle2D(
                VehicleVariable2D { id: v.id, pose: v.pose, fixed_type: v.fixed_type.clone() },
            ),
            Variable::Landmark2D(v) => Variable::Landmark2D(
                LandmarkVariable2D {
                    id: v.id,
                    position: v.position,
                    fixed_type: v.fixed_type.clone(),
                },
            ),
            Variable::Vehicle3D(v) => Variable::Vehicle3D(
                VehicleVariable3D { id: v.id, pose: v.pose, fixed_type: v.fixed_type.clone() },
            ),
            Variable::Landmark3D(v) => Variable::Landmark3D(
                LandmarkVariable3D {
                    id: v.id,
                    position: v.position,
                    fixed_type: v.fixed_type.clone(),
                },
            ),
        }
    }

    pub fn get_type(&self) -> (kind: VariableType)
        ensures
            kind == self.kind(),
    {
        match self {
            Variable::Vehicle2D(_) => VariableType::Vehicle2D,
            Variable::Landmark2D(_) => VariableType::Landmark2D,
            Variable::Vehicle3D(_) => VariableType::Vehicle3D,
            Variable::Landmark3D(_) => VariableType::Landmark3D,
        }
    }
}

/// The variable of the given kind, identifier, value and place. The value has as many
/// scalars as the kind asks for.
pub open spec fn variable_of(
    kind: VariableType,
    id: usize,
    content: Seq<u64>,
    fixed_type: FixedType,
) -> Variable {
    match kind {
        VariableType::Vehicle2D => Variable::Vehicle2D(
            VehicleVariable2D { id, pose: [content[0], content[1], content[2]], fixed_type },
        ),
        VariableType::Landmark2D => Variable::Landmark2D(
            LandmarkVariable2D { id, position: [content[0], content[1]], fixed_type },
        ),
        VariableType::Vehicle3D => Variable::Vehicle3D(
            VehicleVariable3D {
                id,
                pose: [
                    content[0],
                    content[1],
                    content[2],
                    content[3],
                    content[4],
                    content[5],
                    content[6],
                ],
                fixed_type,
            },
        ),
        VariableType::Landmark3D => Variable::Landmark3D(
            LandmarkVariable3D { id, position: [content[0], content[1], content[2]], fixed_type },
        ),
    }
}

/// A variable made of its parts has these parts.
pub proof fn lemma_variable_of(
    kind: VariableType,
    id: usize,
    content: Seq<u64>,
    fixed_type: FixedType,
)
    requires
        content.len() == kind.spec_content_len(),
    ensures
        variable_of(kind, id, content, fixed_type).id() == id,
        variable_of(kind, id, content, fixed_type).kind() == kind,
        variable_of(kind, id, content, fixed_type).fixed_type() == fixed_type,
        variable_of(kind, id, content, fixed_type).content() == content,
{
    assert(variable_of(kind, id, content, fixed_type).content() =~= content);
}

impl Variable {
    /// A variable of the given kind.
    pub fn new(kind: VariableType, id: usize, content: &Vec<u64>, fixed_type: FixedType) -> (variable:
        Variable)
        requires
            content@.len() == kind.spec_content_len(),
        ensures
            variable == variable_of(kind, id, content@, fixed_type),
    {
        let c = content;
        let variable = match kind {
            VariableType::Vehicle2D => Variable::Vehicle2D(
                VehicleVariable2D::new(id, c[0], c[1], c[2], fixed_type),
            ),
            VariableType::Landmark2D => Variable::Landmark2D(
                LandmarkVariable2D::new(id, c[0], c[1], fixed_type),
            ),
            VariableType::Vehicle3D => Variable::Vehicle3D(
                VehicleVariable3D::new(
                    id,
                    c[0],
                    c[1],
                    c[2],
                    c[3],
                    c[4],
                    c[5],
                    c[6],
                    fixed_type,
                ),
            ),
            VariableType::Landmark3D => Variable::Landmark3D(
                LandmarkVariable3D::new(id, c[0], c[1], c[2], fixed_type),
            ),
        };
        proof {
            lemma_variable_of(kind, id, content@, fixed_type);
            assert(variable.content() =~= content@);
            lemma_variable_equal(variable, variable_of(kind, id, content@, fixed_type));
        }
        variable
    }
}

/// A value of a given kind has that kind's number of scalars.
pub proof fn lemma_content_len(v: Variable)
    ensures
        v.content().len() == v.kind().spec_content_len(),
{
}

/// Identifier, kind, index range and value together determine a variable.
pub proof fn lemma_variable_equal(a: Variable, b: Variable)
    requires
        a.id() == b.id(),
        a.kind() == b.kind(),
        a.fixed_type() == b.fixed_type(),
        a.content() == b.content(),
    ensures
        a == b,
{
    match (a, b) {
        (Variable::Vehicle2D(x), Variable::Vehicle2D(y)) => {
            assert(x.pose =~= y.pose);
        },
        (Variable::Landmark2D(x), Variable::Landmark2D(y)) => {
            assert(x.position =~= y.position);
        },
        (Variable::Vehicle3D(x), Variable::Vehicle3D(y)) => {
            assert(x.pose =~= y.pose);
        },
        (Variable::Landmark3D(x), Variable::Landmark3D(y)) => {
            assert(x.position =~= y.position);
        },
        _ => {},
    }
}

} // verus!
