//! The model: a factor graph as files hold it.

use crate::factor_graph::factor::FactorType;
use crate::factor_graph::variable::VariableType;
use crate::text::text_equals;
use std::collections::BTreeSet;
use vstd::prelude::*;

pub mod converter;
pub mod rebuild;

verus! {

/// A factor graph as files hold it.
#[derive(Debug, PartialEq)]
pub struct FactorGraphModel {
    /// All vertices in the factor graph.
    pub vertices: Vec<Vertex>,
    /// All edges in the factor graph.
    pub edges: Vec<Edge>,
    /// The IDs of all fixed vertices, i.e. vertices which will not be changed during optimization.
    pub fixed_vertices: BTreeSet<usize>,
}

#[derive(Debug, PartialEq)]
pub struct Vertex {
    /// The vertex's ID. Should be unique within the factor graph.
    pub id: usize,
    /// The vertex's type: "Vehicle2D", "Landmark2D", "Vehicle3D" or "Landmark3D".
    pub vertex_type: String,
    /// The vertex's content, each scalar a double-precision number held as its bit
    /// pattern. The structure depends on the vertex's type:
    ///
    /// Content for "Vehicle2D": position_x, position_y, rotation
    ///
    /// Content for "Landmark2D": position_x, position_y
    ///
    /// Content for "Vehicle3D": position_x, position_y, position_z, quaternion_x, quaternion_y, quaternion_z, quaternion_w
    ///
    /// Content for "Landmark3D": position_x, position_y, position_z
    pub content: Vec<u64>,
}

#[derive(Debug, PartialEq)]
pub struct Edge {
    /// The edge's type: "Position2D", "Odometry2D", "Observation2D", "Position3D",
    /// "Odometry3D" or "Observation3D".
    pub edge_type: String,
    /// The IDs of this edge's vertices: one vehicle for "Position2D" and "Position3D", two
    /// vehicles for "Odometry2D" and "Odometry3D", a vehicle and a landmark for
    /// "Observation2D" and "Observation3D".
    pub vertices: Vec<usize>,
    /// The edge's restriction, representing a measurement, each scalar a double-precision
    /// number held as its bit pattern. A pose for positions and odometry (three scalars in
    /// 2D, seven in 3D), a position for observations (two scalars in 2D, three in 3D).
    pub restriction: Vec<u64>,
    /// The edge's entire information matrix. It is expected to be symmetric, hence having
    /// identical row- and column-major representations.
    pub information_matrix: Vec<u64>,
}

/// What a vertex holds.
pub struct VertexView {
    pub id: usize,
    pub vertex_type: Seq<char>,
    pub content: Seq<u64>,
}

/// What an edge holds.
pub struct EdgeView {
    pub edge_type: Seq<char>,
    pub vertices: Seq<usize>,
    pub restriction: Seq<u64>,
    pub information_matrix: Seq<u64>,
}

/// What a model holds.
#[verifier::ext_equal]
pub struct ModelView {
    pub vertices: Seq<VertexView>,
    pub edges: Seq<EdgeView>,
    pub fixed_vertices: Set<usize>,
}

impl View for Vertex {
    type V = VertexView;

    open spec fn view(&self) -> VertexView {
        VertexView { id: self.id, vertex_type: self.vertex_type@, content: self.content@ }
    }
}

impl View for Edge {
    type V = EdgeView;

    open spec fn view(&self) -> EdgeView {
        EdgeView {
            edge_type: self.edge_type@,
            vertices: self.vertices@,
            restriction: self.restriction@,
            information_matrix: self.information_matrix@,
        }
    }
}

/// What each of some vertices holds.
pub open spec fn vertex_views(vertices: Seq<Vertex>) -> Seq<VertexView> {
    Seq::new(vertices.len(), |i: int| vertices[i]@)
}

/// What each of some edges holds.
pub open spec fn edge_views(edges: Seq<Edge>) -> Seq<EdgeView> {
    Seq::new(edges.len(), |i: int| edges[i]@)
}

impl View for FactorGraphModel {
    type V = ModelView;

    open spec fn view(&self) -> ModelView {
        ModelView {
            vertices: vertex_views(self.vertices@),
            edges: edge_views(self.edges@),
            fixed_vertices: self.fixed_vertices@,
        }
    }
}

/// The name of each kind of variable.
pub open spec fn variable_type_name(kind: VariableType) -> Seq<char> {
    match kind {
        VariableType::Vehicle2D => "Vehicle2D"@,
        VariableType::Landmark2D => "Landmark2D"@,
        VariableType::Vehicle3D => "Vehicle3D"@,
        VariableType::Landmark3D => "Landmark3D"@,
    }
}

/// The kind of variable that a name stands for, if it stands for one.
pub open spec fn variable_type_named(name: Seq<char>) -> Option<VariableType> {
    if name == "Vehicle2D"@ {
        Some(VariableType::Vehicle2D)
    } else if name == "Landmark2D"@ {
        Some(VariableType::Landmark2D)
    } else if name == "Vehicle3D"@ {
        Some(VariableType::Vehicle3D)
    } else if name == "Landmark3D"@ {
        Some(VariableType::Landmark3D)
    } else {
        None
    }
}

/// The name of each kind of factor.
pub open spec fn factor_type_name(kind: FactorType) -> Seq<char> {
    match kind {
        FactorType::Position2D => "Position2D"@,
        FactorType::Odometry2D => "Odometry2D"@,
        FactorType::Observation2D => "Observation2D"@,
        FactorType::Position3D => "Position3D"@,
        FactorType::Odometry3D => "Odometry3D"@,
        FactorType::Observation3D => "Observation3D"@,
    }
}

/// The kind of factor that a name stands for, if it stands for one.
pub open spec fn factor_type_named(name: Seq<char>) -> Option<FactorType> {
    if name == "Position2D"@ {
        Some(FactorType::Position2D)
    } else if name == "Odometry2D"@ {
        Some(FactorType::Odometry2D)
    } else if name == "Observation2D"@ {
        Some(FactorType::Observation2D)
    } else if name == "Position3D"@ {
        Some(FactorType::Position3D)
    } else if name == "Odometry3D"@ {
        Some(FactorType::Odometry3D)
    } else if name == "Observation3D"@ {
        Some(FactorType::Observation3D)
    } else {
        None
    }
}

/// Each kind of variable is the one that its name stands for.
pub proof fn lemma_variable_type_names(kind: VariableType)
    ensures
        variable_type_named(variable_type_name(kind)) == Some(kind),
{
    reveal_strlit("Vehicle2D");
    reveal_strlit("Landmark2D");
    reveal_strlit("Vehicle3D");
    reveal_strlit("Landmark3D");
    assert("Vehicle2D"@[7] == '2');
    assert("Vehicle3D"@[7] == '3');
    assert("Landmark2D"@[8] == '2');
    assert("Landmark3D"@[8] == '3');
}

/// Each kind of factor is the one that its name stands for.
pub proof fn lemma_factor_type_names(kind: FactorType)
    ensures
        factor_type_named(factor_type_name(kind)) == Some(kind),
{
    reveal_strlit("Position2D");
    reveal_strlit("Odometry2D");
    reveal_strlit("Observation2D");
    reveal_strlit("Position3D");
    reveal_strlit("Odometry3D");
    reveal_strlit("Observation3D");
    assert("Position2D"@[8] == '2' && "Position2D"@[0] == 'P');
    assert("Position3D"@[8] == '3' && "Position3D"@[0] == 'P');
    assert("Odometry2D"@[8] == '2' && "Odometry2D"@[0] == 'O');
    assert("Odometry3D"@[8] == '3' && "Odometry3D"@[0] == 'O');
    assert("Observation2D"@[11] == '2');
    assert("Observation3D"@[11] == '3');
}

impl VariableType {
    /// The kind of variable that a name stands for, if it stands for one.
    pub fn from_name(name: &str) -> (kind: Option<VariableType>)
        ensures
            kind == variable_type_named(name@),
    {
        if text_equals(name, "Vehicle2D") {
            Some(VariableType::Vehicle2D)
        } else if text_equals(name, "Landmark2D") {
            Some(VariableType::Landmark2D)
        } else if text_equals(name, "Vehicle3D") {
            Some(VariableType::Vehicle3D)
        } else if text_equals(name, "Landmark3D") {
            Some(VariableType::Landmark3D)
        } else {
            None
        }
    }

    /// The kind's name.
    pub fn name(self) -> (name: String)
        ensures
            name@ == variable_type_name(self),
    {
        match self {
            VariableType::Vehicle2D => String::from_str("Vehicle2D"),
            VariableType::Landmark2D => String::from_str("Landmark2D"),
            VariableType::Vehicle3D => String::from_str("Vehicle3D"),
            VariableType::Landmark3D => String::from_str("Landmark3D"),
        }
    }
}

impl FactorType {
    /// The kind of factor that a name stands for, if it stands for one.
    pub fn from_name(name: &str) -> (kind: Option<FactorType>)
        ensures
            kind == factor_type_named(name@),
    {
        if text_equals(name, "Position2D") {
            Some(FactorType::Position2D)
        } else if text_equals(name, "Odometry2D") {
            Some(FactorType::Odometry2D)
        } else if text_equals(name, "Observation2D") {
            Some(FactorType::Observation2D)
        } else if text_equals(name, "Position3D") {
            Some(FactorType::Position3D)
        } else if text_equals(name, "Odometry3D") {
            Some(FactorType::Odometry3D)
        } else if text_equals(name, "Observation3D") {
            Some(FactorType::Observation3D)
        } else {
            None
        }
    }

    /// The kind's name.
    pub fn name(self) -> (name: String)
        ensures
            name@ == factor_type_name(self),
    {
        match self {
            FactorType::Position2D => String::from_str("Position2D"),
            FactorType::Odometry2D => String::from_str("Odometry2D"),
            FactorType::Observation2D => String::from_str("Observation2D"),
            FactorType::Position3D => String::from_str("Position3D"),
            FactorType::Odometry3D => String::from_str("Odometry3D"),
            FactorType::Observation3D => String::from_str("Observation3D"),
        }
    }
}

} // verus!
