//! Packed mesh vertices.
//!
//! A chunk-mesh vertex is quantized before packing: lattice coordinates on
//! a small grid, one of the six axis-aligned face normals, one of the four
//! texture corners, and a texture index. The packer lays those out in one
//! 32-bit word: 6 bits each for x, y, z, 3 for the normal, 2 for the
//! corner, 9 for the texture index.

use vstd::prelude::*;

verus! {

/// A face of an axis-aligned block.
#[derive(Copy, Clone, Debug, PartialEq, Eq, Structural)]
pub enum Face {
    North,
    East,
    South,
    West,
    Up,
    Down,
}

/// A coordinate axis.
#[derive(Copy, Clone, Debug, PartialEq, Eq, Structural)]
pub enum Dimension {
    X,
    Y,
    Z,
}

impl Face {
    /// The axis a face is perpendicular to.
    pub fn dimension(self) -> (r: Dimension)
        ensures
            r == (match self {
                Face::North | Face::South => Dimension::Z,
                Face::East | Face::West => Dimension::X,
                Face::Up | Face::Down => Dimension::Y,
            }),
    {
        match self {
            Face::North | Face::South => Dimension::Z,
            Face::East | Face::West => Dimension::X,
            Face::Up | Face::Down => Dimension::Y,
        }
    }

    /// Every face, in the order meshes emit them.
    pub fn all() -> (r: Vec<Face>)
        ensures
            r@ == seq![Face::South, Face::West, Face::North, Face::East, Face::Up, Face::Down],
    {
        let mut v: Vec<Face> = Vec::new();
        v.push(Face::South);
        v.push(Face::West);
        v.push(Face::North);
        v.push(Face::East);
        v.push(Face::Up);
        v.push(Face::Down);
        proof {
            assert(v@ =~= seq![
                Face::South,
                Face::West,
                Face::North,
                Face::East,
                Face::Up,
                Face::Down,
            ]);
        }
        v
    }
}

/// The 3-bit code of a face normal in the packed vertex word.
pub open spec fn normal_code(f: Face) -> nat {
    match f {
        Face::West => 0,
        Face::East => 1,
        Face::Up => 2,
        Face::Down => 3,
        Face::South => 4,
        Face::North => 5,
    }
}

/// The 2-bit code of a texture corner.
pub open spec fn uv_code(uv: (bool, bool)) -> nat {
    (if uv.0 {
        2nat
    } else {
        0nat
    }) + (if uv.1 {
        1nat
    } else {
        0nat
    })
}

/// A mesh vertex as the packer reads it: lattice coordinates, the face
/// whose unit vector is the normal, the texture corner, and the texture
/// index.
#[derive(Copy, Clone, Debug, PartialEq, Eq)]
pub struct Vertex {
    pub position: (u32, u32, u32),
    pub normal: Face,
    pub uv: (bool, bool),
    pub texture_index: u32,
}

/// A vertex packed into one 32-bit word.
#[derive(Copy, Clone, Debug, PartialEq, Eq, Structural)]
pub struct Vertex2 {
    pub packed_data: u32,
}

impl Vertex2 {
    /// Pack a vertex: x in the low 6 bits, then y and z (6 bits each), the
    /// normal code (3 bits), the corner code (2 bits), and the texture
    /// index (9 bits).
    pub fn from_vertex(vertex: Vertex) -> (r: Self)
        requires
            vertex.position.0 < 0x40,
            vertex.position.1 < 0x40,
            vertex.position.2 < 0x40,
            vertex.texture_index < 0x200,
        ensures
            r.packed_data == vertex.position.0 + vertex.position.1 * 0x40 + vertex.position.2
                * 0x1000 + normal_code(vertex.normal) * 0x40000 + uv_code(vertex.uv) * 0x200000
                + vertex.texture_index * 0x800000,
    {
        let nml: u32 = match vertex.normal {
            Face::West => 0,
            Face::East => 1,
            Face::Up => 2,
            Face::Down => 3,
            Face::South => 4,
            Face::North => 5,
        };
        let uvl: u32 = (if vertex.uv.0 {
            2
        } else {
            0
        }) + (if vertex.uv.1 {
            1
        } else {
            0
        });
        Vertex2 {
            packed_data: vertex.position.0 + vertex.position.1 * 0x40 + vertex.position.2 * 0x1000
                + nml * 0x40000 + uvl * 0x200000 + vertex.texture_index * 0x800000,
        }
    }
}

} // verus!
