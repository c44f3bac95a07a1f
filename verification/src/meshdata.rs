//! Payload struct shapes for mesh data: vertices, edges, polygons, loops,
//! selection and custom-data records.  The reconciler treats these purely as
//! byte layouts by name and size; they are declared here so callers can
//! build and read instances.  Shapes whose fields are floating point live
//! outside the verified library.

use vstd::prelude::*;

verus! {

/// Per-vertex flag bits.
#[allow(non_camel_case_types)]
#[derive(Clone, Copy, PartialEq, Eq, Structural, Debug)]
pub enum MVertFlag {
    ME_VERT_TMP_TAG,
    ME_HIDE,
    ME_VERT_FACEDOT,
    ME_VERT_PBVH_UPDATE,
}

impl MVertFlag {
    /// The bit this flag occupies in a vertex flag byte.
    pub fn bits(self) -> (r: u8)
        ensures
            self is ME_VERT_TMP_TAG ==> r == 4,
            self is ME_HIDE ==> r == 16,
            self is ME_VERT_FACEDOT ==> r == 32,
            self is ME_VERT_PBVH_UPDATE ==> r == 128,
    {
        match self {
            MVertFlag::ME_VERT_TMP_TAG => 4,
            MVertFlag::ME_HIDE => 16,
            MVertFlag::ME_VERT_FACEDOT => 32,
            MVertFlag::ME_VERT_PBVH_UPDATE => 128,
        }
    }
}

/// A mesh edge: two unordered vertex indices with crease, bevel weight and
/// flag bits.
#[derive(Clone, Copy, PartialEq, Eq, Structural, Debug)]
pub struct MEdge {
    pub v1: u32,
    pub v2: u32,
    pub crease: i8,
    pub bweight: i8,
    pub flag: u16,
}

/// Per-edge flag bits.
#[allow(non_camel_case_types)]
#[derive(Clone, Copy, PartialEq, Eq, Structural, Debug)]
pub enum MEdgeFlag {
    ME_EDGEDRAW,
    ME_SEAM,
    ME_EDGERENDER,
    ME_LOOSEEDGE,
    ME_EDGE_TMP_TAG,
    ME_SHARP,
}

impl MEdgeFlag {
    /// The bit this flag occupies in an edge flag word.
    pub fn bits(self) -> (r: u16)
        ensures
            self is ME_EDGEDRAW ==> r == 2,
            self is ME_SEAM ==> r == 4,
            self is ME_EDGERENDER ==> r == 32,
            self is ME_LOOSEEDGE ==> r == 128,
            self is ME_EDGE_TMP_TAG ==> r == 256,
            self is ME_SHARP ==> r == 512,
    {
        match self {
            MEdgeFlag::ME_EDGEDRAW => 2,
            MEdgeFlag::ME_SEAM => 4,
            MEdgeFlag::ME_EDGERENDER => 32,
            MEdgeFlag::ME_LOOSEEDGE => 128,
            MEdgeFlag::ME_EDGE_TMP_TAG => 256,
            MEdgeFlag::ME_SHARP => 512,
        }
    }
}

/// A mesh face: its loop-array window, material and flag bits.
#[derive(Clone, Copy, PartialEq, Eq, Structural, Debug)]
pub struct MPoly {
    /// Offset into the loop array.
    pub loopstart: i32,
    /// Number of loops in the face; kept signed for backward stepping.
    pub totloop: i32,
    pub mat_nr: i16,
    pub flag: u8,
    pub _pad: u8,
}

/// Per-polygon flag bits.
#[allow(non_camel_case_types)]
#[derive(Clone, Copy, PartialEq, Eq, Structural, Debug)]
pub enum MPolyFlag {
    ME_SMOOTH,
    ME_FACE_SEL,
}

impl MPolyFlag {
    /// The bit this flag occupies in a polygon flag byte.
    pub fn bits(self) -> (r: u8)
        ensures
            self is ME_SMOOTH ==> r == 1,
            self is ME_FACE_SEL ==> r == 2,
    {
        match self {
            MPolyFlag::ME_SMOOTH => 1,
            MPolyFlag::ME_FACE_SEL => 2,
        }
    }
}

/// A polygon corner: a vertex index and an edge index.
#[derive(Clone, Copy, PartialEq, Eq, Structural, Debug)]
pub struct MLoop {
    pub v: u32,
    pub e: u32,
}

/// One entry of the ordered selection storage.
#[derive(Clone, Copy, PartialEq, Eq, Structural, Debug)]
pub struct MSelect {
    /// Index in the vertex, edge or polygon array.
    pub index: i32,
    /// Which of the three arrays `index` refers to.
    pub type_: u32,
}

/// What an `MSelect` entry selects.
#[allow(non_camel_case_types)]
#[derive(Clone, Copy, PartialEq, Eq, Structural, Debug)]
pub enum MSelectType {
    ME_VSEL,
    ME_ESEL,
    ME_FSEL,
}

impl MSelectType {
    /// The stored discriminating value of this selection kind.
    pub fn value(self) -> (r: u32)
        ensures
            self is ME_VSEL ==> r == 0,
            self is ME_ESEL ==> r == 1,
            self is ME_FSEL ==> r == 2,
    {
        match self {
            MSelectType::ME_VSEL => 0,
            MSelectType::ME_ESEL => 1,
            MSelectType::ME_FSEL => 2,
        }
    }
}

/// Lightweight triangulation data: three loop indices and the source
/// polygon.
#[derive(Clone, Copy, PartialEq, Eq, Debug)]
pub struct MLoopTri {
    pub tri: [u32; 3],
    pub poly: u32,
}

/// A triangle of vertex indices.
#[derive(Clone, Copy, PartialEq, Eq, Debug)]
pub struct MVertTri {
    pub tri: [u32; 3],
}

/// An integer custom-data property.
#[derive(Clone, Copy, PartialEq, Eq, Structural, Debug)]
pub struct MIntProperty {
    pub i: i32,
}

/// A string custom-data property: fixed storage and a used length.
#[derive(Clone, Copy, PartialEq, Eq, Debug)]
pub struct MStringProperty {
    pub s: [u8; 255],
    pub s_len: u8,
}

/// A per-loop color with full alpha kept at 255 by convention.
#[derive(Clone, Copy, PartialEq, Eq, Structural, Debug)]
pub struct MLoopCol {
    pub r: u8,
    pub g: u8,
    pub b: u8,
    pub a: u8,
}

/// Freestyle marking for an edge.
#[derive(Clone, Copy, PartialEq, Eq, Debug)]
pub struct FreestyleEdge {
    pub flag: u8,
    pub _pad: [u8; 3],
}

/// Per-edge Freestyle flag bits.
#[allow(non_camel_case_types)]
#[derive(Clone, Copy, PartialEq, Eq, Structural, Debug)]
pub enum FreestyleEdgeFlag {
    FREESTYLE_EDGE_MARK,
}

impl FreestyleEdgeFlag {
    /// The bit this flag occupies.
    pub fn bits(self) -> (r: u8)
        ensures
            r == 1,
    {
        1
    }
}

/// Freestyle marking for a face.
#[derive(Clone, Copy, PartialEq, Eq, Debug)]
pub struct FreestyleFace {
    pub flag: u8,
    pub _pad: [u8; 3],
}

/// Per-face Freestyle flag bits.
#[allow(non_camel_case_types)]
#[derive(Clone, Copy, PartialEq, Eq, Structural, Debug)]
pub enum FreestyleFaceFlag {
    FREESTYLE_FACE_MARK,
}

impl FreestyleFaceFlag {
    /// The bit this flag occupies.
    pub fn bits(self) -> (r: u8)
        ensures
            r == 1,
    {
        1
    }
}

/// The legacy quad face record kept for reading old files.
#[derive(Clone, Copy, PartialEq, Eq, Structural, Debug)]
pub struct MFace {
    pub v1: u32,
    pub v2: u32,
    pub v3: u32,
    pub v4: u32,
    pub mat_nr: i16,
    /// Edge draw codes, kept for conversion from old files.
    pub edcode: u8,
    pub flag: u8,
}

/// Tessellation vertex color data; red and blue are stored swapped for
/// historical reasons.
#[derive(Clone, Copy, PartialEq, Eq, Structural, Debug)]
pub struct MCol {
    pub a: u8,
    pub r: u8,
    pub g: u8,
    pub b: u8,
}

/// Converts a tessellation color to a loop color, unswapping red and blue.
#[allow(non_snake_case)]
pub fn MESH_MLOOPCOL_FROM_MCOL(mloopcol: &mut MLoopCol, mcol: &MCol)
    ensures
        final(mloopcol).r == mcol.b,
        final(mloopcol).g == mcol.g,
        final(mloopcol).b == mcol.r,
        final(mloopcol).a == mcol.a,
{
    mloopcol.r = mcol.b;
    mloopcol.g = mcol.g;
    mloopcol.b = mcol.r;
    mloopcol.a = mcol.a;
}

/// Converts a loop color back to a tessellation color, swapping red and
/// blue again.
#[allow(non_snake_case)]
pub fn MESH_MLOOPCOL_TO_MCOL(mloopcol: &MLoopCol, mcol: &mut MCol)
    ensures
        final(mcol).b == mloopcol.r,
        final(mcol).g == mloopcol.g,
        final(mcol).r == mloopcol.b,
        final(mcol).a == mloopcol.a,
{
    mcol.b = mloopcol.r;
    mcol.g = mloopcol.g;
    mcol.r = mloopcol.b;
    mcol.a = mloopcol.a;
}

} // verus!
