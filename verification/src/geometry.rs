//! Geometry capability interface.
//!
//! The graph core is generic over a capability bundle that names the
//! attribute payload carried by each kind of topological element. Payloads
//! are opaque to the core: connectivity never depends on them, and they are
//! only stored, moved, and converted.

use vstd::prelude::*;

verus! {

/// Capability bundle naming the attribute payload of each element kind.
///
/// The default edge and face attributes are used for elements created
/// implicitly during bulk construction from indexed polygons.
pub trait Geometry {
    type Vertex;

    type Edge;

    type Face;

    fn default_edge_attribute() -> Self::Edge;

    fn default_face_attribute() -> Self::Face;
}

/// Pairwise conversion from the attribute payload of another geometry
/// capability. Implementations are free to transform the payload in any
/// way; connectivity is preserved independently of them.
pub trait FromGeometry<T>: Sized {
    fn from_geometry(other: T) -> Self;
}

impl Geometry for () {
    type Vertex = ();

    type Edge = ();

    type Face = ();

    fn default_edge_attribute() -> Self::Edge {
        ()
    }

    fn default_face_attribute() -> Self::Face {
        ()
    }
}

impl FromGeometry<()> for () {
    fn from_geometry(_other: ()) -> Self {
        ()
    }
}

} // verus!
