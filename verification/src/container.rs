//! Raw storage aggregation.
//!
//! `Core` bundles up to four storage slots without enforcing any
//! consistency between them; a slot that is not bound holds the unit type.
//! The [`Bind`] operation fills one empty slot at a time, so a fully
//! populated aggregate is assembled from independently constructed
//! storages. Only containers populated through the guarded mutation API
//! carry the [`Consistent`] marker.

use vstd::prelude::*;

use crate::geometry::Geometry;
use crate::mesh::{Edge, Face, Mesh, Vertex};
use crate::storage::{EdgeStorage, Storage};

verus! {

/// Marker for containers that promise to be in a consistent state. It is
/// granted only to aggregates whose storage is populated exclusively
/// through the guarded mutation API, so view code may rely on it and skip
/// defensive checks. `Core` deliberately does not implement it.
pub trait Consistent {

}

impl<G> Consistent for Mesh<G> where G: Geometry {

}

/// Raw aggregate of up to four storage slots: vertices, arcs (the
/// half-edges), composite edges, and faces. An absent slot holds `()`.
/// `Core` performs no consistency checking of its own: it only assembles
/// and decomposes storage.
pub struct Core<V = (), A = (), E = (), F = ()> {
    pub vertices: V,
    pub arcs: A,
    pub edges: E,
    pub faces: F,
}

impl Core {
    /// A core with no slot bound.
    pub fn empty() -> (r: Core)
        ensures
            r == (Core { vertices: (), arcs: (), edges: (), faces: () }),
    {
        Core { vertices: (), arcs: (), edges: (), faces: () }
    }
}

impl<V, A, E, F> Core<V, A, E, F> {
    /// Decomposes the aggregate into its four slots.
    pub fn into_storage(self) -> (r: (V, A, E, F))
        ensures
            r == (self.vertices, self.arcs, self.edges, self.faces),
    {
        let Core { vertices, arcs, edges, faces } = self;
        (vertices, arcs, edges, faces)
    }
}

/// Fills the empty slot matching the element kind `T` with a storage of
/// kind `M`, yielding a core with that slot bound and the other three
/// slots moved over unmodified.
pub trait Bind<T, M>: Sized {
    type Output;

    /// The core that binding `source` produces.
    spec fn spec_bind(self, source: M) -> Self::Output;

    fn bind(self, source: M) -> (r: Self::Output)
        ensures
            r == self.spec_bind(source),
    ;
}

impl<A, E, F, T> Bind<Vertex<T>, Storage<Vertex<T>>> for Core<(), A, E, F> {
    type Output = Core<Storage<Vertex<T>>, A, E, F>;

    open spec fn spec_bind(self, source: Storage<Vertex<T>>) -> Self::Output {
        Core { vertices: source, arcs: self.arcs, edges: self.edges, faces: self.faces }
    }

    fn bind(self, source: Storage<Vertex<T>>) -> Self::Output {
        let Core { vertices: _, arcs, edges, faces } = self;
        Core { vertices: source, arcs, edges, faces }
    }
}

impl<V, E, F, T> Bind<Edge<T>, EdgeStorage<Edge<T>>> for Core<V, (), E, F> {
    type Output = Core<V, EdgeStorage<Edge<T>>, E, F>;

    open spec fn spec_bind(self, source: EdgeStorage<Edge<T>>) -> Self::Output {
        Core { vertices: self.vertices, arcs: source, edges: self.edges, faces: self.faces }
    }

    fn bind(self, source: EdgeStorage<Edge<T>>) -> Self::Output {
        let Core { vertices, arcs: _, edges, faces } = self;
        Core { vertices, arcs: source, edges, faces }
    }
}

impl<V, A, E, T> Bind<Face<T>, Storage<Face<T>>> for Core<V, A, E, ()> {
    type Output = Core<V, A, E, Storage<Face<T>>>;

    open spec fn spec_bind(self, source: Storage<Face<T>>) -> Self::Output {
        Core { vertices: self.vertices, arcs: self.arcs, edges: self.edges, faces: source }
    }

    fn bind(self, source: Storage<Face<T>>) -> Self::Output {
        let Core { vertices, arcs, edges, faces: _ } = self;
        Core { vertices, arcs, edges, faces: source }
    }
}

} // verus!
