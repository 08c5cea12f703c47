//! Cube primitive: a procedural generator for the polygons of a cube.
//!
//! Only the purely combinatorial side lives here — which plane each of the
//! six quadrilateral faces lies in. Coordinate generation is a concern of
//! the geometry capability plugged in by the caller.

use vstd::prelude::*;

verus! {

/// The six axis-aligned planes of a cube's faces; an `N` marks the
/// negative side of the remaining axis.
#[derive(Clone, Copy, PartialEq, Eq, Structural, Hash, Debug)]
pub enum Plane {
    XY,
    NXY,
    ZY,
    NZY,
    XZ,
    XNZ,
}

/// A quadrilateral of four values in winding order.
#[derive(Clone, Copy, PartialEq, Eq, Structural, Debug)]
pub struct Quad<T> {
    pub a: T,
    pub b: T,
    pub c: T,
    pub d: T,
}

impl<T> Quad<T> {
    pub fn new(a: T, b: T, c: T, d: T) -> (r: Self)
        ensures
            r == (Quad { a, b, c, d }),
    {
        Quad { a, b, c, d }
    }
}

impl<T> Quad<T> where T: Copy {
    /// A quadrilateral whose four corners carry the same value.
    pub fn converged(value: T) -> (r: Self)
        ensures
            r == (Quad { a: value, b: value, c: value, d: value }),
    {
        Quad { a: value, b: value, c: value, d: value }
    }
}

/// Procedural generator for the six face polygons of a cube.
#[derive(Clone, Copy, PartialEq, Eq, Structural, Debug)]
pub struct Cube;

impl Cube {
    /// The plane of face `index`, in generator order: front, right, top,
    /// left, bottom, back.
    pub open spec fn spec_plane_of(index: int) -> Plane {
        if index == 0 {
            Plane::XY
        } else if index == 1 {
            Plane::NZY
        } else if index == 2 {
            Plane::XNZ
        } else if index == 3 {
            Plane::ZY
        } else if index == 4 {
            Plane::XZ
        } else {
            Plane::NXY
        }
    }

    pub fn new() -> (r: Self)
        ensures
            r == Cube,
    {
        Cube
    }

    /// The number of polygons the generator yields.
    pub fn polygon_count(&self) -> (r: usize)
        ensures
            r == 6,
    {
        6
    }

    /// Face `index` of the cube, as a quadrilateral whose four corners all
    /// carry the plane that face lies in.
    pub fn polygon_with_plane_from(&self, index: usize) -> (r: Quad<Plane>)
        requires
            index < 6,
        ensures
            r == (Quad {
                a: Cube::spec_plane_of(index as int),
                b: Cube::spec_plane_of(index as int),
                c: Cube::spec_plane_of(index as int),
                d: Cube::spec_plane_of(index as int),
            }),
    {
        match index {
            0 => Quad::converged(Plane::XY),
            1 => Quad::converged(Plane::NZY),
            2 => Quad::converged(Plane::XNZ),
            3 => Quad::converged(Plane::ZY),
            4 => Quad::converged(Plane::XZ),
            _ => Quad::converged(Plane::NXY),
        }
    }

    /// All six face polygons, in generator order.
    pub fn polygons_with_plane(&self) -> (r: Vec<Quad<Plane>>)
        ensures
            r@.len() == 6,
            forall|i: int|
                0 <= i < 6 ==> r@[i] == (Quad {
                    a: Cube::spec_plane_of(i),
                    b: Cube::spec_plane_of(i),
                    c: Cube::spec_plane_of(i),
                    d: Cube::spec_plane_of(i),
                }),
    {
        let mut out: Vec<Quad<Plane>> = Vec::new();
        let mut i: usize = 0;
        while i < 6
            invariant
                0 <= i <= 6,
                out@.len() == i,
                forall|j: int|
                    0 <= j < i ==> out@[j] == (Quad {
                        a: Cube::spec_plane_of(j),
                        b: Cube::spec_plane_of(j),
                        c: Cube::spec_plane_of(j),
                        d: Cube::spec_plane_of(j),
                    }),
            decreases 6 - i,
        {
            let quad = self.polygon_with_plane_from(i);
            out.push(quad);
            i = i + 1;
        }
        out
    }
}

impl Default for Cube {
    fn default() -> (r: Self)
        ensures
            r == Cube,
    {
        Cube
    }
}

} // verus!
