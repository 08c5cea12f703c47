use plexus::cube::{Cube, Plane};
use plexus::geometry::{FromGeometry, Geometry};
use plexus::mesh::{GraphError, Mesh};
use plexus::storage::{EdgeKey, VertexKey};

struct Flat;

impl Geometry for Flat {
    type Vertex = ();
    type Edge = ();
    type Face = ();

    fn default_edge_attribute() -> Self::Edge {}

    fn default_face_attribute() -> Self::Face {}
}

fn flat_mesh_with_vertices(count: usize) -> (Mesh<Flat>, Vec<VertexKey>) {
    let mut mesh: Mesh<Flat> = Mesh::new();
    let mut keys = Vec::new();
    for _ in 0..count {
        keys.push(mesh.insert_vertex(()));
    }
    (mesh, keys)
}

fn triangle_mesh() -> (Mesh<Flat>, Vec<VertexKey>, Vec<EdgeKey>, u64) {
    let (mut mesh, keys) = flat_mesh_with_vertices(3);
    let (a, b, c) = (keys[0], keys[1], keys[2]);
    let ab = mesh.insert_edge((a, b), ()).unwrap();
    let bc = mesh.insert_edge((b, c), ()).unwrap();
    let ca = mesh.insert_edge((c, a), ()).unwrap();
    let edges = vec![ab, bc, ca];
    let face = mesh.insert_face(&edges, ()).unwrap();
    (mesh, keys, edges, face)
}

#[test]
fn opposite_edges_link_symmetrically() {
    let (mut mesh, keys) = flat_mesh_with_vertices(2);
    let (a, b) = (keys[0], keys[1]);
    let ab = mesh.insert_edge((a, b), ()).unwrap();
    assert_eq!(ab, EdgeKey::new(a, b));
    assert_eq!(mesh.edge(ab).unwrap().opposite, None);
    let ba = mesh.insert_edge((b, a), ()).unwrap();
    assert_eq!(mesh.edge(ab).unwrap().opposite, Some(ba));
    assert_eq!(mesh.edge(ba).unwrap().opposite, Some(ab));
}

#[test]
fn insert_edge_reseeds_vertex_cache() {
    let (mut mesh, keys) = flat_mesh_with_vertices(3);
    let (a, b, c) = (keys[0], keys[1], keys[2]);
    let ab = mesh.insert_edge((a, b), ()).unwrap();
    assert_eq!(mesh.vertex(a).unwrap().edge, Some(ab));
    let ac = mesh.insert_edge((a, c), ()).unwrap();
    assert_eq!(mesh.vertex(a).unwrap().edge, Some(ac));
}

#[test]
fn insert_face_rejects_low_arity() {
    let (mut mesh, keys) = flat_mesh_with_vertices(2);
    let (a, b) = (keys[0], keys[1]);
    let ab = mesh.insert_edge((a, b), ()).unwrap();
    let ba = mesh.insert_edge((b, a), ()).unwrap();
    let result = mesh.insert_face(&vec![ab, ba], ());
    assert_eq!(result, Err(GraphError::ArityNonPolygonal));
    assert_eq!(mesh.vertex_count(), 2);
    assert_eq!(mesh.edge_count(), 2);
    assert_eq!(mesh.face_count(), 0);
    assert_eq!(
        mesh.insert_face(&vec![], ()),
        Err(GraphError::ArityNonPolygonal)
    );
}

#[test]
fn face_boundary_walk_closes() {
    let (mesh, keys, edges, face) = triangle_mesh();
    let view = mesh.face(face).unwrap();
    assert_eq!(view.key(), face);
    assert_eq!(view.arity(), 3);
    let boundary = view.edge_keys();
    assert_eq!(boundary, edges);
    // Walking `next` for exactly `arity` steps returns to the start, and
    // every traversed edge carries the face's key.
    let mut cursor = mesh.edge(boundary[0]).unwrap();
    for _ in 0..view.arity() {
        assert_eq!(cursor.face, Some(face));
        cursor = mesh.edge(cursor.next.unwrap()).unwrap();
    }
    assert_eq!(cursor.vertex, mesh.edge(boundary[0]).unwrap().vertex);
    assert_eq!(view.vertex_keys(), vec![keys[0], keys[1], keys[2]]);
}

#[test]
fn remove_face_removes_exactly_its_boundary() {
    let (mut mesh, _keys, edges, face) = triangle_mesh();
    assert_eq!(mesh.vertex_count(), 3);
    assert_eq!(mesh.edge_count(), 3);
    assert_eq!(mesh.face_count(), 1);
    mesh.remove_face(face).unwrap();
    assert_eq!(mesh.vertex_count(), 3);
    assert_eq!(mesh.edge_count(), 0);
    assert_eq!(mesh.face_count(), 0);
    for edge in edges {
        assert!(mesh.edge(edge).is_none());
    }
}

#[test]
fn remove_face_unlinks_opposites_and_caches() {
    let (mut mesh, keys) = flat_mesh_with_vertices(3);
    let (a, b, c) = (keys[0], keys[1], keys[2]);
    let ab = mesh.insert_edge((a, b), ()).unwrap();
    let bc = mesh.insert_edge((b, c), ()).unwrap();
    let ca = mesh.insert_edge((c, a), ()).unwrap();
    let ba = mesh.insert_edge((b, a), ()).unwrap();
    let face = mesh.insert_face(&vec![ab, bc, ca], ()).unwrap();
    assert_eq!(mesh.edge(ba).unwrap().opposite, Some(ab));
    mesh.remove_face(face).unwrap();
    assert_eq!(mesh.edge(ba).unwrap().opposite, None);
    assert_eq!(mesh.vertex(c).unwrap().edge, None);
    // The cache of `b` still points at the surviving edge (b, a).
    assert_eq!(mesh.vertex(b).unwrap().edge, Some(ba));
}

#[test]
fn failed_operations_leave_the_mesh_unchanged() {
    let (mut mesh, keys) = flat_mesh_with_vertices(2);
    let (a, b) = (keys[0], keys[1]);
    let ab = mesh.insert_edge((a, b), ()).unwrap();
    let missing: VertexKey = 77;

    assert_eq!(mesh.remove_face(5), Err(GraphError::TopologyNotFound));
    assert_eq!(
        mesh.insert_edge((a, missing), ()),
        Err(GraphError::TopologyNotFound)
    );
    assert_eq!(
        mesh.insert_edge((missing, b), ()),
        Err(GraphError::TopologyNotFound)
    );
    assert_eq!(mesh.insert_edge((a, a), ()), Err(GraphError::TopologyMalformed));
    assert_eq!(mesh.insert_edge((a, b), ()), Err(GraphError::TopologyConflict));

    assert_eq!(mesh.vertex_count(), 2);
    assert_eq!(mesh.edge_count(), 1);
    assert_eq!(mesh.face_count(), 0);
    assert_eq!(mesh.edge(ab).unwrap().opposite, None);
}

#[test]
fn insert_face_validates_the_cycle() {
    let (mut mesh, keys) = flat_mesh_with_vertices(4);
    let (a, b, c, d) = (keys[0], keys[1], keys[2], keys[3]);
    let ab = mesh.insert_edge((a, b), ()).unwrap();
    let bc = mesh.insert_edge((b, c), ()).unwrap();
    let ca = mesh.insert_edge((c, a), ()).unwrap();
    let cd = mesh.insert_edge((c, d), ()).unwrap();

    // An unknown edge key.
    let ghost = EdgeKey::new(d, a);
    assert_eq!(
        mesh.insert_face(&vec![ab, bc, ghost], ()),
        Err(GraphError::TopologyNotFound)
    );
    // Adjacent but not closed.
    assert_eq!(
        mesh.insert_face(&vec![ab, bc, cd], ()),
        Err(GraphError::TopologyMalformed)
    );
    // A repeated edge.
    assert_eq!(
        mesh.insert_face(&vec![ab, bc, ca, ab], ()),
        Err(GraphError::TopologyMalformed)
    );
    assert_eq!(mesh.face_count(), 0);

    let face = mesh.insert_face(&vec![ab, bc, ca], ()).unwrap();
    // Rebinding an edge that already bounds a face is a conflict.
    let da = mesh.insert_edge((d, a), ()).unwrap();
    let _ = da;
    let ad = mesh.insert_edge((a, d), ()).unwrap();
    let dc = mesh.insert_edge((d, c), ()).unwrap();
    assert_eq!(
        mesh.insert_face(&vec![ca, ad, dc], ()),
        Err(GraphError::TopologyConflict)
    );
    assert_eq!(mesh.face_count(), 1);
    assert!(mesh.face(face).is_some());
}

struct Tagged;

impl Geometry for Tagged {
    type Vertex = u64;
    type Edge = u64;
    type Face = u64;

    fn default_edge_attribute() -> Self::Edge {
        0
    }

    fn default_face_attribute() -> Self::Face {
        0
    }
}

// Conversions double on the way out and halve on the way back, so the
// round trip restores the payloads as well as the connectivity.
struct Double(u64);

struct Doubled;

impl Geometry for Doubled {
    type Vertex = Double;
    type Edge = Double;
    type Face = Double;

    fn default_edge_attribute() -> Self::Edge {
        Double(0)
    }

    fn default_face_attribute() -> Self::Face {
        Double(0)
    }
}

impl FromGeometry<u64> for Double {
    fn from_geometry(other: u64) -> Self {
        Double(other * 2)
    }
}

impl FromGeometry<Double> for u64 {
    fn from_geometry(other: Double) -> Self {
        other.0 / 2
    }
}

#[test]
fn geometry_conversion_preserves_connectivity() {
    let mut mesh: Mesh<Tagged> = Mesh::new();
    let a = mesh.insert_vertex(1);
    let b = mesh.insert_vertex(2);
    let c = mesh.insert_vertex(3);
    let ab = mesh.insert_edge((a, b), 10).unwrap();
    let bc = mesh.insert_edge((b, c), 20).unwrap();
    let ca = mesh.insert_edge((c, a), 30).unwrap();
    let face = mesh.insert_face(&vec![ab, bc, ca], 100).unwrap();

    let converted: Mesh<Doubled> = Mesh::from_geometry(mesh);
    let back: Mesh<Tagged> = Mesh::from_geometry(converted);

    assert_eq!(back.vertex_count(), 3);
    assert_eq!(back.edge_count(), 3);
    assert_eq!(back.face_count(), 1);
    assert_eq!(back.edge(ab).unwrap().opposite, None);
    assert_eq!(back.edge(ab).unwrap().next, Some(bc));
    assert_eq!(back.edge(ab).unwrap().face, Some(face));
    assert_eq!(back.edge(ab).unwrap().vertex, b);
    assert_eq!(back.vertex(a).unwrap().edge, Some(ab));
    assert_eq!(back.face(face).unwrap().edge_keys(), vec![ab, bc, ca]);
    // The payloads made the round trip through inverse conversions.
    assert_eq!(back.vertex(a).unwrap().geometry, 1);
    assert_eq!(back.edge(bc).unwrap().geometry, 20);
}

#[test]
fn cube_planes_are_generated_in_order() {
    let cube = Cube::new();
    let polygons = cube.polygons_with_plane();
    assert_eq!(polygons.len(), 6);
    let planes: Vec<Plane> = polygons.iter().map(|quad| quad.a).collect();
    assert_eq!(
        planes,
        vec![Plane::XY, Plane::NZY, Plane::XNZ, Plane::ZY, Plane::XZ, Plane::NXY]
    );
    for quad in polygons {
        assert_eq!(quad.a, quad.b);
        assert_eq!(quad.b, quad.c);
        assert_eq!(quad.c, quad.d);
    }
}

#[test]
fn indexed_triangles_validate_their_buffers() {
    // An out-of-range corner index.
    let result: Result<Mesh<Flat>, GraphError> =
        Mesh::from_indexed_triangles(vec![(), (), ()], &vec![[0, 1, 3]]);
    assert_eq!(result.err(), Some(GraphError::TopologyNotFound));
    // A repeated corner within one triangle.
    let result: Result<Mesh<Flat>, GraphError> =
        Mesh::from_indexed_triangles(vec![(), (), ()], &vec![[0, 0, 1]]);
    assert_eq!(result.err(), Some(GraphError::TopologyMalformed));
    // The same directed corner pair in two triangles.
    let result: Result<Mesh<Flat>, GraphError> =
        Mesh::from_indexed_triangles(vec![(), (), (), ()], &vec![[0, 1, 2], [0, 1, 3]]);
    assert_eq!(result.err(), Some(GraphError::TopologyConflict));
    // Two triangles that share an undirected edge traverse it in opposite
    // directions, which is admissible.
    let mesh: Mesh<Flat> =
        Mesh::from_indexed_triangles(vec![(), (), (), ()], &vec![[0, 1, 2], [1, 0, 3]]).unwrap();
    assert_eq!(mesh.vertex_count(), 4);
    assert_eq!(mesh.edge_count(), 6);
    assert_eq!(mesh.face_count(), 2);
}

#[test]
fn generators_report_remaining_capacity() {
    let (mesh, _keys) = flat_mesh_with_vertices(2);
    assert!(mesh.can_insert_vertex());
    assert!(mesh.can_insert_face());
}
