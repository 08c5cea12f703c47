use plexus::geometry::Geometry;
use plexus::mesh::Mesh;

struct Spatial;

impl Geometry for Spatial {
    type Vertex = (f32, f32, f32);
    type Edge = ();
    type Face = ();

    fn default_edge_attribute() -> Self::Edge {}

    fn default_face_attribute() -> Self::Face {}
}

// A UV sphere with 3 azimuthal and 2 polar subdivisions, already
// triangulated: a fan of 3 triangles around each pole, 18 triangle-vertex
// references over 5 unique positions.
fn sphere_polygons() -> Vec<[(f32, f32, f32); 3]> {
    let north = (0.0f32, 1.0f32, 0.0f32);
    let south = (0.0f32, -1.0f32, 0.0f32);
    let equator = |k: usize| -> (f32, f32, f32) {
        let theta = (k as f32) * 2.0 * std::f32::consts::PI / 3.0;
        (theta.cos(), 0.0, theta.sin())
    };
    let mut polygons = Vec::new();
    for k in 0..3 {
        let e0 = equator(k);
        let e1 = equator((k + 1) % 3);
        polygons.push([north, e0, e1]);
        polygons.push([e1, e0, south]);
    }
    polygons
}

// Deduplication by exact bit pattern, the equivalence an ordered-float
// indexer induces: equal positions map to the same index, first-seen
// order defines the index values.
fn index_polygons(
    polygons: &[[(f32, f32, f32); 3]],
) -> (Vec<(f32, f32, f32)>, Vec<[usize; 3]>) {
    let mut unique: Vec<(f32, f32, f32)> = Vec::new();
    let mut triangles: Vec<[usize; 3]> = Vec::new();
    for triangle in polygons {
        let mut corners: [usize; 3] = [0; 3];
        for (slot, position) in triangle.iter().enumerate() {
            let found = unique.iter().position(|known| {
                known.0.to_bits() == position.0.to_bits()
                    && known.1.to_bits() == position.1.to_bits()
                    && known.2.to_bits() == position.2.to_bits()
            });
            corners[slot] = match found {
                Some(index) => index,
                None => {
                    unique.push(*position);
                    unique.len() - 1
                },
            };
        }
        triangles.push(corners);
    }
    (unique, triangles)
}

#[test]
fn collect_topology_into_mesh() {
    // 6 triangles, 18 vertices.
    let (unique, triangles) = index_polygons(&sphere_polygons());
    let mesh: Mesh<Spatial> = Mesh::from_indexed_triangles(unique, &triangles).unwrap();

    assert_eq!(5, mesh.vertex_count());
    assert_eq!(18, mesh.edge_count());
    assert_eq!(6, mesh.face_count());
}
