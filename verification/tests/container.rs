use plexus::container::{Bind, Core};
use plexus::mesh::{Edge, Face, Vertex};
use plexus::storage::{EdgeKey, EdgeStorage, Storage};

#[test]
fn core_binds_slots_and_decomposes() {
    let mut vertices: Storage<Vertex<u64>> = Storage::new();
    let key = vertices.insert_with_generator(Vertex::new(7));
    let mut arcs: EdgeStorage<Edge<u64>> = EdgeStorage::new();
    arcs.insert_with_key(EdgeKey::new(0, 1), Edge::new(1, 9));
    let faces: Storage<Face<u64>> = Storage::new();

    let core = Core::empty();
    let core = Bind::<Vertex<u64>, _>::bind(core, vertices);
    let core = Bind::<Edge<u64>, _>::bind(core, arcs);
    let core = Bind::<Face<u64>, _>::bind(core, faces);

    let (vertices, arcs, edges, faces) = core.into_storage();
    assert_eq!(vertices.len(), 1);
    assert_eq!(vertices.get(key).unwrap().geometry, 7);
    assert_eq!(arcs.len(), 1);
    assert!(arcs.contains_key(EdgeKey::new(0, 1)));
    assert!(!arcs.contains_key(EdgeKey::new(1, 0)));
    let () = edges;
    assert_eq!(faces.len(), 0);
}

#[test]
fn edge_keys_reverse_to_their_antiparallel_pair() {
    let key = EdgeKey::new(3, 8);
    let reversed = key.reversed();
    assert_eq!(reversed, EdgeKey::new(8, 3));
    assert_eq!(reversed.reversed(), key);
}

#[test]
fn storage_generates_fresh_keys_and_removes() {
    let mut storage: Storage<u32> = Storage::new();
    let k0 = storage.insert_with_generator(10);
    let k1 = storage.insert_with_generator(11);
    assert_ne!(k0, k1);
    assert_eq!(storage.len(), 2);
    assert_eq!(storage.get(k0), Some(&10));
    assert_eq!(storage.remove(k0), Some(10));
    assert_eq!(storage.remove(k0), None);
    assert_eq!(storage.len(), 1);
    // Keys are never reused after a removal.
    let k2 = storage.insert_with_generator(12);
    assert_ne!(k2, k0);
    assert_eq!(storage.get(k1), Some(&11));
}
