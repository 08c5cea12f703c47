//! The consistency-guaranteeing mesh.
//!
//! `Mesh` owns one store per element kind and is the only way to mutate
//! them, so every reachable state satisfies the connectivity invariant
//! [`Mesh::wf`]: edge keys agree with their records' endpoints, antiparallel
//! edges are linked symmetrically, vertex back-references point at live
//! outgoing edges, and every face closes over a simple cycle of at least
//! three half-edges.

use vstd::prelude::*;

use crate::geometry::{FromGeometry, Geometry};
use crate::storage::{EdgeKey, EdgeStorage, FaceKey, Storage, VertexKey};

verus! {

/// Failure conditions reported by the guarded mutation API. Every failing
/// operation leaves the mesh exactly as it was.
#[derive(Clone, Copy, PartialEq, Eq, Structural, Debug)]
pub enum GraphError {
    /// A key passed to an operation resolves to no record.
    TopologyNotFound,
    /// An insertion collides with topology that is already present: the
    /// directed edge already exists, or a boundary edge is already bound
    /// to a face.
    TopologyConflict,
    /// The described topology is structurally unusable: an edge with equal
    /// endpoints, or face boundary edges that do not form a simple closed
    /// cycle.
    TopologyMalformed,
    /// A face was given fewer than three boundary edges.
    ArityNonPolygonal,
}

/// A vertex record: attribute payload plus one cached outgoing half-edge.
///
/// The cache names an arbitrary outgoing edge (`None` while the vertex is
/// isolated); it is a traversal seed, not an enumeration of the incident
/// edges.
pub struct Vertex<T> {
    pub geometry: T,
    pub edge: Option<EdgeKey>,
}

impl<T> Vertex<T> {
    /// A fresh, isolated vertex.
    pub fn new(geometry: T) -> (r: Self)
        ensures
            r == (Vertex { geometry, edge: None::<EdgeKey> }),
    {
        Vertex { geometry, edge: None }
    }
}

/// A half-edge record. The record for key `(a, b)` stores its destination
/// `b`, the antiparallel edge `(b, a)` once both directions exist, and its
/// position in a face boundary once it is bound to a face.
pub struct Edge<T> {
    pub geometry: T,
    pub vertex: VertexKey,
    pub opposite: Option<EdgeKey>,
    pub next: Option<EdgeKey>,
    pub face: Option<FaceKey>,
}

impl<T> Edge<T> {
    /// A fresh boundary edge arriving at `vertex`, not yet linked to an
    /// opposite edge or a face.
    pub fn new(vertex: VertexKey, geometry: T) -> (r: Self)
        ensures
            r == (Edge {
                geometry,
                vertex,
                opposite: None::<EdgeKey>,
                next: None::<EdgeKey>,
                face: None::<FaceKey>,
            }),
    {
        Edge { geometry, vertex, opposite: None, next: None, face: None }
    }
}

/// A face record: attribute payload plus one of its boundary half-edges.
/// The whole boundary is recovered by following `next` until that edge
/// recurs; the ghost `boundary` names the cycle so that the invariant can
/// speak about it directly.
pub struct Face<T> {
    pub geometry: T,
    pub edge: EdgeKey,
    pub boundary: Ghost<Seq<EdgeKey>>,
}

/// Connectivity demanded of one edge record: no self-loop, the key's second
/// component is the record's destination, both endpoints resolve, and the
/// `opposite` field is `Some` exactly when the antiparallel edge exists.
pub open spec fn edge_record_wf<VG, EG>(
    vs: Map<VertexKey, Vertex<VG>>,
    es: Map<EdgeKey, Edge<EG>>,
    k: EdgeKey,
) -> bool {
    &&& k.source != k.destination
    &&& es[k].vertex == k.destination
    &&& vs.dom().contains(k.source)
    &&& vs.dom().contains(k.destination)
    &&& es[k].opposite == (if es.dom().contains(k.spec_reversed()) {
        Some(k.spec_reversed())
    } else {
        None::<EdgeKey>
    })
}

pub open spec fn edges_wf<VG, EG>(
    vs: Map<VertexKey, Vertex<VG>>,
    es: Map<EdgeKey, Edge<EG>>,
) -> bool {
    forall|k: EdgeKey| #[trigger] es.dom().contains(k) ==> edge_record_wf(vs, es, k)
}

/// A vertex's cached outgoing edge, if set, is a live edge leaving it.
pub open spec fn vertices_wf<VG, EG>(
    vs: Map<VertexKey, Vertex<VG>>,
    es: Map<EdgeKey, Edge<EG>>,
) -> bool {
    forall|v: VertexKey| #[trigger] vs.dom().contains(v) ==> match vs[v].edge {
        Some(e) => e.source == v && es.dom().contains(e),
        None => true,
    }
}

/// No edge key occurs twice in the sequence.
pub open spec fn pairwise_distinct(b: Seq<EdgeKey>) -> bool {
    forall|i: int, j: int| 0 <= i < j < b.len() ==> b[i] != b[j]
}

/// Every key of the sequence resolves to a live edge record.
pub open spec fn edges_present<EG>(es: Map<EdgeKey, Edge<EG>>, b: Seq<EdgeKey>) -> bool {
    forall|i: int| 0 <= i < b.len() ==> es.dom().contains(#[trigger] b[i])
}

/// No edge of the sequence is bound to a face yet.
pub open spec fn edges_unbound<EG>(es: Map<EdgeKey, Edge<EG>>, b: Seq<EdgeKey>) -> bool {
    forall|i: int| 0 <= i < b.len() ==> (#[trigger] es[b[i]]).face is None
}

/// Each edge's destination is the next edge's source, cyclically: the
/// sequence closes over its ends.
pub open spec fn cycle_adjacent(b: Seq<EdgeKey>) -> bool {
    forall|i: int|
        0 <= i < b.len() ==> (#[trigger] b[i]).destination == b[(i + 1) % (b.len() as int)].source
}

proof fn lemma_index_of_distinct(b: Seq<EdgeKey>, i: int)
    requires
        pairwise_distinct(b),
        0 <= i < b.len(),
    ensures
        b.contains(b[i]),
        b.index_of(b[i]) == i,
{
    assert(b.contains(b[i]));
    let j = b.index_of(b[i]);
    assert(0 <= j < b.len() && b[j] == b[i]);
}

/// The boundary of face `k` is a simple closed cycle of at least three
/// distinct live edges: consecutive edges are chained head to tail both by
/// the `next` links and by vertex adjacency, and each carries the face key.
pub open spec fn face_cycle_wf<EG, FG>(
    es: Map<EdgeKey, Edge<EG>>,
    k: FaceKey,
    f: Face<FG>,
) -> bool {
    let b = f.boundary@;
    let n = b.len() as int;
    &&& b.len() >= 3
    &&& b[0] == f.edge
    &&& pairwise_distinct(b)
    &&& forall|i: int| 0 <= i < n ==> es.dom().contains(#[trigger] b[i])
    &&& forall|i: int| 0 <= i < n ==> (#[trigger] es[b[i]]).face == Some(k)
    &&& forall|i: int| 0 <= i < n ==> (#[trigger] es[b[i]]).next == Some(b[(i + 1) % n])
    &&& cycle_adjacent(b)
}

pub open spec fn faces_wf<EG, FG>(
    es: Map<EdgeKey, Edge<EG>>,
    fs: Map<FaceKey, Face<FG>>,
) -> bool {
    forall|k: FaceKey| #[trigger] fs.dom().contains(k) ==> face_cycle_wf(es, k, fs[k])
}

/// An edge is bound to a face exactly when it sits in that face's boundary;
/// unbound edges carry no `next` link.
pub open spec fn edge_face_links_wf<EG, FG>(
    es: Map<EdgeKey, Edge<EG>>,
    fs: Map<FaceKey, Face<FG>>,
) -> bool {
    forall|k: EdgeKey| #[trigger] es.dom().contains(k) ==> match es[k].face {
        Some(fk) => fs.dom().contains(fk) && fs[fk].boundary@.contains(k),
        None => es[k].next is None,
    }
}

/// A face cycle only reads the `face` and `next` fields of its boundary
/// records, so it survives any change that leaves those fields (and the
/// boundary's membership) intact.
proof fn lemma_face_cycle_same_links<EG, FG>(
    es0: Map<EdgeKey, Edge<EG>>,
    es1: Map<EdgeKey, Edge<EG>>,
    k: FaceKey,
    f: Face<FG>,
)
    requires
        face_cycle_wf(es0, k, f),
        forall|e: EdgeKey| f.boundary@.contains(e) ==> #[trigger] es1.dom().contains(e),
        forall|e: EdgeKey|
            f.boundary@.contains(e) ==> (#[trigger] es1[e]).face == es0[e].face && es1[e].next
                == es0[e].next,
    ensures
        face_cycle_wf(es1, k, f),
{
    let b = f.boundary@;
    assert(forall|i: int| 0 <= i < b.len() ==> b.contains(#[trigger] b[i]));
}

/// The edge map after inserting the edge `(a, b)` with payload `g`: the new
/// record arrives at `b`, and if the antiparallel edge `(b, a)` is present
/// the two records are linked symmetrically.
pub open spec fn es_with_edge<EG>(
    es: Map<EdgeKey, Edge<EG>>,
    a: VertexKey,
    b: VertexKey,
    g: EG,
) -> Map<EdgeKey, Edge<EG>> {
    let ab = EdgeKey { source: a, destination: b };
    let ba = ab.spec_reversed();
    let linked = if es.dom().contains(ba) {
        es.insert(
            ba,
            (Edge {
                geometry: es[ba].geometry,
                vertex: es[ba].vertex,
                opposite: Some(ab),
                next: es[ba].next,
                face: es[ba].face,
            }),
        )
    } else {
        es
    };
    linked.insert(
        ab,
        (Edge {
            geometry: g,
            vertex: b,
            opposite: if es.dom().contains(ba) {
                Some(ba)
            } else {
                None::<EdgeKey>
            },
            next: None::<EdgeKey>,
            face: None::<FaceKey>,
        }),
    )
}

/// The edge map after binding the boundary cycle `b` to face `k`: each
/// boundary edge's `next` points at its successor in `b` and its `face` at
/// `k`; every other record, and every other field, is untouched.
pub open spec fn es_with_cycle<EG>(
    es: Map<EdgeKey, Edge<EG>>,
    b: Seq<EdgeKey>,
    k: FaceKey,
) -> Map<EdgeKey, Edge<EG>> {
    es_with_cycle_prefix(es, b, k, b.len() as int)
}

/// As [`es_with_cycle`], but with only the first `m` boundary edges bound
/// yet; the bulk linking loop steps through these maps.
pub open spec fn es_with_cycle_prefix<EG>(
    es: Map<EdgeKey, Edge<EG>>,
    b: Seq<EdgeKey>,
    k: FaceKey,
    m: int,
) -> Map<EdgeKey, Edge<EG>> {
    let n = b.len() as int;
    Map::new(
        |e: EdgeKey| es.dom().contains(e),
        |e: EdgeKey|
            if b.contains(e) && b.index_of(e) < m {
                (Edge {
                    geometry: es[e].geometry,
                    vertex: es[e].vertex,
                    opposite: es[e].opposite,
                    next: Some(b[(b.index_of(e) + 1) % n]),
                    face: Some(k),
                })
            } else {
                es[e]
            },
    )
}

/// One step of the linking loop: binding boundary edge `i` on top of a
/// map whose first `i` boundary edges are bound yields the map with `i + 1`
/// bound.
proof fn lemma_cycle_prefix_step<EG>(es0: Map<EdgeKey, Edge<EG>>, b: Seq<EdgeKey>, k: FaceKey, i: int)
    requires
        0 <= i < b.len(),
        pairwise_distinct(b),
        edges_present(es0, b),
    ensures
        es_with_cycle_prefix(es0, b, k, i).dom() == es0.dom(),
        es_with_cycle_prefix(es0, b, k, i)[b[i]] == es0[b[i]],
        es_with_cycle_prefix(es0, b, k, i).insert(
            b[i],
            (Edge {
                geometry: es0[b[i]].geometry,
                vertex: es0[b[i]].vertex,
                opposite: es0[b[i]].opposite,
                next: Some(b[(i + 1) % (b.len() as int)]),
                face: Some(k),
            }),
        ) == es_with_cycle_prefix(es0, b, k, i + 1),
{
    lemma_index_of_distinct(b, i);
    assert(es_with_cycle_prefix(es0, b, k, i).dom() =~= es0.dom());
    assert forall|e2: EdgeKey| b.contains(e2) && e2 != b[i] implies b.index_of(e2) != i by {
        let j = b.index_of(e2);
        assert(0 <= j < b.len() && b[j] == e2);
    }
    assert(es_with_cycle_prefix(es0, b, k, i).insert(
        b[i],
        (Edge {
            geometry: es0[b[i]].geometry,
            vertex: es0[b[i]].vertex,
            opposite: es0[b[i]].opposite,
            next: Some(b[(i + 1) % (b.len() as int)]),
            face: Some(k),
        }),
    ) =~= es_with_cycle_prefix(es0, b, k, i + 1));
}

/// Lifts one deletion step to the loop's running characterization: if the
/// stores match the state with the first `i` boundary edges gone, then
/// after deleting edge `i` they match the state with `i + 1` gone.
#[verifier::rlimit(100)]
proof fn lemma_detach_step<VG, EG>(
    es0: Map<EdgeKey, Edge<EG>>,
    esa: Map<EdgeKey, Edge<EG>>,
    esb: Map<EdgeKey, Edge<EG>>,
    vs0: Map<VertexKey, Vertex<VG>>,
    vsa: Map<VertexKey, Vertex<VG>>,
    vsb: Map<VertexKey, Vertex<VG>>,
    b: Seq<EdgeKey>,
    i: int,
)
    requires
        0 <= i < b.len(),
        pairwise_distinct(b),
        edges_present(es0, b),
        vertices_wf(vs0, es0),
        esa == es_after_face_removal(es0, b.take(i)),
        vsa == vs_after_face_removal(vs0, b.take(i)),
        esb.dom() == esa.dom().remove(b[i]),
        forall|k: EdgeKey| #[trigger] esb.dom().contains(k) ==> {
            &&& esb[k].geometry == esa[k].geometry
            &&& esb[k].vertex == esa[k].vertex
            &&& esb[k].next == esa[k].next
            &&& esb[k].face == esa[k].face
            &&& esb[k].opposite == (if k == b[i].spec_reversed() {
                None::<EdgeKey>
            } else {
                esa[k].opposite
            })
        },
        vsb.dom() == vsa.dom(),
        forall|v: VertexKey| #[trigger] vsb.dom().contains(v) ==> {
            &&& vsb[v].geometry == vsa[v].geometry
            &&& vsb[v].edge == (if v == b[i].source && vsa[v].edge == Some(b[i]) {
                None::<EdgeKey>
            } else {
                vsa[v].edge
            })
        },
    ensures
        esb == es_after_face_removal(es0, b.take(i + 1)),
        vsb == vs_after_face_removal(vs0, b.take(i + 1)),
{
    let e = b[i];
    assert(b.take(i + 1).contains(e)) by {
        assert(b.take(i + 1)[i] == e);
    }
    assert(!b.take(i).contains(e)) by {
        if b.take(i).contains(e) {
            let j = choose|j: int| 0 <= j < i && (#[trigger] b.take(i)[j]) == e;
            assert(b[j] == b[i]);
        }
    }
    assert forall|k: EdgeKey| #[trigger] b.take(i + 1).contains(k) implies b.take(i).contains(k)
        || k == e by {
        let j = choose|j: int| 0 <= j < i + 1 && (#[trigger] b.take(i + 1)[j]) == k;
        if j < i {
            assert(b.take(i)[j] == k);
        }
    }
    assert forall|k: EdgeKey| #[trigger] b.take(i).contains(k) implies b.take(i + 1).contains(
        k,
    ) by {
        let j = choose|j: int| 0 <= j < i && (#[trigger] b.take(i)[j]) == k;
        assert(b.take(i + 1)[j] == k);
    }
    assert(esb =~= es_after_face_removal(es0, b.take(i + 1)));
    assert forall|v: VertexKey| #[trigger] vsb.dom().contains(v) implies vsb[v]
        == vs_after_face_removal(vs0, b.take(i + 1))[v] by {
        assert(vs0.dom().contains(v));
        match vs0[v].edge {
            Some(e2) => {
                if e2 == e {
                    assert(e2.source == v);
                    assert(vsa[v].edge == Some(e));
                }
            },
            None => {},
        }
    }
    assert(vsb =~= vs_after_face_removal(vs0, b.take(i + 1)));
}

/// One step of boundary deletion: clears the antiparallel edge's
/// back-link if that edge is present, clears the source vertex's cached
/// outgoing edge if it pointed at `e`, and removes `e` itself.
fn detach_one<VG, EG>(
    vertices: &mut Storage<Vertex<VG>>,
    edges: &mut EdgeStorage<Edge<EG>>,
    e: EdgeKey,
)
    requires
        old(vertices).inv(),
        old(edges).inv(),
    ensures
        final(vertices).inv(),
        final(edges).inv(),
        final(vertices).key_cursor() == old(vertices).key_cursor(),
        final(edges)@.dom() == old(edges)@.dom().remove(e),
        forall|k: EdgeKey| #[trigger] final(edges)@.dom().contains(k) ==> {
            &&& final(edges)@[k].geometry == old(edges)@[k].geometry
            &&& final(edges)@[k].vertex == old(edges)@[k].vertex
            &&& final(edges)@[k].next == old(edges)@[k].next
            &&& final(edges)@[k].face == old(edges)@[k].face
            &&& final(edges)@[k].opposite == (if k == e.spec_reversed() {
                None::<EdgeKey>
            } else {
                old(edges)@[k].opposite
            })
        },
        final(vertices)@.dom() == old(vertices)@.dom(),
        forall|v: VertexKey| #[trigger] final(vertices)@.dom().contains(v) ==> {
            &&& final(vertices)@[v].geometry == old(vertices)@[v].geometry
            &&& final(vertices)@[v].edge == (if v == e.source && old(vertices)@[v].edge == Some(
                e,
            ) {
                None::<EdgeKey>
            } else {
                old(vertices)@[v].edge
            })
        },
{
    let antiparallel = e.reversed();
    if edges.contains_key(antiparallel) {
        let o = edges.value_mut(antiparallel);
        o.opposite = None;
    }
    let cached: Option<EdgeKey> = match vertices.get(e.source) {
        Some(v) => v.edge,
        None => None,
    };
    let clear: bool = match cached {
        Some(c) => c == e,
        None => false,
    };
    if clear {
        let v = vertices.value_mut(e.source);
        v.edge = None;
    }
    edges.remove(e);
}

/// Deletes the validated boundary `keys` edge by edge: each step clears
/// the antiparallel edge's back-link if that edge is still present, clears
/// the source vertex's cached outgoing edge if it pointed at the edge
/// being deleted, and then removes the edge itself.
#[verifier::rlimit(100)]
fn detach_boundary<VG, EG>(
    vertices: &mut Storage<Vertex<VG>>,
    edges: &mut EdgeStorage<Edge<EG>>,
    keys: &Vec<EdgeKey>,
)
    requires
        old(vertices).inv(),
        old(edges).inv(),
        pairwise_distinct(keys@),
        edges_present(old(edges)@, keys@),
        vertices_wf(old(vertices)@, old(edges)@),
    ensures
        final(vertices).inv(),
        final(edges).inv(),
        final(vertices).key_cursor() == old(vertices).key_cursor(),
        final(edges)@ == es_after_face_removal(old(edges)@, keys@),
        final(vertices)@ == vs_after_face_removal(old(vertices)@, keys@),
{
    let ghost b = keys@;
    let ghost vs0 = old(vertices)@;
    let ghost es0 = old(edges)@;
    proof {
        assert(es_after_face_removal(es0, b.take(0)) =~= es0);
        assert(vs_after_face_removal(vs0, b.take(0)) =~= vs0);
    }
    let n: usize = keys.len();
    let mut i: usize = 0;
    while i < n
        invariant
            keys@ == b,
            n == b.len(),
            0 <= i <= n,
            pairwise_distinct(b),
            edges_present(es0, b),
            vertices_wf(vs0, es0),
            vertices.inv(),
            edges.inv(),
            vertices.key_cursor() == old(vertices).key_cursor(),
            edges@ == es_after_face_removal(es0, b.take(i as int)),
            vertices@ == vs_after_face_removal(vs0, b.take(i as int)),
        decreases n - i,
    {
        let e = keys[i];
        proof {
            assert(edges@.dom().contains(e)) by {
                assert(!b.take(i as int).contains(e)) by {
                    if b.take(i as int).contains(e) {
                        let j = choose|j: int| 0 <= j < i && (#[trigger] b.take(i as int)[j]) == e;
                        assert(b[j] == b[i as int]);
                    }
                }
            }
        }
        let ghost esa = edges@;
        let ghost vsa = vertices@;
        detach_one(vertices, edges, e);
        proof {
            lemma_detach_step(es0, esa, edges@, vs0, vsa, vertices@, b, i as int);
        }
        i = i + 1;
    }
    proof {
        assert(b.take(n as int) =~= b);
    }
}

/// Deleting a face's boundary and its record preserves the connectivity
/// invariant for everything that survives.
#[verifier::rlimit(100)]
proof fn lemma_removal_wf<G: Geometry>(m0: Mesh<G>, m1: Mesh<G>, b: Seq<EdgeKey>, face: FaceKey)
    requires
        m0.wf(),
        m1.stores_wf(),
        m0.fs().dom().contains(face),
        b == m0.fs()[face].boundary@,
        m1.es() == es_after_face_removal(m0.es(), b),
        m1.vs() == vs_after_face_removal(m0.vs(), b),
        m1.fs() == m0.fs().remove(face),
    ensures
        m1.wf(),
{
    let vs0 = m0.vs();
    let es0 = m0.es();
    let fs0 = m0.fs();
    let vs1 = m1.vs();
    let es1 = m1.es();
    let fs1 = m1.fs();
    assert(face_cycle_wf(es0, face, fs0[face]));
    assert forall|i: int| 0 <= i < b.len() implies es0.dom().contains(#[trigger] b[i])
        && es0[b[i]].face == Some(face) by {}
    assert forall|k: EdgeKey| #[trigger] es1.dom().contains(k) implies edge_record_wf(
        vs1,
        es1,
        k,
    ) by {
        assert(es0.dom().contains(k) && !b.contains(k));
        assert(edge_record_wf(vs0, es0, k));
        if b.contains(k.spec_reversed()) {
            assert(!es1.dom().contains(k.spec_reversed()));
            assert(es1[k].opposite is None);
        } else {
            assert(es1.dom().contains(k.spec_reversed()) == es0.dom().contains(
                k.spec_reversed(),
            ));
            assert(es1[k].opposite == es0[k].opposite);
        }
    }
    assert forall|v: VertexKey| #[trigger] vs1.dom().contains(v) implies match vs1[v].edge {
        Some(e) => e.source == v && es1.dom().contains(e),
        None => true,
    } by {
        assert(vs0.dom().contains(v));
        assert(vertices_wf(vs0, es0));
        match vs0[v].edge {
            Some(e) => {
                if !b.contains(e) {
                    assert(vs1[v].edge == Some(e));
                    assert(es1.dom().contains(e));
                }
            },
            None => {},
        }
    }
    assert forall|fk: FaceKey| #[trigger] fs1.dom().contains(fk) implies face_cycle_wf(
        es1,
        fk,
        fs1[fk],
    ) by {
        assert(fk != face);
        assert(fs1[fk] == fs0[fk]);
        assert(face_cycle_wf(es0, fk, fs0[fk]));
        assert forall|e: EdgeKey| fs0[fk].boundary@.contains(e) implies #[trigger] es1.dom()
            .contains(e) && es1[e].face == es0[e].face && es1[e].next == es0[e].next by {
            let bb = fs0[fk].boundary@;
            let j = choose|j: int| 0 <= j < bb.len() && bb[j] == e;
            assert(es0[bb[j]].face == Some(fk));
            assert(!b.contains(e)) by {
                if b.contains(e) {
                    let p = choose|p: int| 0 <= p < b.len() && b[p] == e;
                    assert(es0[b[p]].face == Some(face));
                }
            }
        }
        lemma_face_cycle_same_links(es0, es1, fk, fs0[fk]);
    }
    assert forall|k: EdgeKey| #[trigger] es1.dom().contains(k) implies match es1[k].face {
        Some(fk) => fs1.dom().contains(fk) && fs1[fk].boundary@.contains(k),
        None => es1[k].next is None,
    } by {
        assert(es0.dom().contains(k) && !b.contains(k));
        assert(es1[k].face == es0[k].face && es1[k].next == es0[k].next);
        match es0[k].face {
            Some(fk) => {
                assert(fs0.dom().contains(fk) && fs0[fk].boundary@.contains(k));
                assert(fk != face) by {
                    if fk == face {
                        let p = choose|p: int| 0 <= p < b.len() && b[p] == k;
                    }
                }
                assert(fs1[fk] == fs0[fk]);
            },
            None => {},
        }
    }
}

/// Binds each edge of the validated cycle `edges` to `face`, chaining the
/// `next` links head to tail around the cycle.
fn link_boundary<EG>(store: &mut EdgeStorage<Edge<EG>>, edges: &Vec<EdgeKey>, face: FaceKey)
    requires
        old(store).inv(),
        edges@.len() >= 3,
        edges_present(old(store)@, edges@),
        pairwise_distinct(edges@),
    ensures
        final(store).inv(),
        final(store)@ == es_with_cycle(old(store)@, edges@, face),
{
    let ghost es0 = store@;
    let ghost b = edges@;
    let n: usize = edges.len();
    proof {
        assert(es_with_cycle_prefix(es0, b, face, 0) =~= es0);
    }
    let mut i: usize = 0;
    while i < n
        invariant
            n == b.len(),
            3 <= n,
            b == edges@,
            0 <= i <= n,
            edges_present(es0, b),
            pairwise_distinct(b),
            store.inv(),
            store@ == es_with_cycle_prefix(es0, b, face, i as int),
        decreases n - i,
    {
        let successor: usize = if i + 1 == n {
            0
        } else {
            i + 1
        };
        proof {
            assert(successor as int == (i + 1) % (n as int)) by {
                if i + 1 < n {
                    vstd::arithmetic::div_mod::lemma_small_mod((i + 1) as nat, n as nat);
                } else {
                    vstd::arithmetic::div_mod::lemma_mod_self_0(n as int);
                }
            }
            lemma_cycle_prefix_step(es0, b, face, i as int);
        }
        let e = store.value_mut(edges[i]);
        e.next = Some(edges[successor]);
        e.face = Some(face);
        i = i + 1;
    }
}

/// The vertex map after the boundary `b` is deleted: any cached outgoing
/// edge that lay on the boundary is cleared; nothing else changes, and no
/// vertex is deleted.
pub open spec fn vs_after_face_removal<VG>(
    vs: Map<VertexKey, Vertex<VG>>,
    b: Seq<EdgeKey>,
) -> Map<VertexKey, Vertex<VG>> {
    Map::new(
        |v: VertexKey| vs.dom().contains(v),
        |v: VertexKey|
            match vs[v].edge {
                Some(e) => if b.contains(e) {
                    (Vertex { geometry: vs[v].geometry, edge: None::<EdgeKey> })
                } else {
                    vs[v]
                },
                None => vs[v],
            },
    )
}

/// The edge map after the boundary `b` is deleted: the boundary records are
/// gone, and a surviving record whose antiparallel edge lay on the boundary
/// has its `opposite` cleared.
pub open spec fn es_after_face_removal<EG>(
    es: Map<EdgeKey, Edge<EG>>,
    b: Seq<EdgeKey>,
) -> Map<EdgeKey, Edge<EG>> {
    Map::new(
        |k: EdgeKey| es.dom().contains(k) && !b.contains(k),
        |k: EdgeKey|
            if b.contains(k.spec_reversed()) {
                (Edge {
                    geometry: es[k].geometry,
                    vertex: es[k].vertex,
                    opposite: None::<EdgeKey>,
                    next: es[k].next,
                    face: es[k].face,
                })
            } else {
                es[k]
            },
    )
}

/// Removing a subset of a finite set shrinks it by exactly the subset's
/// size.
proof fn lemma_subset_difference_len<A>(s: Set<A>, t: Set<A>)
    requires
        s.finite(),
        t.finite(),
        t.subset_of(s),
    ensures
        s.difference(t).len() == s.len() - t.len(),
    decreases t.len(),
{
    if t.is_empty() {
        assert(s.difference(t) =~= s);
    } else {
        let x = t.choose();
        assert(t.contains(x));
        lemma_subset_difference_len(s.remove(x), t.remove(x));
        assert(s.difference(t) =~= s.remove(x).difference(t.remove(x)));
    }
}

/// Binding a cycle never touches a record's `vertex` or `opposite` field,
/// nor the set of live edges, so the per-edge invariant survives.
proof fn lemma_bind_edges_wf<VG, EG>(
    vs: Map<VertexKey, Vertex<VG>>,
    es0: Map<EdgeKey, Edge<EG>>,
    b: Seq<EdgeKey>,
    face: FaceKey,
)
    requires
        edges_wf(vs, es0),
    ensures
        edges_wf(vs, es_with_cycle(es0, b, face)),
        es_with_cycle(es0, b, face).dom() == es0.dom(),
{
    let es1 = es_with_cycle(es0, b, face);
    assert(es1.dom() =~= es0.dom());
    assert forall|k: EdgeKey| #[trigger] es1.dom().contains(k) implies edge_record_wf(
        vs,
        es1,
        k,
    ) by {
        assert(edge_record_wf(vs, es0, k));
        assert(es1[k].vertex == es0[k].vertex && es1[k].opposite == es0[k].opposite);
        assert(es1.dom().contains(k.spec_reversed()) == es0.dom().contains(k.spec_reversed()));
    }
}

/// A face that was already well formed stays so: its boundary is disjoint
/// from the freshly bound cycle, whose edges were unbound.
proof fn lemma_bind_old_face_cycle<EG, FG>(
    es0: Map<EdgeKey, Edge<EG>>,
    b: Seq<EdgeKey>,
    face: FaceKey,
    fk: FaceKey,
    f: Face<FG>,
)
    requires
        face_cycle_wf(es0, fk, f),
        edges_unbound(es0, b),
    ensures
        face_cycle_wf(es_with_cycle(es0, b, face), fk, f),
{
    let es1 = es_with_cycle(es0, b, face);
    assert forall|e2: EdgeKey| f.boundary@.contains(e2) implies #[trigger] es1.dom().contains(e2)
        && es1[e2].face == es0[e2].face && es1[e2].next == es0[e2].next by {
        let bb = f.boundary@;
        let j = choose|j: int| 0 <= j < bb.len() && bb[j] == e2;
        assert(es0[bb[j]].face == Some(fk));
        assert(!b.contains(e2)) by {
            if b.contains(e2) {
                let p = b.index_of(e2);
                assert(0 <= p < b.len() && b[p] == e2);
                assert(es0[b[p]].face is None);
            }
        }
    }
    lemma_face_cycle_same_links(es0, es1, fk, f);
}

/// The freshly bound cycle is a well-formed face boundary.
proof fn lemma_bind_new_face_cycle<EG, FG>(
    es0: Map<EdgeKey, Edge<EG>>,
    b: Seq<EdgeKey>,
    face: FaceKey,
    f: Face<FG>,
)
    requires
        b.len() >= 3,
        edges_present(es0, b),
        pairwise_distinct(b),
        cycle_adjacent(b),
        f.boundary@ == b,
        f.edge == b[0],
    ensures
        face_cycle_wf(es_with_cycle(es0, b, face), face, f),
{
    let es1 = es_with_cycle(es0, b, face);
    assert(es1.dom() =~= es0.dom());
    assert forall|idx: int| 0 <= idx < b.len() implies es1.dom().contains(#[trigger] b[idx])
        && es1[b[idx]].face == Some(face) && es1[b[idx]].next == Some(
        b[(idx + 1) % (b.len() as int)],
    ) by {
        lemma_index_of_distinct(b, idx);
    }
}

/// Every edge-to-face back-reference stays valid when the cycle is bound
/// and the fresh face record is added.
proof fn lemma_bind_links<EG, FG>(
    es0: Map<EdgeKey, Edge<EG>>,
    fs0: Map<FaceKey, Face<FG>>,
    fs1: Map<FaceKey, Face<FG>>,
    b: Seq<EdgeKey>,
    face: FaceKey,
)
    requires
        edge_face_links_wf(es0, fs0),
        !fs0.dom().contains(face),
        fs1 == fs0.insert(face, fs1[face]),
        fs1[face].boundary@ == b,
    ensures
        edge_face_links_wf(es_with_cycle(es0, b, face), fs1),
{
    let es1 = es_with_cycle(es0, b, face);
    assert(es1.dom() =~= es0.dom());
    assert forall|k: EdgeKey| #[trigger] es1.dom().contains(k) implies match es1[k].face {
        Some(fk) => fs1.dom().contains(fk) && fs1[fk].boundary@.contains(k),
        None => es1[k].next is None,
    } by {
        if b.contains(k) {
            let p = b.index_of(k);
            assert(0 <= p < b.len() && b[p] == k);
            assert(es1[k].face == Some(face));
            assert(fs1[face].boundary@.contains(k));
        } else {
            assert(es1[k] == es0[k]);
            assert(es0.dom().contains(k));
            match es0[k].face {
                Some(fk) => {
                    assert(fs0.dom().contains(fk));
                    assert(fk != face);
                    assert(fs1[fk] == fs0[fk]);
                },
                None => {},
            }
        }
    }
}

/// Binding a fresh face over an admissible boundary cycle preserves the
/// connectivity invariant.
proof fn lemma_cycle_bind_wf<G: Geometry>(m0: Mesh<G>, m1: Mesh<G>, b: Seq<EdgeKey>, face: FaceKey)
    requires
        m0.wf(),
        m1.stores_wf(),
        b.len() >= 3,
        edges_present(m0.es(), b),
        pairwise_distinct(b),
        cycle_adjacent(b),
        edges_unbound(m0.es(), b),
        !m0.fs().dom().contains(face),
        m1.vs() == m0.vs(),
        m1.es() == es_with_cycle(m0.es(), b, face),
        m1.fs() == m0.fs().insert(face, m1.fs()[face]),
        m1.fs()[face].edge == b[0],
        m1.fs()[face].boundary@ == b,
    ensures
        m1.wf(),
{
    let es0 = m0.es();
    let fs0 = m0.fs();
    lemma_bind_edges_wf(m0.vs(), es0, b, face);
    assert forall|fk: FaceKey| #[trigger] m1.fs().dom().contains(fk) implies face_cycle_wf(
        m1.es(),
        fk,
        m1.fs()[fk],
    ) by {
        if fk == face {
            lemma_bind_new_face_cycle(es0, b, face, m1.fs()[face]);
        } else {
            assert(fs0.dom().contains(fk));
            assert(m1.fs()[fk] == fs0[fk]);
            assert(face_cycle_wf(es0, fk, fs0[fk]));
            lemma_bind_old_face_cycle(es0, b, face, fk, fs0[fk]);
        }
    }
    lemma_bind_links(es0, fs0, m1.fs(), b, face);
    assert forall|v: VertexKey| #[trigger] m1.vs().dom().contains(v) implies match m1.vs()[v].edge {
        Some(e2) => e2.source == v && m1.es().dom().contains(e2),
        None => true,
    } by {
        assert(vertices_wf(m0.vs(), es0));
        assert(m1.vs()[v] == m0.vs()[v]);
    }
}

/// Read-only view of one face: a borrow of the mesh plus the face's key.
/// It is constructed only through [`Mesh::face`], so it may follow the
/// boundary links without defensive checks.
pub struct FaceRef<'a, G> where G: Geometry {
    mesh: &'a Mesh<G>,
    key: FaceKey,
}

impl<'a, G> FaceRef<'a, G> where G: Geometry {
    /// The mesh the view borrows.
    pub closed spec fn spec_mesh(self) -> Mesh<G> {
        *self.mesh
    }

    /// The key of the face the view denotes.
    pub closed spec fn spec_key(self) -> FaceKey {
        self.key
    }

    /// The view points into a consistent mesh at a live face.
    pub open spec fn wf(self) -> bool {
        &&& self.spec_mesh().wf()
        &&& self.spec_mesh().fs().dom().contains(self.spec_key())
    }

    pub fn key(&self) -> (r: FaceKey)
        ensures
            r == self.spec_key(),
    {
        self.key
    }

    /// The face's boundary half-edge keys, in cycle order, starting from
    /// the face's stored edge.
    pub fn edge_keys(&self) -> (r: Vec<EdgeKey>)
        requires
            self.wf(),
        ensures
            r@ == self.spec_mesh().fs()[self.spec_key()].boundary@,
    {
        self.mesh.face_edges(self.key)
    }

    /// The number of boundary edges of the face.
    pub fn arity(&self) -> (r: usize)
        requires
            self.wf(),
        ensures
            r == self.spec_mesh().fs()[self.spec_key()].boundary@.len(),
    {
        self.edge_keys().len()
    }

    /// The face's vertex keys in boundary order: each boundary edge
    /// contributes its source vertex.
    pub fn vertex_keys(&self) -> (r: Vec<VertexKey>)
        requires
            self.wf(),
        ensures
            r@ == self.spec_mesh().fs()[self.spec_key()].boundary@.map_values(
                |e: EdgeKey| e.source,
            ),
    {
        let edges = self.edge_keys();
        let n: usize = edges.len();
        let mut out: Vec<VertexKey> = Vec::new();
        let mut i: usize = 0;
        while i < n
            invariant
                n == edges@.len(),
                0 <= i <= n,
                out@.len() == i,
                forall|j: int| 0 <= j < i ==> out@[j] == (#[trigger] edges@[j]).source,
            decreases n - i,
        {
            out.push(edges[i].source);
            i = i + 1;
        }
        proof {
            assert(out@ =~= edges@.map_values(|e: EdgeKey| e.source));
        }
        out
    }
}

/// Two meshes, possibly over different geometry capabilities, have exactly
/// the same keys and the same `edge` / `opposite` / `next` / `face` links;
/// only the attribute payloads may differ.
pub open spec fn connectivity_eq<G1, G2>(x: Mesh<G1>, y: Mesh<G2>) -> bool where
    G1: Geometry,
    G2: Geometry,
 {
    &&& x.vs().dom() == y.vs().dom()
    &&& x.es().dom() == y.es().dom()
    &&& x.fs().dom() == y.fs().dom()
    &&& forall|v: VertexKey| #[trigger]
        x.vs().dom().contains(v) ==> x.vs()[v].edge == y.vs()[v].edge
    &&& forall|k: EdgeKey| #[trigger] x.es().dom().contains(k) ==> x.es()[k].vertex
        == y.es()[k].vertex && x.es()[k].opposite == y.es()[k].opposite && x.es()[k].next
        == y.es()[k].next && x.es()[k].face == y.es()[k].face
    &&& forall|f: FaceKey| #[trigger] x.fs().dom().contains(f) ==> x.fs()[f].edge
        == y.fs()[f].edge && x.fs()[f].boundary@ == y.fs()[f].boundary@
}

/// The connectivity invariant reads only keys and links, never attribute
/// payloads, so it carries over to any mesh with equal connectivity.
#[verifier::rlimit(100)]
proof fn lemma_connectivity_wf<G1, G2>(x: Mesh<G1>, y: Mesh<G2>) where G1: Geometry, G2: Geometry
    requires
        y.wf(),
        x.stores_wf(),
        connectivity_eq(x, y),
    ensures
        x.wf(),
{
    assert forall|k: EdgeKey| #[trigger] x.es().dom().contains(k) implies edge_record_wf(
        x.vs(),
        x.es(),
        k,
    ) by {
        assert(edge_record_wf(y.vs(), y.es(), k));
    }
    assert forall|v: VertexKey| #[trigger] x.vs().dom().contains(v) implies match x.vs()[v].edge {
        Some(e) => e.source == v && x.es().dom().contains(e),
        None => true,
    } by {
        assert(vertices_wf(y.vs(), y.es()));
    }
    assert forall|fk: FaceKey| #[trigger] x.fs().dom().contains(fk) implies face_cycle_wf(
        x.es(),
        fk,
        x.fs()[fk],
    ) by {
        assert(face_cycle_wf(y.es(), fk, y.fs()[fk]));
        let b = x.fs()[fk].boundary@;
        assert(b == y.fs()[fk].boundary@);
        assert forall|i: int| 0 <= i < b.len() implies x.es().dom().contains(#[trigger] b[i])
            && x.es()[b[i]].face == Some(fk) && x.es()[b[i]].next == Some(
            b[(i + 1) % (b.len() as int)],
        ) by {
            assert(y.es().dom().contains(b[i]));
        }
    }
    assert forall|k: EdgeKey| #[trigger] x.es().dom().contains(k) implies match x.es()[k].face {
        Some(fk) => x.fs().dom().contains(fk) && x.fs()[fk].boundary@.contains(k),
        None => x.es()[k].next is None,
    } by {
        assert(edge_face_links_wf(y.es(), y.fs()));
        match x.es()[k].face {
            Some(fk) => {
                assert(y.fs()[fk].boundary@ == x.fs()[fk].boundary@);
            },
            None => {},
        }
    }
}

/// Converting a mesh and converting it back preserves connectivity
/// exactly: equal-connectivity is transitive across the round trip,
/// whatever the attribute conversions do to the payloads.
pub proof fn lemma_conversion_round_trip<G1, G2, G3>(x: Mesh<G1>, y: Mesh<G2>, z: Mesh<G3>) where
    G1: Geometry,
    G2: Geometry,
    G3: Geometry,

    requires
        connectivity_eq(y, x),
        connectivity_eq(z, y),
    ensures
        connectivity_eq(z, x),
{
}

/// Inserting the edge `(a, b)` alone leaves its `opposite` empty; then
/// inserting `(b, a)` links the two records to each other symmetrically.
pub proof fn lemma_opposite_pairing<EG>(
    es: Map<EdgeKey, Edge<EG>>,
    a: VertexKey,
    b: VertexKey,
    g1: EG,
    g2: EG,
)
    requires
        a != b,
        !es.dom().contains(EdgeKey { source: a, destination: b }),
        !es.dom().contains(EdgeKey { source: b, destination: a }),
    ensures
        es_with_edge(es, a, b, g1)[EdgeKey { source: a, destination: b }].opposite is None,
        es_with_edge(es_with_edge(es, a, b, g1), b, a, g2)[EdgeKey {
            source: a,
            destination: b,
        }].opposite == Some(EdgeKey { source: b, destination: a }),
        es_with_edge(es_with_edge(es, a, b, g1), b, a, g2)[EdgeKey {
            source: b,
            destination: a,
        }].opposite == Some(EdgeKey { source: a, destination: b }),
{
}

/// Converts a vertex record's payload, keeping its connectivity.
fn convert_vertex<T, U>(v: Vertex<T>) -> (r: Vertex<U>) where U: FromGeometry<T>
    ensures
        r.edge == v.edge,
{
    Vertex { geometry: FromGeometry::from_geometry(v.geometry), edge: v.edge }
}

/// Converts an edge record's payload, keeping its connectivity.
fn convert_edge<T, U>(e: Edge<T>) -> (r: Edge<U>) where U: FromGeometry<T>
    ensures
        r.vertex == e.vertex,
        r.opposite == e.opposite,
        r.next == e.next,
        r.face == e.face,
{
    Edge {
        geometry: FromGeometry::from_geometry(e.geometry),
        vertex: e.vertex,
        opposite: e.opposite,
        next: e.next,
        face: e.face,
    }
}

/// Converts a face record's payload, keeping its connectivity.
fn convert_face<T, U>(f: Face<T>) -> (r: Face<U>) where U: FromGeometry<T>
    ensures
        r.edge == f.edge,
        r.boundary == f.boundary,
{
    Face { geometry: FromGeometry::from_geometry(f.geometry), edge: f.edge, boundary: f.boundary }
}

/// Corner `k` of triangle `t` in an indexed triangle stream.
pub open spec fn tri_corner(triangles: Seq<[usize; 3]>, t: int, k: int) -> usize {
    triangles[t]@[k]
}

/// The directed edge that corner `k` of triangle `t` contributes: from
/// that corner to the next corner of the same triangle, cyclically.
pub open spec fn tri_edge(triangles: Seq<[usize; 3]>, t: int, k: int) -> EdgeKey {
    EdgeKey {
        source: tri_corner(triangles, t, k) as u64,
        destination: tri_corner(
            triangles,
            t,
            if k == 2 {
                0
            } else {
                k + 1
            },
        ) as u64,
    }
}

/// The indexed triangles describe a mesh the guarded API accepts: every
/// corner index refers to one of the `nv` vertices, no triangle repeats a
/// corner consecutively, and no directed corner pair occurs twice in the
/// whole stream.
pub open spec fn triangles_admissible(nv: nat, triangles: Seq<[usize; 3]>) -> bool {
    &&& forall|t: int, k: int|
        0 <= t < triangles.len() && 0 <= k < 3 ==> #[trigger] tri_corner(triangles, t, k) < nv
    &&& forall|t: int, k: int|
        0 <= t < triangles.len() && 0 <= k < 3 ==> (#[trigger] tri_edge(
            triangles,
            t,
            k,
        )).source != tri_edge(triangles, t, k).destination
    &&& forall|t1: int, k1: int, t2: int, k2: int|
        #![trigger tri_edge(triangles, t1, k1), tri_edge(triangles, t2, k2)]
        0 <= t1 < triangles.len() && 0 <= k1 < 3 && 0 <= t2 < triangles.len() && 0 <= k2 < 3
            && (t1 != t2 || k1 != k2) ==> tri_edge(triangles, t1, k1) != tri_edge(
            triangles,
            t2,
            k2,
        )
}

/// The consistency-guaranteeing aggregate of the three element stores.
pub struct Mesh<G> where G: Geometry {
    vertices: Storage<Vertex<G::Vertex>>,
    edges: EdgeStorage<Edge<G::Edge>>,
    faces: Storage<Face<G::Face>>,
}

impl<G> Mesh<G> where G: Geometry {
    /// The vertex records, as a map from key to record.
    pub closed spec fn vs(self) -> Map<VertexKey, Vertex<G::Vertex>> {
        self.vertices@
    }

    /// The half-edge records, as a map from key to record.
    pub closed spec fn es(self) -> Map<EdgeKey, Edge<G::Edge>> {
        self.edges@
    }

    /// The face records, as a map from key to record.
    pub closed spec fn fs(self) -> Map<FaceKey, Face<G::Face>> {
        self.faces@
    }

    pub closed spec fn stores_wf(self) -> bool {
        &&& self.vertices.inv()
        &&& self.edges.inv()
        &&& self.faces.inv()
    }

    /// The key the vertex generator hands out next.
    pub closed spec fn vertex_key_cursor(self) -> u64 {
        self.vertices.key_cursor()
    }

    /// The key the face generator hands out next.
    pub closed spec fn face_key_cursor(self) -> u64 {
        self.faces.key_cursor()
    }

    /// The connectivity invariant. Every mesh reachable through the public
    /// API satisfies it.
    pub open spec fn wf(self) -> bool {
        &&& self.stores_wf()
        &&& edges_wf(self.vs(), self.es())
        &&& vertices_wf(self.vs(), self.es())
        &&& faces_wf(self.es(), self.fs())
        &&& edge_face_links_wf(self.es(), self.fs())
    }

    /// The vertex generator can still produce a fresh key.
    pub open spec fn can_generate_vertex_key(self) -> bool {
        self.vertex_key_cursor() < u64::MAX
    }

    /// The face generator can still produce a fresh key.
    pub open spec fn can_generate_face_key(self) -> bool {
        self.face_key_cursor() < u64::MAX
    }

    /// Whether `insert_vertex` may be called: the vertex generator can
    /// still hand out a fresh key.
    pub fn can_insert_vertex(&self) -> (r: bool)
        ensures
            r == self.can_generate_vertex_key(),
    {
        self.vertices.has_key_capacity()
    }

    /// Whether `insert_face` may be called: the face generator can still
    /// hand out a fresh key.
    pub fn can_insert_face(&self) -> (r: bool)
        ensures
            r == self.can_generate_face_key(),
    {
        self.faces.has_key_capacity()
    }

    /// The element maps are finite, so the counting accessors are defined.
    pub proof fn lemma_finite(self)
        requires
            self.wf(),
        ensures
            self.vs().dom().finite(),
            self.es().dom().finite(),
            self.fs().dom().finite(),
    {
        self.vertices.lemma_finite();
        self.edges.lemma_finite();
        self.faces.lemma_finite();
    }

    /// An empty mesh.
    pub fn new() -> (r: Self)
        ensures
            r.wf(),
            r.vs() == Map::<VertexKey, Vertex<G::Vertex>>::empty(),
            r.es() == Map::<EdgeKey, Edge<G::Edge>>::empty(),
            r.fs() == Map::<FaceKey, Face<G::Face>>::empty(),
            r.vertex_key_cursor() == 0,
            r.face_key_cursor() == 0,
    {
        Mesh { vertices: Storage::new(), edges: EdgeStorage::new(), faces: Storage::new() }
    }

    pub fn vertex_count(&self) -> (r: usize)
        requires
            self.wf(),
        ensures
            r == self.vs().dom().len(),
    {
        self.vertices.len()
    }

    pub fn edge_count(&self) -> (r: usize)
        requires
            self.wf(),
        ensures
            r == self.es().dom().len(),
    {
        self.edges.len()
    }

    pub fn face_count(&self) -> (r: usize)
        requires
            self.wf(),
        ensures
            r == self.fs().dom().len(),
    {
        self.faces.len()
    }

    /// Reads the vertex record stored under `key`.
    pub fn vertex(&self, key: VertexKey) -> (r: Option<&Vertex<G::Vertex>>)
        requires
            self.wf(),
        ensures
            match r {
                Some(v) => self.vs().dom().contains(key) && *v == self.vs()[key],
                None => !self.vs().dom().contains(key),
            },
    {
        self.vertices.get(key)
    }

    /// Reads the half-edge record stored under `key`.
    pub fn edge(&self, key: EdgeKey) -> (r: Option<&Edge<G::Edge>>)
        requires
            self.wf(),
        ensures
            match r {
                Some(e) => self.es().dom().contains(key) && *e == self.es()[key],
                None => !self.es().dom().contains(key),
            },
    {
        self.edges.get(key)
    }

    /// Inserts an isolated vertex carrying `geometry` under a fresh key.
    /// This is the one mutation that cannot fail.
    pub fn insert_vertex(&mut self, geometry: G::Vertex) -> (r: VertexKey)
        requires
            old(self).wf(),
            old(self).can_generate_vertex_key(),
        ensures
            final(self).wf(),
            r == old(self).vertex_key_cursor(),
            !old(self).vs().dom().contains(r),
            final(self).vs() == old(self).vs().insert(
                r,
                (Vertex { geometry, edge: None::<EdgeKey> }),
            ),
            final(self).es() == old(self).es(),
            final(self).fs() == old(self).fs(),
            final(self).vertex_key_cursor() == old(self).vertex_key_cursor() + 1,
            final(self).face_key_cursor() == old(self).face_key_cursor(),
    {
        let key = self.vertices.insert_with_generator(Vertex::new(geometry));
        proof {
            let vs1 = self.vs();
            let es1 = self.es();
            assert forall|k: EdgeKey| #[trigger] es1.dom().contains(k) implies edge_record_wf(
                vs1,
                es1,
                k,
            ) by {
                assert(edge_record_wf(old(self).vs(), es1, k));
            }
        }
        key
    }

    /// The edge `(a, b)` can be created: the endpoints are distinct live
    /// vertices and the directed edge does not exist yet.
    pub open spec fn edge_insertable(self, a: VertexKey, b: VertexKey) -> bool {
        &&& a != b
        &&& self.vs().dom().contains(a)
        &&& self.vs().dom().contains(b)
        &&& !self.es().dom().contains(EdgeKey { source: a, destination: b })
    }

    /// Inserts the directed edge from `span.0` to `span.1`, linking it to
    /// the antiparallel edge if that is already present, and reseeds the
    /// source vertex's cached outgoing edge. Fails, changing nothing, when
    /// an endpoint is unknown, the endpoints coincide, or the edge already
    /// exists.
    pub fn insert_edge(&mut self, span: (VertexKey, VertexKey), geometry: G::Edge) -> (r: Result<
        EdgeKey,
        GraphError,
    >)
        requires
            old(self).wf(),
        ensures
            final(self).wf(),
            r == (if span.0 == span.1 {
                Err::<EdgeKey, GraphError>(GraphError::TopologyMalformed)
            } else if !old(self).vs().dom().contains(span.0) || !old(self).vs().dom().contains(
                span.1,
            ) {
                Err::<EdgeKey, GraphError>(GraphError::TopologyNotFound)
            } else if old(self).es().dom().contains(
                EdgeKey { source: span.0, destination: span.1 },
            ) {
                Err::<EdgeKey, GraphError>(GraphError::TopologyConflict)
            } else {
                Ok::<EdgeKey, GraphError>(EdgeKey { source: span.0, destination: span.1 })
            }),
            r is Ok ==> final(self).es() == es_with_edge(
                old(self).es(),
                span.0,
                span.1,
                geometry,
            ),
            r is Ok ==> final(self).vs() == old(self).vs().insert(
                span.0,
                (Vertex {
                    geometry: old(self).vs()[span.0].geometry,
                    edge: Some(EdgeKey { source: span.0, destination: span.1 }),
                }),
            ),
            r is Err ==> *final(self) == *old(self),
            final(self).fs() == old(self).fs(),
            final(self).vertex_key_cursor() == old(self).vertex_key_cursor(),
            final(self).face_key_cursor() == old(self).face_key_cursor(),
    {
        let (a, b) = span;
        if a == b {
            return Err(GraphError::TopologyMalformed);
        }
        if !self.vertices.contains_key(a) || !self.vertices.contains_key(b) {
            return Err(GraphError::TopologyNotFound);
        }
        let ab = EdgeKey::new(a, b);
        if self.edges.contains_key(ab) {
            return Err(GraphError::TopologyConflict);
        }
        let ba = ab.reversed();
        let mut edge = Edge::new(b, geometry);
        if self.edges.contains_key(ba) {
            edge.opposite = Some(ba);
            let opposite = self.edges.value_mut(ba);
            opposite.opposite = Some(ab);
        }
        self.edges.insert_with_key(ab, edge);
        let vertex = self.vertices.value_mut(a);
        vertex.edge = Some(ab);
        proof {
            let vs0 = old(self).vs();
            let es0 = old(self).es();
            let fs0 = old(self).fs();
            let vs1 = self.vs();
            let es1 = self.es();
            assert(es1 == es_with_edge(es0, a, b, geometry));
            assert forall|k: EdgeKey| #[trigger] es1.dom().contains(k) implies edge_record_wf(
                vs1,
                es1,
                k,
            ) by {
                if k == ab {
                    assert(es1[ab].opposite == (if es1.dom().contains(ba) {
                        Some(ba)
                    } else {
                        None::<EdgeKey>
                    }));
                } else {
                    assert(edge_record_wf(vs0, es0, k));
                    if k == ba {
                        assert(es1[k].opposite == Some(ab));
                        assert(es1.dom().contains(k.spec_reversed()));
                    } else {
                        assert(k.spec_reversed() != ab);
                        assert(es1.dom().contains(k.spec_reversed()) == es0.dom().contains(
                            k.spec_reversed(),
                        ));
                    }
                }
            }
            assert forall|v: VertexKey| #[trigger] vs1.dom().contains(v) implies match vs1[v].edge {
                Some(e) => e.source == v && es1.dom().contains(e),
                None => true,
            } by {
                if v != a {
                    assert(vs1[v] == vs0[v]);
                }
            }
            assert forall|fk: FaceKey| #[trigger] fs0.dom().contains(fk) implies face_cycle_wf(
                es1,
                fk,
                fs0[fk],
            ) by {
                assert(face_cycle_wf(es0, fk, fs0[fk]));
                assert forall|e: EdgeKey| fs0[fk].boundary@.contains(e) implies #[trigger] es1.dom().contains(e)
                    && es1[e].face == es0[e].face && es1[e].next == es0[e].next by {
                    let b_ = fs0[fk].boundary@;
                    let i = choose|i: int| 0 <= i < b_.len() && b_[i] == e;
                    assert(es0.dom().contains(e));
                    assert(e != ab);
                }
                lemma_face_cycle_same_links(es0, es1, fk, fs0[fk]);
            }
            assert forall|k: EdgeKey| #[trigger] es1.dom().contains(k) implies match es1[k].face {
                Some(fk) => fs0.dom().contains(fk) && fs0[fk].boundary@.contains(k),
                None => es1[k].next is None,
            } by {
                if k != ab {
                    assert(es0.dom().contains(k));
                    assert(es1[k].face == es0[k].face && es1[k].next == es0[k].next);
                }
            }
        }
        Ok(ab)
    }

    /// The boundary `b` can close a new face: at least three distinct live
    /// edges, chained head to tail by vertex adjacency, none of them bound
    /// to a face yet.
    pub open spec fn face_insertable(self, b: Seq<EdgeKey>) -> bool {
        &&& b.len() >= 3
        &&& edges_present(self.es(), b)
        &&& pairwise_distinct(b)
        &&& cycle_adjacent(b)
        &&& edges_unbound(self.es(), b)
    }

    /// The failure `insert_face` reports for the boundary `b`, or `None`
    /// when the face can be created. Violations are reported in this
    /// order: arity first, then an unknown edge, then a boundary that is
    /// no simple closed cycle, then an edge already bound to a face.
    pub open spec fn face_insert_outcome(self, b: Seq<EdgeKey>) -> Option<GraphError> {
        if b.len() < 3 {
            Some(GraphError::ArityNonPolygonal)
        } else if !edges_present(self.es(), b) {
            Some(GraphError::TopologyNotFound)
        } else if !pairwise_distinct(b) || !cycle_adjacent(b) {
            Some(GraphError::TopologyMalformed)
        } else if !edges_unbound(self.es(), b) {
            Some(GraphError::TopologyConflict)
        } else {
            None
        }
    }

    /// Checks the boundary `edges` against [`Mesh::face_insertable`],
    /// reporting the first violation in the documented order.
    #[verifier::rlimit(100)]
    fn validate_face_boundary(&self, edges: &Vec<EdgeKey>) -> (r: Option<GraphError>)
        requires
            self.wf(),
        ensures
            r == self.face_insert_outcome(edges@),
            r is None <==> self.face_insertable(edges@),
    {
        let n: usize = edges.len();
        if n < 3 {
            return Some(GraphError::ArityNonPolygonal);
        }
        let mut i: usize = 0;
        while i < n
            invariant
                self.wf(),
                n == edges@.len(),
                3 <= n,
                0 <= i <= n,
                forall|j: int| 0 <= j < i ==> self.es().dom().contains(#[trigger] edges@[j]),
            decreases n - i,
        {
            if !self.edges.contains_key(edges[i]) {
                proof {
                    assert(!edges_present(self.es(), edges@));
                }
                return Some(GraphError::TopologyNotFound);
            }
            i = i + 1;
        }
        let mut i: usize = 1;
        while i < n
            invariant
                self.wf(),
                n == edges@.len(),
                3 <= n,
                1 <= i <= n,
                edges_present(self.es(), edges@),
                forall|p: int, q: int| 0 <= p < q < i ==> edges@[p] != edges@[q],
            decreases n - i,
        {
            let mut j: usize = 0;
            while j < i
                invariant
                    self.wf(),
                    n == edges@.len(),
                    3 <= n,
                    0 <= j <= i < n,
                    edges_present(self.es(), edges@),
                    forall|p: int, q: int| 0 <= p < q < i ==> edges@[p] != edges@[q],
                    forall|p: int| 0 <= p < j ==> edges@[p] != edges@[i as int],
                decreases i - j,
            {
                if edges[j] == edges[i] {
                    proof {
                        assert(!pairwise_distinct(edges@));
                    }
                    return Some(GraphError::TopologyMalformed);
                }
                j = j + 1;
            }
            i = i + 1;
        }
        let mut i: usize = 0;
        while i < n
            invariant
                self.wf(),
                n == edges@.len(),
                3 <= n,
                0 <= i <= n,
                edges_present(self.es(), edges@),
                pairwise_distinct(edges@),
                forall|j: int|
                    0 <= j < i ==> (#[trigger] edges@[j]).destination == edges@[(j + 1) % (
                    n as int)].source,
            decreases n - i,
        {
            let successor: usize = if i + 1 == n {
                0
            } else {
                i + 1
            };
            proof {
                assert(successor as int == (i + 1) % (n as int)) by {
                    if i + 1 < n {
                        vstd::arithmetic::div_mod::lemma_small_mod((i + 1) as nat, n as nat);
                    } else {
                        vstd::arithmetic::div_mod::lemma_mod_self_0(n as int);
                    }
                }
            }
            if edges[i].destination != edges[successor].source {
                proof {
                    assert(!cycle_adjacent(edges@));
                }
                return Some(GraphError::TopologyMalformed);
            }
            i = i + 1;
        }
        let mut i: usize = 0;
        while i < n
            invariant
                self.stores_wf(),
                n == edges@.len(),
                3 <= n,
                0 <= i <= n,
                edges_present(self.es(), edges@),
                pairwise_distinct(edges@),
                cycle_adjacent(edges@),
                forall|j: int| 0 <= j < i ==> (#[trigger] self.es()[edges@[j]]).face is None,
            decreases n - i,
        {
            match self.edges.get(edges[i]) {
                Some(e) => {
                    if e.face.is_some() {
                        proof {
                            assert(!edges_unbound(self.es(), edges@));
                        }
                        return Some(GraphError::TopologyConflict);
                    }
                },
                None => {
                    proof {
                        assert(false);
                    }
                },
            }
            i = i + 1;
        }
        None
    }

    /// Allocates the face record and binds the boundary cycle; the caller
    /// has already validated the boundary.
    fn bind_face_cycle(&mut self, edges: &Vec<EdgeKey>, geometry: G::Face) -> (face: FaceKey)
        requires
            old(self).wf(),
            old(self).can_generate_face_key(),
            old(self).face_insertable(edges@),
        ensures
            final(self).wf(),
            face == old(self).face_key_cursor(),
            !old(self).fs().dom().contains(face),
            final(self).fs() == old(self).fs().insert(face, final(self).fs()[face]),
            final(self).fs()[face].geometry == geometry,
            final(self).fs()[face].edge == edges@[0],
            final(self).fs()[face].boundary@ == edges@,
            final(self).es() == es_with_cycle(old(self).es(), edges@, face),
            final(self).face_key_cursor() == old(self).face_key_cursor() + 1,
            final(self).vs() == old(self).vs(),
            final(self).vertex_key_cursor() == old(self).vertex_key_cursor(),
    {
        let face = self.faces.insert_with_generator(
            Face { geometry, edge: edges[0], boundary: Ghost(edges@) },
        );
        link_boundary(&mut self.edges, edges, face);
        proof {
            lemma_cycle_bind_wf(*old(self), *self, edges@, face);
        }
        face
    }

    /// Creates a face over the closed cycle `edges`, binding each boundary
    /// edge's `next` and `face` links. Fails, changing nothing, when fewer
    /// than three edges are given, an edge is unknown, the edges do not
    /// form a simple closed cycle, or an edge already bounds a face:
    /// rebinding an edge would silently desynchronize the other face, so
    /// it is rejected outright.
    pub fn insert_face(&mut self, edges: &Vec<EdgeKey>, geometry: G::Face) -> (r: Result<
        FaceKey,
        GraphError,
    >)
        requires
            old(self).wf(),
            old(self).can_generate_face_key(),
        ensures
            final(self).wf(),
            r == (match old(self).face_insert_outcome(edges@) {
                Some(e) => Err::<FaceKey, GraphError>(e),
                None => Ok::<FaceKey, GraphError>(old(self).face_key_cursor()),
            }),
            r is Ok <==> old(self).face_insertable(edges@),
            r is Ok ==> {
                &&& !old(self).fs().dom().contains(old(self).face_key_cursor())
                &&& final(self).fs() == old(self).fs().insert(
                    old(self).face_key_cursor(),
                    final(self).fs()[old(self).face_key_cursor()],
                )
                &&& final(self).fs()[old(self).face_key_cursor()].geometry == geometry
                &&& final(self).fs()[old(self).face_key_cursor()].edge == edges@[0]
                &&& final(self).fs()[old(self).face_key_cursor()].boundary@ == edges@
                &&& final(self).es() == es_with_cycle(
                    old(self).es(),
                    edges@,
                    old(self).face_key_cursor(),
                )
                &&& final(self).face_key_cursor() == old(self).face_key_cursor() + 1
            },
            r is Err ==> *final(self) == *old(self),
            final(self).vs() == old(self).vs(),
            final(self).vertex_key_cursor() == old(self).vertex_key_cursor(),
    {
        match self.validate_face_boundary(edges) {
            Some(e) => Err(e),
            None => Ok(self.bind_face_cycle(edges, geometry)),
        }
    }


    /// The boundary cycle of `face`, collected by walking `next` from the
    /// face's stored edge until that edge recurs.
    pub fn face_edges(&self, face: FaceKey) -> (r: Vec<EdgeKey>)
        requires
            self.wf(),
            self.fs().dom().contains(face),
        ensures
            r@ == self.fs()[face].boundary@,
    {
        let start: EdgeKey = match self.faces.get(face) {
            Some(f) => f.edge,
            None => {
                proof {
                    assert(false);
                }
                unreached()
            },
        };
        let ghost b = self.fs()[face].boundary@;
        let ghost n = b.len() as int;
        proof {
            assert(face_cycle_wf(self.es(), face, self.fs()[face]));
        }
        let mut keys: Vec<EdgeKey> = Vec::new();
        keys.push(start);
        let mut cur: EdgeKey = self.next_in_cycle(face, start, Ghost(0));
        while cur != start
            invariant
                self.wf(),
                self.fs().dom().contains(face),
                b == self.fs()[face].boundary@,
                n == b.len() as int,
                3 <= n,
                1 <= keys@.len() <= n,
                keys@ == b.take(keys@.len() as int),
                cur == b[(keys@.len() as int) % n],
                start == b[0],
            decreases n - keys@.len(),
        {
            proof {
                let m = keys@.len() as int;
                if m == n {
                    vstd::arithmetic::div_mod::lemma_mod_self_0(n);
                    assert(cur == b[0]);
                    assert(false);
                }
                assert(m % n == m) by {
                    vstd::arithmetic::div_mod::lemma_small_mod(m as nat, n as nat);
                }
                assert(keys@.push(cur) =~= b.take(m + 1));
            }
            keys.push(cur);
            cur = self.next_in_cycle(face, cur, Ghost(keys@.len() as int - 1));
        }
        proof {
            let m = keys@.len() as int;
            if m < n {
                assert(cur == b[m % n]);
                assert(m % n == m) by {
                    vstd::arithmetic::div_mod::lemma_small_mod(m as nat, n as nat);
                }
                assert(b[m] == b[0]);
                assert(false);
            }
            assert(keys@ =~= b);
        }
        keys
    }

    /// The boundary edge after `cur` in the cycle of `face`; `cur` sits at
    /// the ghost position `i` of the boundary.
    fn next_in_cycle(&self, face: FaceKey, cur: EdgeKey, Ghost(i): Ghost<int>) -> (r: EdgeKey)
        requires
            self.wf(),
            self.fs().dom().contains(face),
            0 <= i < self.fs()[face].boundary@.len(),
            cur == self.fs()[face].boundary@[i],
        ensures
            r == self.fs()[face].boundary@[(i + 1) % (self.fs()[face].boundary@.len() as int)],
    {
        proof {
            assert(face_cycle_wf(self.es(), face, self.fs()[face]));
        }
        match self.edges.get(cur) {
            Some(e) => match e.next {
                Some(k) => k,
                None => {
                    proof {
                        assert(false);
                    }
                    unreached()
                },
            },
            None => {
                proof {
                    assert(false);
                }
                unreached()
            },
        }
    }

    /// Removes `face` and deletes exactly its boundary edges, unlinking
    /// their antiparallel edges and clearing any vertex cache that pointed
    /// at them. Vertices are never deleted, even when the removal leaves
    /// them isolated: callers that rebuild in place rely on reusing them.
    /// Fails, changing nothing, when `face` is unknown.
    #[verifier::rlimit(100)]
    pub fn remove_face(&mut self, face: FaceKey) -> (r: Result<(), GraphError>)
        requires
            old(self).wf(),
        ensures
            final(self).wf(),
            r == (if old(self).fs().dom().contains(face) {
                Ok::<(), GraphError>(())
            } else {
                Err::<(), GraphError>(GraphError::TopologyNotFound)
            }),
            r is Err ==> *final(self) == *old(self),
            r is Ok ==> {
                &&& final(self).fs() == old(self).fs().remove(face)
                &&& final(self).es() == es_after_face_removal(
                    old(self).es(),
                    old(self).fs()[face].boundary@,
                )
                &&& final(self).vs() == vs_after_face_removal(
                    old(self).vs(),
                    old(self).fs()[face].boundary@,
                )
                &&& final(self).es().dom().len() == old(self).es().dom().len() - old(
                    self,
                ).fs()[face].boundary@.len()
                &&& final(self).fs().dom().len() == old(self).fs().dom().len() - 1
                &&& final(self).vs().dom().len() == old(self).vs().dom().len()
            },
            final(self).vertex_key_cursor() == old(self).vertex_key_cursor(),
            final(self).face_key_cursor() == old(self).face_key_cursor(),
    {
        if !self.faces.contains_key(face) {
            return Err(GraphError::TopologyNotFound);
        }
        let keys = self.face_edges(face);
        let ghost b = self.fs()[face].boundary@;
        let ghost vs0 = self.vs();
        let ghost es0 = self.es();
        let ghost fs0 = self.fs();
        proof {
            assert(face_cycle_wf(es0, face, fs0[face]));
        }
        detach_boundary(&mut self.vertices, &mut self.edges, &keys);
        self.faces.remove(face);
        proof {
            let vs1 = self.vs();
            let es1 = self.es();
            let fs1 = self.fs();
            assert(es1 == es_after_face_removal(es0, b));
            assert(vs1 == vs_after_face_removal(vs0, b));
            lemma_removal_wf(*old(self), *self, b, face);
            assert(b.no_duplicates()) by {
                assert forall|p: int, q: int|
                    0 <= p < b.len() && 0 <= q < b.len() && p != q implies b[p] != b[q] by {
                    if p < q {
                        assert(b[p] != b[q]);
                    } else {
                        assert(b[q] != b[p]);
                    }
                }
            }
            b.unique_seq_to_set();
            vstd::seq_lib::seq_to_set_is_finite::<EdgeKey>(b);
            assert(b.to_set().subset_of(es0.dom())) by {
                assert forall|k: EdgeKey| b.to_set().contains(k) implies es0.dom().contains(
                    k,
                ) by {
                    assert(b.contains(k));
                    let j = choose|j: int| 0 <= j < b.len() && b[j] == k;
                    assert(es0.dom().contains(b[j]));
                }
            }
            old(self).edges.lemma_finite();
            lemma_subset_difference_len(es0.dom(), b.to_set());
            assert(es1.dom() =~= es0.dom().difference(b.to_set()));
            old(self).vertices.lemma_finite();
            old(self).faces.lemma_finite();
            assert(vs1.dom() =~= vs0.dom());
        }
        Ok(())
    }

    /// O(1) existence check, then a read-only borrowing view of the face.
    pub fn face(&self, key: FaceKey) -> (r: Option<FaceRef<'_, G>>)
        requires
            self.wf(),
        ensures
            match r {
                Some(v) => {
                    &&& self.fs().dom().contains(key)
                    &&& v.wf()
                    &&& v.spec_mesh() == *self
                    &&& v.spec_key() == key
                },
                None => !self.fs().dom().contains(key),
            },
    {
        if self.faces.contains_key(key) {
            Some(FaceRef { mesh: self, key })
        } else {
            None
        }
    }

    /// O(1) existence check, then mutable access to the face's attribute
    /// payload — the one part of a face that can be rewritten freely
    /// without endangering connectivity.
    pub fn face_mut(&mut self, key: FaceKey) -> (r: Option<&mut G::Face>)
        requires
            old(self).wf(),
        ensures
            final(self).wf(),
            final(self).vs() == old(self).vs(),
            final(self).es() == old(self).es(),
            final(self).vertex_key_cursor() == old(self).vertex_key_cursor(),
            final(self).face_key_cursor() == old(self).face_key_cursor(),
            match r {
                Some(g) => {
                    &&& old(self).fs().dom().contains(key)
                    &&& *g == old(self).fs()[key].geometry
                    &&& final(self).fs().dom() == old(self).fs().dom()
                    &&& final(self).fs()[key].geometry == *final(g)
                    &&& final(self).fs()[key].edge == old(self).fs()[key].edge
                    &&& final(self).fs()[key].boundary == old(self).fs()[key].boundary
                    &&& forall|k2: FaceKey|
                        k2 != key && #[trigger] old(self).fs().dom().contains(k2)
                            ==> final(self).fs()[k2] == old(self).fs()[k2]
                },
                None => !old(self).fs().dom().contains(key) && *final(self) == *old(self),
            },
    {
        if !self.faces.contains_key(key) {
            return None;
        }
        proof {
            let es0 = old(self).es();
            let fs0 = old(self).fs();
            assert forall|rec: Face<G::Face>|
                rec.edge == fs0[key].edge && rec.boundary == fs0[key].boundary implies faces_wf(
                es0,
                #[trigger] fs0.insert(key, rec),
            ) && edge_face_links_wf(es0, fs0.insert(key, rec)) by {
                let fs1 = fs0.insert(key, rec);
                assert(fs1.dom() =~= fs0.dom());
                assert forall|fk: FaceKey| #[trigger] fs1.dom().contains(fk) implies face_cycle_wf(
                    es0,
                    fk,
                    fs1[fk],
                ) by {
                    assert(face_cycle_wf(es0, fk, fs0[fk]));
                    assert(fs1[fk].boundary == fs0[fk].boundary && fs1[fk].edge
                        == fs0[fk].edge);
                }
                assert forall|k: EdgeKey| #[trigger] es0.dom().contains(k) implies match es0[k].face {
                    Some(fk) => fs1.dom().contains(fk) && fs1[fk].boundary@.contains(k),
                    None => es0[k].next is None,
                } by {
                    assert(edge_face_links_wf(es0, fs0));
                    match es0[k].face {
                        Some(fk) => {
                            assert(fs1[fk].boundary == fs0[fk].boundary);
                        },
                        None => {},
                    }
                }
            }
        }
        let record = self.faces.value_mut(key);
        Some(&mut record.geometry)
    }

    /// Converts a mesh element-wise from another geometry capability:
    /// attribute payloads pass through [`FromGeometry`], and every key and
    /// connectivity field is copied unchanged.
    pub fn from_geometry<H>(mesh: Mesh<H>) -> (r: Self) where
        H: Geometry,
        G::Vertex: FromGeometry<H::Vertex>,
        G::Edge: FromGeometry<H::Edge>,
        G::Face: FromGeometry<H::Face>,

        requires
            mesh.wf(),
        ensures
            r.wf(),
            connectivity_eq(r, mesh),
            r.vertex_key_cursor() == mesh.vertex_key_cursor(),
            r.face_key_cursor() == mesh.face_key_cursor(),
    {
        let ghost m0 = mesh;
        let Mesh { vertices, edges, faces } = mesh;
        let vertices = vertices.map_values(convert_vertex::<H::Vertex, G::Vertex>);
        let edges = edges.map_values(convert_edge::<H::Edge, G::Edge>);
        let faces = faces.map_values(convert_face::<H::Face, G::Face>);
        let r = Mesh { vertices, edges, faces };
        proof {
            assert(connectivity_eq(r, m0));
            lemma_connectivity_wf(r, m0);
        }
        r
    }

    /// Inserts the three directed edges of one triangle, then the face
    /// over them. The corner keys must be live vertices. On failure the
    /// edges inserted before the violation was found remain; the bulk
    /// constructor discards the whole mesh in that case.
    #[verifier::rlimit(100)]
    fn push_triangle(&mut self, a: VertexKey, b: VertexKey, c: VertexKey) -> (r: Result<
        (),
        GraphError,
    >)
        requires
            old(self).wf(),
            old(self).vs().dom().contains(a),
            old(self).vs().dom().contains(b),
            old(self).vs().dom().contains(c),
            old(self).can_generate_face_key(),
        ensures
            final(self).wf(),
            final(self).vs().dom() == old(self).vs().dom(),
            final(self).vertex_key_cursor() == old(self).vertex_key_cursor(),
            r == (if a == b {
                Err::<(), GraphError>(GraphError::TopologyMalformed)
            } else if old(self).es().dom().contains(EdgeKey { source: a, destination: b }) {
                Err::<(), GraphError>(GraphError::TopologyConflict)
            } else if b == c {
                Err::<(), GraphError>(GraphError::TopologyMalformed)
            } else if old(self).es().dom().contains(EdgeKey { source: b, destination: c }) {
                Err::<(), GraphError>(GraphError::TopologyConflict)
            } else if c == a {
                Err::<(), GraphError>(GraphError::TopologyMalformed)
            } else if old(self).es().dom().contains(EdgeKey { source: c, destination: a }) {
                Err::<(), GraphError>(GraphError::TopologyConflict)
            } else {
                Ok::<(), GraphError>(())
            }),
            r is Ok ==> {
                &&& final(self).es().dom().len() == old(self).es().dom().len() + 3
                &&& final(self).fs().dom().len() == old(self).fs().dom().len() + 1
                &&& final(self).face_key_cursor() == old(self).face_key_cursor() + 1
                &&& forall|k: EdgeKey| #[trigger]
                    final(self).es().dom().contains(k) <==> old(self).es().dom().contains(k)
                        || k == (EdgeKey { source: a, destination: b }) || k == (EdgeKey {
                        source: b,
                        destination: c,
                    }) || k == (EdgeKey { source: c, destination: a })
            },
    {
        let ghost e0 = (EdgeKey { source: a, destination: b });
        let ghost e1 = (EdgeKey { source: b, destination: c });
        let ghost e2 = (EdgeKey { source: c, destination: a });
        proof {
            old(self).lemma_finite();
        }
        let ab = match self.insert_edge((a, b), G::default_edge_attribute()) {
            Ok(k) => k,
            Err(e) => {
                return Err(e);
            },
        };
        let ghost m1 = *self;
        proof {
            assert(m1.es().dom() =~= old(self).es().dom().insert(e0));
        }
        let bc = match self.insert_edge((b, c), G::default_edge_attribute()) {
            Ok(k) => k,
            Err(e) => {
                proof {
                    assert(e1 != e0);
                }
                return Err(e);
            },
        };
        let ghost m2 = *self;
        proof {
            assert(m2.es().dom() =~= m1.es().dom().insert(e1));
            assert(e1 != e0);
        }
        let ca = match self.insert_edge((c, a), G::default_edge_attribute()) {
            Ok(k) => k,
            Err(e) => {
                proof {
                    assert(e2 != e0 && e2 != e1);
                }
                return Err(e);
            },
        };
        let ghost m3 = *self;
        let boundary = vec![ab, bc, ca];
        proof {
            assert(m3.es().dom() =~= m2.es().dom().insert(e2));
            assert(e2 != e0 && e2 != e1 && e1 != e0);
            assert(m2.es()[e0].face is None && m2.es()[e0].vertex == b) by {
                assert(m1.es()[e0].face is None && m1.es()[e0].vertex == b);
                assert(e0 != e1 && e0 != e1.spec_reversed() ==> m2.es()[e0].face
                    == m1.es()[e0].face && m2.es()[e0].vertex == m1.es()[e0].vertex);
                if e0 == e1.spec_reversed() {
                    assert(m2.es()[e0].face == m1.es()[e0].face && m2.es()[e0].vertex
                        == m1.es()[e0].vertex);
                }
            }
            assert(m3.es()[e0].face is None && m3.es()[e0].vertex == b) by {
                if e0 == e2.spec_reversed() {
                    assert(m3.es()[e0].face == m2.es()[e0].face && m3.es()[e0].vertex
                        == m2.es()[e0].vertex);
                }
            }
            assert(m3.es()[e1].face is None && m3.es()[e1].vertex == c) by {
                assert(m2.es()[e1].face is None && m2.es()[e1].vertex == c);
                if e1 == e2.spec_reversed() {
                    assert(m3.es()[e1].face == m2.es()[e1].face && m3.es()[e1].vertex
                        == m2.es()[e1].vertex);
                }
            }
            assert(m3.es()[e2].face is None && m3.es()[e2].vertex == a);
            assert(boundary@.len() == 3);
            assert(boundary@[0] == e0 && boundary@[1] == e1 && boundary@[2] == e2);
            assert(pairwise_distinct(boundary@));
            assert(cycle_adjacent(boundary@)) by {
                assert forall|j: int| 0 <= j < 3 implies (#[trigger] boundary@[j]).destination
                    == boundary@[(j + 1) % 3].source by {
                    assert((0int + 1) % 3 == 1 && (1int + 1) % 3 == 2 && (2int + 1) % 3 == 0);
                }
            }
            assert(edges_present(m3.es(), boundary@)) by {
                assert(m3.es().dom().contains(boundary@[0]));
                assert(m3.es().dom().contains(boundary@[1]));
                assert(m3.es().dom().contains(boundary@[2]));
                assert(forall|j: int| 0 <= j < 3 ==> m3.es().dom().contains(
                    #[trigger] boundary@[j],
                ));
            }
            assert(edges_unbound(m3.es(), boundary@)) by {
                assert(forall|j: int|
                    0 <= j < 3 ==> (#[trigger] m3.es()[boundary@[j]]).face is None);
            }
            assert(m3.face_insertable(boundary@));
        }
        match self.insert_face(&boundary, G::default_face_attribute()) {
            Ok(_) => {},
            Err(e) => {
                proof {
                    assert(false);
                }
                return Err(e);
            },
        }
        proof {
            assert(m1.es().dom().len() == old(self).es().dom().len() + 1);
            assert(m2.es().dom().len() == old(self).es().dom().len() + 2);
            assert(m3.es().dom().len() == old(self).es().dom().len() + 3);
            assert(self.es().dom() =~= m3.es().dom());
            assert(m3.fs() == old(self).fs());
            assert forall|k: EdgeKey| #[trigger]
                self.es().dom().contains(k) <==> old(self).es().dom().contains(k) || k == e0
                    || k == e1 || k == e2 by {}
        }
        Ok(())
    }

    /// Builds a mesh from indexed triangles: `vertices` holds the unique
    /// vertex payloads in first-seen order (an external indexer's output),
    /// and each entry of `triangles` holds one triangle's corner indices.
    /// Every payload becomes one vertex and every triangle contributes its
    /// three directed edges and one face, so a successful build holds
    /// exactly `vertices.len()` vertices, three edges per triangle, and
    /// one face per triangle. Fails, in stream order, when the buffers
    /// are not admissible: an out-of-range corner index is reported as
    /// `TopologyNotFound`, a repeated corner within a triangle as
    /// `TopologyMalformed`, and a repeated directed corner pair as
    /// `TopologyConflict`.
    #[verifier::rlimit(100)]
    pub fn from_indexed_triangles(vertices: Vec<G::Vertex>, triangles: &Vec<[usize; 3]>) -> (r:
        Result<Mesh<G>, GraphError>)
        ensures
            r is Ok <==> triangles_admissible(vertices@.len(), triangles@),
            r is Ok ==> {
                &&& r->Ok_0.wf()
                &&& r->Ok_0.vs().dom().len() == vertices@.len()
                &&& r->Ok_0.es().dom().len() == 3 * triangles@.len()
                &&& r->Ok_0.fs().dom().len() == triangles@.len()
            },
            r == Err::<Mesh<G>, GraphError>(GraphError::TopologyNotFound) <==> !(forall|
                t: int,
                k: int,
            |
                0 <= t < triangles@.len() && 0 <= k < 3 ==> #[trigger] tri_corner(
                    triangles@,
                    t,
                    k,
                ) < vertices@.len()),
            r is Err ==> r->Err_0 == GraphError::TopologyNotFound || r->Err_0
                == GraphError::TopologyMalformed || r->Err_0 == GraphError::TopologyConflict,
    {
        let nv: usize = vertices.len();
        let tn: usize = triangles.len();
        let mut t: usize = 0;
        while t < tn
            invariant
                tn == triangles@.len(),
                nv == vertices@.len(),
                0 <= t <= tn,
                forall|q: int, k: int|
                    0 <= q < t && 0 <= k < 3 ==> #[trigger] tri_corner(triangles@, q, k) < nv,
            decreases tn - t,
        {
            let corners: [usize; 3] = triangles[t];
            proof {
                assert(corners@ == triangles@[t as int]@);
            }
            if corners[0] >= nv || corners[1] >= nv || corners[2] >= nv {
                proof {
                    if corners[0] >= nv {
                        assert(tri_corner(triangles@, t as int, 0) >= nv);
                    } else if corners[1] >= nv {
                        assert(tri_corner(triangles@, t as int, 1) >= nv);
                    } else {
                        assert(tri_corner(triangles@, t as int, 2) >= nv);
                    }
                }
                return Err(GraphError::TopologyNotFound);
            }
            proof {
                assert forall|k: int| 0 <= k < 3 implies tri_corner(triangles@, t as int, k)
                    < nv by {
                    if k == 0 {
                        assert(corners[0] < nv);
                    } else if k == 1 {
                        assert(corners[1] < nv);
                    } else {
                        assert(corners[2] < nv);
                    }
                }
            }
            t = t + 1;
        }
        let mut mesh: Mesh<G> = Mesh::new();
        let mut pending = vertices;
        let ghost vseq = pending@;
        let mut done: usize = 0;
        while pending.len() > 0
            invariant
                mesh.wf(),
                nv == vseq.len(),
                vseq == vertices@,
                done + pending@.len() == nv,
                pending@ =~= vseq.skip(done as int),
                mesh.vertex_key_cursor() == done as u64,
                mesh.face_key_cursor() == 0,
                mesh.vs().dom().len() == done,
                forall|v: VertexKey| #[trigger]
                    mesh.vs().dom().contains(v) <==> (v as int) < done as int,
                mesh.es() == Map::<EdgeKey, Edge<G::Edge>>::empty(),
                mesh.fs() == Map::<FaceKey, Face<G::Face>>::empty(),
            decreases pending@.len(),
        {
            proof {
                mesh.lemma_finite();
                assert(done < nv);
            }
            let vertex = pending.remove(0);
            mesh.insert_vertex(vertex);
            done = done + 1;
        }
        let mut t: usize = 0;
        while t < tn
            invariant
                tn == triangles@.len(),
                nv == vseq.len(),
                vseq == vertices@,
                0 <= t <= tn,
                forall|q: int, k: int|
                    0 <= q < tn && 0 <= k < 3 ==> #[trigger] tri_corner(triangles@, q, k) < nv,
                mesh.wf(),
                mesh.vertex_key_cursor() == nv as u64,
                mesh.vs().dom().len() == nv,
                forall|v: VertexKey| #[trigger]
                    mesh.vs().dom().contains(v) <==> (v as int) < nv as int,
                mesh.face_key_cursor() == t as u64,
                mesh.fs().dom().len() == t,
                mesh.es().dom().len() == 3 * t,
                forall|k: EdgeKey| #[trigger]
                    mesh.es().dom().contains(k) <==> exists|q: int, j: int|
                        0 <= q < t && 0 <= j < 3 && tri_edge(triangles@, q, j) == k,
                forall|q: int, j: int|
                    0 <= q < t && 0 <= j < 3 ==> (#[trigger] tri_edge(triangles@, q, j)).source
                        != tri_edge(triangles@, q, j).destination,
                forall|q1: int, j1: int, q2: int, j2: int|
                    #![trigger tri_edge(triangles@, q1, j1), tri_edge(triangles@, q2, j2)]
                    0 <= q1 < t && 0 <= j1 < 3 && 0 <= q2 < t && 0 <= j2 < 3 && (q1 != q2 || j1
                        != j2) ==> tri_edge(triangles@, q1, j1) != tri_edge(triangles@, q2, j2),
            decreases tn - t,
        {
            let corners: [usize; 3] = triangles[t];
            let a: u64 = corners[0] as u64;
            let b: u64 = corners[1] as u64;
            let c: u64 = corners[2] as u64;
            let ghost e0 = tri_edge(triangles@, t as int, 0);
            let ghost e1 = tri_edge(triangles@, t as int, 1);
            let ghost e2 = tri_edge(triangles@, t as int, 2);
            proof {
                assert(corners@ == triangles@[t as int]@);
                assert(e0 == (EdgeKey { source: a, destination: b }));
                assert(e1 == (EdgeKey { source: b, destination: c }));
                assert(e2 == (EdgeKey { source: c, destination: a }));
                assert(tri_corner(triangles@, t as int, 0) < nv);
                assert(tri_corner(triangles@, t as int, 1) < nv);
                assert(tri_corner(triangles@, t as int, 2) < nv);
                assert(mesh.vs().dom().contains(a));
                assert(mesh.vs().dom().contains(b));
                assert(mesh.vs().dom().contains(c));
            }
            let ghost before = mesh;
            match mesh.push_triangle(a, b, c) {
                Ok(()) => {},
                Err(e) => {
                    proof {
                        if a == b {
                            assert(e0.source == e0.destination);
                        } else if before.es().dom().contains(e0) {
                            let (q, j) = choose|q: int, j: int|
                                0 <= q < t && 0 <= j < 3 && tri_edge(triangles@, q, j) == e0;
                            assert(tri_edge(triangles@, q, j) == tri_edge(
                                triangles@,
                                t as int,
                                0,
                            ) && q != t as int);
                        } else if b == c {
                            assert(e1.source == e1.destination);
                        } else if before.es().dom().contains(e1) {
                            let (q, j) = choose|q: int, j: int|
                                0 <= q < t && 0 <= j < 3 && tri_edge(triangles@, q, j) == e1;
                            assert(tri_edge(triangles@, q, j) == tri_edge(
                                triangles@,
                                t as int,
                                1,
                            ) && q != t as int);
                        } else if c == a {
                            assert(e2.source == e2.destination);
                        } else {
                            assert(before.es().dom().contains(e2));
                            let (q, j) = choose|q: int, j: int|
                                0 <= q < t && 0 <= j < 3 && tri_edge(triangles@, q, j) == e2;
                            assert(tri_edge(triangles@, q, j) == tri_edge(
                                triangles@,
                                t as int,
                                2,
                            ) && q != t as int);
                        }
                        assert(!triangles_admissible(vseq.len(), triangles@));
                    }
                    return Err(e);
                },
            }
            proof {
                assert(a != b && b != c && c != a);
                assert(!before.es().dom().contains(e0) && !before.es().dom().contains(e1)
                    && !before.es().dom().contains(e2));
                assert(e0 != e1 && e1 != e2 && e0 != e2);
                assert forall|k: EdgeKey| #[trigger]
                    mesh.es().dom().contains(k) <==> exists|q: int, j: int|
                        0 <= q < t + 1 && 0 <= j < 3 && tri_edge(triangles@, q, j) == k by {
                    if mesh.es().dom().contains(k) {
                        if before.es().dom().contains(k) {
                            let (q, j) = choose|q: int, j: int|
                                0 <= q < t && 0 <= j < 3 && tri_edge(triangles@, q, j) == k;
                            assert(0 <= q < t + 1 && 0 <= j < 3 && tri_edge(triangles@, q, j)
                                == k);
                        } else if k == e0 {
                            assert(tri_edge(triangles@, t as int, 0) == k);
                        } else if k == e1 {
                            assert(tri_edge(triangles@, t as int, 1) == k);
                        } else {
                            assert(k == e2);
                            assert(tri_edge(triangles@, t as int, 2) == k);
                        }
                    }
                    if exists|q: int, j: int|
                        0 <= q < t + 1 && 0 <= j < 3 && tri_edge(triangles@, q, j) == k {
                        let (q, j) = choose|q: int, j: int|
                            0 <= q < t + 1 && 0 <= j < 3 && tri_edge(triangles@, q, j) == k;
                        if q < t {
                            assert(before.es().dom().contains(k));
                            assert(mesh.es().dom().contains(k));
                        } else {
                            assert(q == t as int);
                            if j == 0 {
                                assert(k == e0);
                            } else if j == 1 {
                                assert(k == e1);
                            } else {
                                assert(k == e2);
                            }
                            assert(mesh.es().dom().contains(k));
                        }
                    }
                }
                assert forall|q: int, j: int| 0 <= q < t + 1 && 0 <= j < 3 implies (
                #[trigger] tri_edge(triangles@, q, j)).source != tri_edge(
                    triangles@,
                    q,
                    j,
                ).destination by {
                    if q == t as int {
                        if j == 0 {
                        } else if j == 1 {
                        } else {
                            assert(j == 2);
                        }
                    }
                }
                assert forall|q1: int, j1: int, q2: int, j2: int|
                    #![trigger tri_edge(triangles@, q1, j1), tri_edge(triangles@, q2, j2)]
                    0 <= q1 < t + 1 && 0 <= j1 < 3 && 0 <= q2 < t + 1 && 0 <= j2 < 3 && (q1
                        != q2 || j1 != j2) implies tri_edge(triangles@, q1, j1) != tri_edge(
                    triangles@,
                    q2,
                    j2,
                ) by {
                    if q1 == t as int && q2 < t {
                        assert(before.es().dom().contains(tri_edge(triangles@, q2, j2)));
                    } else if q2 == t as int && q1 < t {
                        assert(before.es().dom().contains(tri_edge(triangles@, q1, j1)));
                    } else if q1 == t as int && q2 == t as int {
                        assert(j1 != j2);
                    }
                }
            }
            t = t + 1;
        }
        proof {
            assert(triangles_admissible(vseq.len(), triangles@));
        }
        Ok(mesh)
    }
}

} // verus!