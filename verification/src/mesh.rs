//! The index topology of stroke meshes: a ribbon of vertex pairs joined into
//! a triangle strip, and round caps as triangle fans. Vertex positions are
//! computed by the caller; this module decides how vertices are connected.
use vstd::prelude::*;

verus! {

/// The indices of the two triangles that join the pair starting at `b - 2`
/// to the pair starting at `b`.
pub open spec fn quad_indices(b: int) -> Seq<u32> {
    seq![(b - 2) as u32, (b - 1) as u32, b as u32, (b - 1) as u32, (b + 1) as u32, b as u32]
}

/// The indices of a fan around vertex `center` over the `arc_len` vertices
/// that follow it: one triangle per consecutive pair of arc vertices.
pub open spec fn fan_indices(center: int, arc_len: nat) -> Seq<u32>
    decreases arc_len,
{
    if arc_len <= 1 {
        Seq::empty()
    } else {
        let i = arc_len - 2;
        fan_indices(center, (arc_len - 1) as nat) + seq![
            center as u32,
            (center + 1 + i) as u32,
            (center + 2 + i) as u32,
        ]
    }
}

/// Every index names an existing vertex, and indices come in triangles.
pub open spec fn mesh_wf(vertex_count: nat, indices: Seq<u32>) -> bool {
    &&& indices.len() % 3 == 0
    &&& forall|i: int| 0 <= i < indices.len() ==> (#[trigger] indices[i]) < vertex_count
}

/// A stroke mesh that grows point by point: vertices relative to `origin`,
/// and triangle indices into them.
pub struct IncrementalStrokeMesh<V, O> {
    origin: O,
    vertices: Vec<V>,
    indices: Vec<u32>,
    has_prev_pair: bool,
}

/// A finished stroke mesh.
pub struct StrokeMesh<V, O> {
    pub origin: O,
    pub vertices: Vec<V>,
    pub indices: Vec<u32>,
}

/// The mathematical state of an [`IncrementalStrokeMesh`].
pub struct MeshView<V, O> {
    pub origin: O,
    pub vertices: Seq<V>,
    pub indices: Seq<u32>,
    pub has_prev_pair: bool,
}

impl<V, O> View for IncrementalStrokeMesh<V, O> {
    type V = MeshView<V, O>;

    closed spec fn view(&self) -> MeshView<V, O> {
        MeshView {
            origin: self.origin,
            vertices: self.vertices@,
            indices: self.indices@,
            has_prev_pair: self.has_prev_pair,
        }
    }
}

impl<V, O> MeshView<V, O> {
    /// The mesh is well formed, and a previous pair exists when it claims so.
    pub open spec fn wf(self) -> bool {
        &&& mesh_wf(self.vertices.len(), self.indices)
        &&& self.has_prev_pair ==> self.vertices.len() >= 2
    }
}

/// Facts about the fan indices: three per triangle, all within the fan.
pub proof fn lemma_fan_indices(center: int, arc_len: nat)
    requires
        0 <= center,
        center + arc_len < 0x1_0000_0000,
    ensures
        fan_indices(center, arc_len).len() == if arc_len <= 1 {
            0
        } else {
            3 * (arc_len - 1)
        },
        forall|i: int|
            0 <= i < fan_indices(center, arc_len).len() ==> center <= (#[trigger] fan_indices(
                center,
                arc_len,
            )[i]) <= center + arc_len,
    decreases arc_len,
{
    if arc_len > 1 {
        lemma_fan_indices(center, (arc_len - 1) as nat);
        let prev = fan_indices(center, (arc_len - 1) as nat);
        let tri = seq![
            center as u32,
            (center + 1 + (arc_len - 2)) as u32,
            (center + 2 + (arc_len - 2)) as u32,
        ];
        assert forall|i: int|
            0 <= i < fan_indices(center, arc_len).len() implies center <= (#[trigger] fan_indices(
            center,
            arc_len,
        )[i]) <= center + arc_len by {
            if i >= prev.len() {
                assert(fan_indices(center, arc_len)[i] == tri[i - prev.len()]);
            } else {
                assert(fan_indices(center, arc_len)[i] == prev[i]);
            }
        }
    }
}

impl<V: Copy, O> IncrementalStrokeMesh<V, O> {
    /// An empty mesh around `origin`.
    pub fn new(origin: O) -> (m: Self)
        ensures
            m@ == (MeshView {
                origin,
                vertices: Seq::<V>::empty(),
                indices: Seq::<u32>::empty(),
                has_prev_pair: false,
            }),
            m@.wf(),
    {
        IncrementalStrokeMesh { origin, vertices: Vec::new(), indices: Vec::new(), has_prev_pair: false }
    }

    /// The point vertices are relative to.
    pub fn origin(&self) -> (o: &O)
        ensures
            *o == self@.origin,
    {
        &self.origin
    }

    /// The vertices so far.
    pub fn vertices(&self) -> (v: &Vec<V>)
        ensures
            v@ == self@.vertices,
    {
        &self.vertices
    }

    /// The triangle indices so far.
    pub fn indices(&self) -> (v: &Vec<u32>)
        ensures
            v@ == self@.indices,
    {
        &self.indices
    }

    /// Appends the left and right vertex of the next point of the ribbon and,
    /// when there is a previous pair, the two triangles joining them.
    pub fn push_pair(&mut self, left: V, right: V)
        requires
            old(self)@.wf(),
            old(self)@.vertices.len() + 2 <= 0x1_0000_0000,
        ensures
            final(self)@.wf(),
            final(self)@.origin == old(self)@.origin,
            final(self)@.vertices == old(self)@.vertices.push(left).push(right),
            final(self)@.indices == if old(self)@.has_prev_pair {
                old(self)@.indices + quad_indices(old(self)@.vertices.len() as int)
            } else {
                old(self)@.indices
            },
            final(self)@.has_prev_pair,
    {
        let base = self.vertices.len() as u32;
        self.vertices.push(left);
        self.vertices.push(right);
        if self.has_prev_pair {
            let ghost before = self.indices@;
            self.indices.push(base - 2);
            self.indices.push(base - 1);
            self.indices.push(base);
            self.indices.push(base - 1);
            self.indices.push(base + 1);
            self.indices.push(base);
            proof {
                let q = quad_indices(base as int);
                assert(self.indices@ =~= before + q);
                assert forall|i: int| 0 <= i < self.indices@.len() implies (#[trigger] self.indices@[i])
                    < self.vertices@.len() by {
                    if i >= before.len() {
                        assert(self.indices@[i] == q[i - before.len()]);
                    } else {
                        assert(self.indices@[i] == before[i]);
                    }
                }
            }
        }
        self.has_prev_pair = true;
    }

    /// Appends a round cap: the `center` vertex, then the `arc` vertices, and
    /// one triangle from the center over each consecutive pair of them.
    pub fn push_fan(&mut self, center: V, arc: Vec<V>)
        requires
            old(self)@.wf(),
            old(self)@.vertices.len() + 1 + arc@.len() <= 0x1_0000_0000,
        ensures
            final(self)@.wf(),
            final(self)@.origin == old(self)@.origin,
            final(self)@.vertices == old(self)@.vertices.push(center) + arc@,
            final(self)@.indices == old(self)@.indices + fan_indices(
                old(self)@.vertices.len() as int,
                arc@.len(),
            ),
            final(self)@.has_prev_pair == old(self)@.has_prev_pair,
    {
        let ghost v0 = self.vertices@;
        let ghost i0 = self.indices@;
        let center_idx = self.vertices.len() as u32;
        self.vertices.push(center);
        let mut k: usize = 0;
        while k < arc.len()
            invariant
                0 <= k <= arc@.len(),
                self.vertices@ == v0.push(center) + arc@.take(k as int),
                self.indices@ == i0,
                self.origin == old(self).origin,
                self.has_prev_pair == old(self).has_prev_pair,
            decreases arc.len() - k,
        {
            self.vertices.push(arc[k]);
            proof {
                assert(arc@.take(k + 1) =~= arc@.take(k as int).push(arc@[k as int]));
                assert(v0.push(center) + arc@.take(k + 1) =~= (v0.push(center) + arc@.take(k as int)).push(
                    arc@[k as int],
                ));
            }
            k = k + 1;
        }
        proof {
            assert(arc@.take(k as int) =~= arc@);
        }
        let mut t: usize = 1;
        while t < arc.len()
            invariant
                1 <= t <= arc@.len() || (t == 1 && arc@.len() <= 1),
                center_idx as int == v0.len(),
                v0.len() + 1 + arc@.len() <= 0x1_0000_0000,
                self.vertices@ == v0.push(center) + arc@,
                self.indices@ == i0 + fan_indices(center_idx as int, t as nat),
                self.origin == old(self).origin,
                self.has_prev_pair == old(self).has_prev_pair,
            decreases arc.len() - t,
        {
            let ghost before = self.indices@;
            let i = (t - 1) as u32;
            self.indices.push(center_idx);
            self.indices.push(center_idx + 1 + i);
            self.indices.push(center_idx + 2 + i);
            proof {
                assert(fan_indices(center_idx as int, (t + 1) as nat) == fan_indices(
                    center_idx as int,
                    t as nat,
                ) + seq![
                    center_idx as u32,
                    (center_idx + 1 + (t - 1)) as u32,
                    (center_idx + 2 + (t - 1)) as u32,
                ]);
                assert(self.indices@ =~= i0 + fan_indices(center_idx as int, (t + 1) as nat));
            }
            t = t + 1;
        }
        proof {
            if arc@.len() <= 1 {
                assert(fan_indices(center_idx as int, arc@.len()) =~= Seq::<u32>::empty());
                assert(fan_indices(center_idx as int, 1) =~= Seq::<u32>::empty());
            }
            lemma_fan_indices(center_idx as int, arc@.len());
            let f = fan_indices(center_idx as int, arc@.len());
            assert(self.indices@ =~= i0 + f);
            assert forall|i: int| 0 <= i < self.indices@.len() implies (#[trigger] self.indices@[i])
                < self.vertices@.len() by {
                if i >= i0.len() {
                    assert(self.indices@[i] == f[i - i0.len()]);
                } else {
                    assert(self.indices@[i] == i0[i]);
                }
            }
        }
    }

    /// The finished mesh.
    pub fn finish(self) -> (m: StrokeMesh<V, O>)
        ensures
            m.origin == self@.origin,
            m.vertices@ == self@.vertices,
            m.indices@ == self@.indices,
    {
        StrokeMesh { origin: self.origin, vertices: self.vertices, indices: self.indices }
    }
}

/// A ribbon of `n` pairs, built from an empty mesh, has six indices for
/// each pair after the first.
pub proof fn lemma_ribbon_index_count(n: nat)
    ensures
        ribbon_indices(n).len() == if n == 0 {
            0
        } else {
            6 * (n - 1)
        },
    decreases n,
{
    if n > 1 {
        lemma_ribbon_index_count((n - 1) as nat);
    }
}

/// The indices of a ribbon of `n` pairs built from an empty mesh.
pub open spec fn ribbon_indices(n: nat) -> Seq<u32>
    decreases n,
{
    if n <= 1 {
        Seq::empty()
    } else {
        ribbon_indices((n - 1) as nat) + quad_indices(2 * (n - 1))
    }
}

/// The indices of a ribbon of `n` pairs whose first vertex is `base`.
pub open spec fn ribbon_indices_from(base: int, n: nat) -> Seq<u32>
    decreases n,
{
    if n <= 1 {
        Seq::empty()
    } else {
        ribbon_indices_from(base, (n - 1) as nat) + quad_indices(base + 2 * (n - 1))
    }
}

/// The vertices of a list of pairs, left before right, in order.
pub open spec fn pair_vertices<V>(pairs: Seq<(V, V)>) -> Seq<V>
    decreases pairs.len(),
{
    if pairs.len() == 0 {
        Seq::empty()
    } else {
        pair_vertices(pairs.drop_last()).push(pairs.last().0).push(pairs.last().1)
    }
}

proof fn lemma_pair_vertices_len<V>(pairs: Seq<(V, V)>)
    ensures
        pair_vertices(pairs).len() == 2 * pairs.len(),
    decreases pairs.len(),
{
    if pairs.len() > 0 {
        lemma_pair_vertices_len(pairs.drop_last());
    }
}

/// A round cap: the center vertex and the arc around it.
pub type Cap<V> = (V, Vec<V>);

/// The vertices a cap adds.
pub open spec fn cap_vertices<V>(cap: (V, Seq<V>)) -> Seq<V> {
    seq![cap.0] + cap.1
}

/// Builds a whole stroke mesh from its pairs, in the order the stroke is
/// drawn: for an open stroke (`caps` given) the start cap first and the end
/// cap last, the ribbon of pairs in between. A stroke without points gives
/// an empty mesh.
pub fn assemble_stroke_mesh<V: Copy, O>(origin: O, pairs: Vec<(V, V)>, caps: Option<(Cap<V>, Cap<V>)>) -> (m:
    StrokeMesh<V, O>)
    requires
        2 * pairs@.len() + match caps {
            Some(c) => 2 + c.0.1@.len() + c.1.1@.len(),
            None => 0,
        } <= 0x1_0000_0000,
    ensures
        m.origin == origin,
        mesh_wf(m.vertices@.len(), m.indices@),
        pairs@.len() == 0 ==> m.vertices@.len() == 0 && m.indices@.len() == 0,
        pairs@.len() > 0 ==> match caps {
            None => {
                &&& m.vertices@ == pair_vertices(pairs@)
                &&& m.indices@ == ribbon_indices_from(0, pairs@.len())
            },
            Some(c) => {
                let s: int = 1 + c.0.1@.len() as int;
                let e: int = s + 2 * pairs@.len();
                &&& m.vertices@ == cap_vertices((c.0.0, c.0.1@)) + pair_vertices(pairs@) + cap_vertices(
                    (c.1.0, c.1.1@),
                )
                &&& m.indices@ == fan_indices(0, c.0.1@.len()) + ribbon_indices_from(s, pairs@.len())
                    + fan_indices(e, c.1.1@.len())
            },
        },
{
    let ghost caps_g = caps;
    let mut mesh: IncrementalStrokeMesh<V, O> = IncrementalStrokeMesh::new(origin);
    if pairs.len() == 0 {
        return mesh.finish();
    }
    let (start, end) = match caps {
        Some((a, b)) => (Some(a), Some(b)),
        None => (None, None),
    };
    let ghost start_len: nat = match caps_g {
        Some(c) => 1 + c.0.1@.len(),
        None => 0,
    };
    match start {
        Some((center, arc)) => {
            mesh.push_fan(center, arc);
        },
        None => {},
    }
    let ghost v0 = mesh@.vertices;
    let ghost i0 = mesh@.indices;
    proof {
        assert(v0.len() == start_len);
    }
    let mut k: usize = 0;
    while k < pairs.len()
        invariant
            0 <= k <= pairs@.len(),
            pairs@.len() > 0,
            mesh@.wf(),
            mesh@.origin == origin,
            v0.len() == start_len,
            2 * pairs@.len() + start_len <= 0x1_0000_0000,
            mesh@.vertices == v0 + pair_vertices(pairs@.take(k as int)),
            mesh@.indices == i0 + ribbon_indices_from(start_len as int, k as nat),
            mesh@.has_prev_pair == (k > 0),
        decreases pairs.len() - k,
    {
        let (l, r) = pairs[k];
        proof {
            lemma_pair_vertices_len(pairs@.take(k as int));
            assert(pairs@.take(k + 1).drop_last() =~= pairs@.take(k as int));
            assert(pairs@.take(k + 1).last() == pairs@[k as int]);
        }
        mesh.push_pair(l, r);
        proof {
            assert(mesh@.vertices =~= v0 + pair_vertices(pairs@.take(k + 1)));
            if k > 0 {
                assert(ribbon_indices_from(start_len as int, (k + 1) as nat) == ribbon_indices_from(
                    start_len as int,
                    k as nat,
                ) + quad_indices(start_len + 2 * k));
                assert(mesh@.indices =~= i0 + ribbon_indices_from(start_len as int, (k + 1) as nat));
            } else {
                assert(ribbon_indices_from(start_len as int, 1) =~= Seq::<u32>::empty());
            }
        }
        k = k + 1;
    }
    proof {
        assert(pairs@.take(k as int) =~= pairs@);
        lemma_pair_vertices_len(pairs@);
    }
    match end {
        Some((center, arc)) => {
            mesh.push_fan(center, arc);
        },
        None => {},
    }
    proof {
        match caps_g {
            Some(c) => {
                assert(mesh@.vertices =~= cap_vertices((c.0.0, c.0.1@)) + pair_vertices(pairs@)
                    + cap_vertices((c.1.0, c.1.1@)));
                assert(i0 =~= Seq::<u32>::empty() + fan_indices(0, c.0.1@.len()));
            },
            None => {
                assert(mesh@.vertices =~= pair_vertices(pairs@));
                assert(mesh@.indices =~= ribbon_indices_from(0, pairs@.len()));
            },
        }
    }
    mesh.finish()
}


/// The two triangles joining the pair at `b - 2` to the pair at `b` name
/// exactly those four vertices, by their positions: `b - 2`, `b - 1`, `b`,
/// then `b - 1`, `b + 1`, `b`.
pub proof fn lemma_quad_names_its_pairs(b: int)
    requires
        2 <= b,
        b + 1 < 0x1_0000_0000,
    ensures
        quad_indices(b).len() == 6,
        quad_indices(b)[0] as int == b - 2,
        quad_indices(b)[1] as int == b - 1,
        quad_indices(b)[2] as int == b,
        quad_indices(b)[3] as int == b - 1,
        quad_indices(b)[4] as int == b + 1,
        quad_indices(b)[5] as int == b,
{
}

/// In a ribbon of `n` pairs, the six indices that join pair `k - 1` to pair
/// `k` are the vertex positions `2k - 2`, `2k - 1`, `2k`, `2k - 1`,
/// `2k + 1`, `2k`, for every `k` from 1 to `n - 1`.
pub proof fn lemma_ribbon_joins_consecutive_pairs(n: nat, k: int)
    requires
        1 <= k < n,
        2 * n <= 0x1_0000_0000,
    ensures
        ribbon_indices(n)[6 * (k - 1)] as int == 2 * k - 2,
        ribbon_indices(n)[6 * (k - 1) + 1] as int == 2 * k - 1,
        ribbon_indices(n)[6 * (k - 1) + 2] as int == 2 * k,
        ribbon_indices(n)[6 * (k - 1) + 3] as int == 2 * k - 1,
        ribbon_indices(n)[6 * (k - 1) + 4] as int == 2 * k + 1,
        ribbon_indices(n)[6 * (k - 1) + 5] as int == 2 * k,
    decreases n,
{
    let m = (n - 1) as nat;
    lemma_ribbon_index_count(m);
    let prev = ribbon_indices(m);
    let q = quad_indices(2 * (n - 1));
    assert(ribbon_indices(n) == prev + q);
    if k < n - 1 {
        lemma_ribbon_joins_consecutive_pairs(m, k);
        let b0 = 6 * (k - 1);
        assert((prev + q)[b0] == prev[b0]);
        assert((prev + q)[b0 + 1] == prev[b0 + 1]);
        assert((prev + q)[b0 + 2] == prev[b0 + 2]);
        assert((prev + q)[b0 + 3] == prev[b0 + 3]);
        assert((prev + q)[b0 + 4] == prev[b0 + 4]);
        assert((prev + q)[b0 + 5] == prev[b0 + 5]);
    } else {
        lemma_quad_names_its_pairs(2 * (n - 1));
        assert(prev.len() == 6 * (k - 1));
        let b0 = 6 * (k - 1);
        assert((prev + q)[b0] == q[0]);
        assert((prev + q)[b0 + 1] == q[1]);
        assert((prev + q)[b0 + 2] == q[2]);
        assert((prev + q)[b0 + 3] == q[3]);
        assert((prev + q)[b0 + 4] == q[4]);
        assert((prev + q)[b0 + 5] == q[5]);
    }
}


/// A fan of `arc_len` arc vertices after `center` has one triangle per
/// consecutive pair of them: triangle `i` is the center, arc vertex `i` and
/// arc vertex `i + 1`, named by their positions.
pub proof fn lemma_fan_triangles(center: int, arc_len: nat, i: int)
    requires
        0 <= center,
        center + arc_len < 0x1_0000_0000,
        0 <= i,
        i + 1 < arc_len,
    ensures
        fan_indices(center, arc_len)[3 * i] as int == center,
        fan_indices(center, arc_len)[3 * i + 1] as int == center + 1 + i,
        fan_indices(center, arc_len)[3 * i + 2] as int == center + 2 + i,
    decreases arc_len,
{
    let m = (arc_len - 1) as nat;
    lemma_fan_indices(center, m);
    let prev = fan_indices(center, m);
    let tri = seq![center as u32, (center + 1 + (arc_len - 2)) as u32, (center + 2 + (arc_len - 2)) as u32];
    assert(fan_indices(center, arc_len) == prev + tri);
    if i + 1 < m {
        lemma_fan_triangles(center, m, i);
        assert((prev + tri)[3 * i] == prev[3 * i]);
        assert((prev + tri)[3 * i + 1] == prev[3 * i + 1]);
        assert((prev + tri)[3 * i + 2] == prev[3 * i + 2]);
    } else {
        assert(prev.len() == 3 * i);
        assert((prev + tri)[3 * i] == tri[0]);
        assert((prev + tri)[3 * i + 1] == tri[1]);
        assert((prev + tri)[3 * i + 2] == tri[2]);
    }
}

} // verus!
