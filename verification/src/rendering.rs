//! Plain data that the renderer hands out and takes back, and the layout of a batch of models.
use vstd::prelude::*;

verus! {

/// Identifies one of the renderer's worlds: its position in the renderer's list of worlds.
#[derive(Debug, Clone, Copy, PartialEq, Eq, Structural)]
pub struct WorldId(u32);

impl WorldId {
    /// The position of the world in the renderer's list.
    pub closed spec fn index(self) -> nat {
        self.0 as nat
    }

    /// The id of the world that is created when the renderer already has `count` worlds.
    pub fn for_new_world(count: usize) -> (id: WorldId)
        requires
            count <= u32::MAX,
        ensures
            id.index() == count,
    {
        WorldId(count as u32)
    }

    /// The position of the world in the renderer's list.
    pub fn i(&self) -> (i: usize)
        ensures
            i == self.index(),
    {
        self.0 as usize
    }
}

/// A material of a batch of models, referring to its textures by position in the batch.
#[derive(Debug)]
pub struct IndirectMaterial {
    pub name: String,
    pub diffuse_texture_index: usize,
    pub normal_texture_index: usize,
}

/// A mesh of a model file as the file describes it.
#[derive(Debug)]
pub struct MeshSummary {
    pub name: String,
    /// The number of vertices of the mesh.
    pub num_vertices: u32,
    /// The number of indices of the mesh.
    pub num_elements: u32,
    /// The position of the mesh's material among the materials of its file, if it has one.
    pub material_id: Option<usize>,
}

/// What the layout of a batch needs of one model file: the names of its materials and its meshes,
/// in file order.
#[derive(Debug)]
pub struct ObjFileSummary {
    pub material_names: Vec<String>,
    pub meshes: Vec<MeshSummary>,
}

/// A mesh of a batch: where its vertices and indices start in the batch's shared buffers and which
/// of the batch's materials it uses.
#[derive(Debug)]
pub struct IndirectMesh {
    pub name: String,
    pub vtx_start: u64,
    pub idx_start: u64,
    pub material_index: usize,
    pub num_elements: u32,
    pub num_vertices: u32,
}

/// A model of a batch: the meshes of one model file.
#[derive(Debug)]
pub struct IndirectModel {
    pub meshes: Vec<IndirectMesh>,
}

/// The sum of a sequence of natural numbers.
pub open spec fn sum(s: Seq<nat>) -> nat
    decreases s.len(),
{
    if s.len() == 0 {
        0
    } else {
        sum(s.drop_last()) + s.last()
    }
}

/// The number of vertices of each mesh.
pub open spec fn vertex_counts(ms: Seq<MeshSummary>) -> Seq<nat> {
    ms.map_values(|m: MeshSummary| m.num_vertices as nat)
}

/// The number of indices of each mesh.
pub open spec fn index_counts(ms: Seq<MeshSummary>) -> Seq<nat> {
    ms.map_values(|m: MeshSummary| m.num_elements as nat)
}

/// The number of vertices of each file.
pub open spec fn file_vertex_counts(fs: Seq<ObjFileSummary>) -> Seq<nat> {
    fs.map_values(|f: ObjFileSummary| sum(vertex_counts(f.meshes@)))
}

/// The number of indices of each file.
pub open spec fn file_index_counts(fs: Seq<ObjFileSummary>) -> Seq<nat> {
    fs.map_values(|f: ObjFileSummary| sum(index_counts(f.meshes@)))
}

/// The number of materials of each file.
pub open spec fn material_counts(fs: Seq<ObjFileSummary>) -> Seq<nat> {
    fs.map_values(|f: ObjFileSummary| f.material_names.len() as nat)
}

/// `out` is the `m`-th mesh of the `f`-th file of `fs` placed in the batch: its vertices and
/// indices follow those of all earlier files and of the earlier meshes of its file, and its
/// material is counted past the materials of all earlier files (the first material when it has
/// none).
pub open spec fn mesh_placed(fs: Seq<ObjFileSummary>, f: int, m: int, out: IndirectMesh) -> bool {
    let s = fs[f].meshes@[m];
    &&& out.name@ == s.name@
    &&& out.num_vertices == s.num_vertices
    &&& out.num_elements == s.num_elements
    &&& out.vtx_start == sum(file_vertex_counts(fs).take(f)) + sum(vertex_counts(fs[f].meshes@).take(m))
    &&& out.idx_start == sum(file_index_counts(fs).take(f)) + sum(index_counts(fs[f].meshes@).take(m))
    &&& out.material_index == match s.material_id {
        Some(id) => id + sum(material_counts(fs).take(f)),
        None => 0,
    }
}

/// The `k`-th material of the `f`-th file of `fs` has the name the file gives it and stands in
/// the batch past the materials of all earlier files, where `mats` is the batch's materials.
pub open spec fn material_placed(fs: Seq<ObjFileSummary>, f: int, k: int, mats: Seq<IndirectMaterial>) -> bool {
    mats[sum(material_counts(fs).take(f)) + k].name@ == fs[f].material_names@[k]@
}

proof fn lemma_sum_take_step(s: Seq<nat>, i: int)
    requires
        0 <= i < s.len(),
    ensures
        sum(s.take(i + 1)) == sum(s.take(i)) + s[i],
{
    assert(s.take(i + 1).drop_last() =~= s.take(i));
}

proof fn lemma_sum_take_le(s: Seq<nat>, i: int, j: int)
    requires
        0 <= i <= j <= s.len(),
    ensures
        sum(s.take(i)) <= sum(s.take(j)),
        sum(s.take(s.len() as int)) == sum(s),
    decreases j - i,
{
    assert(s.take(s.len() as int) =~= s);
    if i < j {
        lemma_sum_take_le(s, i, j - 1);
        lemma_sum_take_step(s, j - 1);
    }
}

/// Within a file, each mesh's vertices and indices begin right where those of the mesh before it
/// end.
pub proof fn lemma_meshes_follow_each_other(fs: Seq<ObjFileSummary>, f: int, m: int, a: IndirectMesh, b: IndirectMesh)
    requires
        0 <= f < fs.len(),
        0 <= m,
        m + 1 < fs[f].meshes@.len(),
        mesh_placed(fs, f, m, a),
        mesh_placed(fs, f, m + 1, b),
    ensures
        b.vtx_start == a.vtx_start + a.num_vertices,
        b.idx_start == a.idx_start + a.num_elements,
{
    lemma_sum_take_step(vertex_counts(fs[f].meshes@), m);
    lemma_sum_take_step(index_counts(fs[f].meshes@), m);
}

/// The first mesh of a file begins right where the last mesh of the file before it ends, and the
/// first mesh of the first file begins at the start of the buffers.
pub proof fn lemma_files_follow_each_other(fs: Seq<ObjFileSummary>, f: int, a: IndirectMesh, b: IndirectMesh)
    requires
        0 <= f,
        f + 1 < fs.len(),
        fs[f].meshes@.len() > 0,
        fs[f + 1].meshes@.len() > 0,
        mesh_placed(fs, f, fs[f].meshes@.len() - 1, a),
        mesh_placed(fs, f + 1, 0, b),
    ensures
        b.vtx_start == a.vtx_start + a.num_vertices,
        b.idx_start == a.idx_start + a.num_elements,
{
    let vc = vertex_counts(fs[f].meshes@);
    let ic = index_counts(fs[f].meshes@);
    let m = fs[f].meshes@.len() - 1;
    lemma_sum_take_step(vc, m);
    lemma_sum_take_step(ic, m);
    lemma_sum_take_le(vc, m + 1, vc.len() as int);
    lemma_sum_take_le(ic, m + 1, ic.len() as int);
    lemma_sum_take_step(file_vertex_counts(fs), f);
    lemma_sum_take_step(file_index_counts(fs), f);
    assert(vertex_counts(fs[f + 1].meshes@).take(0) =~= Seq::<nat>::empty());
    assert(index_counts(fs[f + 1].meshes@).take(0) =~= Seq::<nat>::empty());
}

/// The first mesh of the first file begins at the start of both buffers.
pub proof fn lemma_first_mesh_at_start(fs: Seq<ObjFileSummary>, a: IndirectMesh)
    requires
        fs.len() > 0,
        fs[0].meshes@.len() > 0,
        mesh_placed(fs, 0, 0, a),
    ensures
        a.vtx_start == 0,
        a.idx_start == 0,
{
    assert(file_vertex_counts(fs).take(0) =~= Seq::<nat>::empty());
    assert(file_index_counts(fs).take(0) =~= Seq::<nat>::empty());
    assert(vertex_counts(fs[0].meshes@).take(0) =~= Seq::<nat>::empty());
    assert(index_counts(fs[0].meshes@).take(0) =~= Seq::<nat>::empty());
}

/// No two meshes of a batch share vertices or indices: a mesh placed before another (in an
/// earlier file, or earlier in the same file) ends where the other begins or before.
pub proof fn lemma_meshes_do_not_overlap(
    fs: Seq<ObjFileSummary>,
    f: int,
    m: int,
    a: IndirectMesh,
    g: int,
    n: int,
    b: IndirectMesh,
)
    requires
        0 <= f < fs.len(),
        0 <= m < fs[f].meshes@.len(),
        0 <= g < fs.len(),
        0 <= n < fs[g].meshes@.len(),
        f < g || (f == g && m < n),
        mesh_placed(fs, f, m, a),
        mesh_placed(fs, g, n, b),
    ensures
        a.vtx_start + a.num_vertices <= b.vtx_start,
        a.idx_start + a.num_elements <= b.idx_start,
{
    let vc = vertex_counts(fs[f].meshes@);
    let ic = index_counts(fs[f].meshes@);
    lemma_sum_take_step(vc, m);
    lemma_sum_take_step(ic, m);
    if f == g {
        lemma_sum_take_le(vc, m + 1, n);
        lemma_sum_take_le(ic, m + 1, n);
    } else {
        lemma_sum_take_le(vc, m + 1, vc.len() as int);
        lemma_sum_take_le(ic, m + 1, ic.len() as int);
        lemma_sum_take_step(file_vertex_counts(fs), f);
        lemma_sum_take_step(file_index_counts(fs), f);
        lemma_sum_take_le(file_vertex_counts(fs), f + 1, g);
        lemma_sum_take_le(file_index_counts(fs), f + 1, g);
    }
}

/// Lays out a batch of model files: the materials of all files, in file order, each with texture
/// indices equal to its position in the batch, and for each file a model whose meshes have their
/// vertices and indices placed one after another in the batch's shared buffers.
#[verifier::spinoff_prover]
pub fn batch_layout(files: &Vec<ObjFileSummary>) -> (r: (Vec<IndirectMaterial>, Vec<IndirectModel>))
    requires
        sum(file_vertex_counts(files@)) <= u64::MAX,
        sum(file_index_counts(files@)) <= u64::MAX,
        forall|f: int, m: int|
            0 <= f < files.len() && 0 <= m < files[f].meshes.len() && (#[trigger] files[f].meshes[m]).material_id is Some
                ==> files[f].meshes[m].material_id->0 + sum(material_counts(files@).take(f)) <= usize::MAX,
    ensures
        r.0.len() == sum(material_counts(files@)),
        forall|g: int| 0 <= g < r.0.len() ==> #[trigger] r.0[g].diffuse_texture_index == g && r.0[g].normal_texture_index == g,
        forall|f: int, k: int|
            0 <= f < files.len() && 0 <= k < files[f].material_names.len() ==> #[trigger] material_placed(files@, f, k, r.0@),
        r.1.len() == files.len(),
        forall|f: int| 0 <= f < files.len() ==> (#[trigger] r.1[f]).meshes.len() == files[f].meshes.len(),
        forall|f: int, m: int|
            0 <= f < files.len() && 0 <= m < files[f].meshes.len() ==> mesh_placed(files@, f, m, #[trigger] r.1[f].meshes[m]),
{
    let ghost fs = files@;
    let mut materials: Vec<IndirectMaterial> = Vec::new();
    let mut models: Vec<IndirectModel> = Vec::new();
    let mut vtx_offset: u64 = 0;
    let mut idx_offset: u64 = 0;
    let mut f: usize = 0;
    proof {
        assert(material_counts(fs).take(0) =~= Seq::<nat>::empty());
        assert(file_vertex_counts(fs).take(0) =~= Seq::<nat>::empty());
        assert(file_index_counts(fs).take(0) =~= Seq::<nat>::empty());
    }
    while f < files.len()
        invariant
            fs == files@,
            f <= files.len(),
            sum(file_vertex_counts(fs)) <= u64::MAX,
            sum(file_index_counts(fs)) <= u64::MAX,
            forall|f: int, m: int|
                0 <= f < files.len() && 0 <= m < files[f].meshes.len() && (#[trigger] files[f].meshes[m]).material_id is Some
                    ==> files[f].meshes[m].material_id->0 + sum(material_counts(files@).take(f)) <= usize::MAX,
            materials.len() == sum(material_counts(fs).take(f as int)),
            forall|g: int| 0 <= g < materials.len() ==> #[trigger] materials[g].diffuse_texture_index == g
                && materials[g].normal_texture_index == g,
            forall|ff: int, k: int|
                0 <= ff < f && 0 <= k < files[ff].material_names.len() ==> #[trigger] material_placed(fs, ff, k, materials@),
            models.len() == f,
            forall|ff: int| 0 <= ff < f ==> (#[trigger] models[ff]).meshes.len() == files[ff].meshes.len(),
            forall|ff: int, m: int|
                0 <= ff < f && 0 <= m < files[ff].meshes.len() ==> mesh_placed(fs, ff, m, #[trigger] models[ff].meshes[m]),
            vtx_offset == sum(file_vertex_counts(fs).take(f as int)),
            idx_offset == sum(file_index_counts(fs).take(f as int)),
        decreases files.len() - f,
    {
        let file = &files[f];
        let ghost fi = f as int;
        let m_start = materials.len();
        proof {
            lemma_sum_take_step(material_counts(fs), fi);
            lemma_sum_take_step(file_vertex_counts(fs), fi);
            lemma_sum_take_step(file_index_counts(fs), fi);
            lemma_sum_take_le(file_vertex_counts(fs), fi + 1, fs.len() as int);
            lemma_sum_take_le(file_index_counts(fs), fi + 1, fs.len() as int);
            assert forall|ff: int| 0 <= ff < fi implies sum(material_counts(fs).take(ff)) + fs[ff].material_names.len()
                <= m_start by {
                lemma_sum_take_step(material_counts(fs), ff);
                lemma_sum_take_le(material_counts(fs), ff + 1, fi);
            }
        }
        let mut k: usize = 0;
        while k < file.material_names.len()
            invariant
                *file == fs[fi],
                0 <= fi < fs.len(),
                k <= file.material_names.len(),
                m_start == sum(material_counts(fs).take(fi)),
                materials.len() == m_start + k,
                forall|g: int| 0 <= g < materials.len() ==> #[trigger] materials[g].diffuse_texture_index == g
                    && materials[g].normal_texture_index == g,
                forall|ff: int, kk: int|
                    0 <= ff < fi && 0 <= kk < fs[ff].material_names.len() ==> #[trigger] material_placed(fs, ff, kk, materials@),
                forall|kk: int| 0 <= kk < k ==> #[trigger] material_placed(fs, fi, kk, materials@),
                forall|ff: int| 0 <= ff < fi ==> sum(material_counts(fs).take(ff)) + fs[ff].material_names.len() <= m_start,
            decreases file.material_names.len() - k,
        {
            let name = file.material_names[k].clone();
            let g = materials.len();
            let ghost before = materials@;
            materials.push(IndirectMaterial { name, diffuse_texture_index: g, normal_texture_index: g });
            proof {
                assert forall|ff: int, kk: int|
                    0 <= ff < fi && 0 <= kk < fs[ff].material_names.len() implies #[trigger] material_placed(fs, ff, kk, materials@) by {
                    assert(material_placed(fs, ff, kk, before));
                }
                assert forall|kk: int| 0 <= kk <= k implies #[trigger] material_placed(fs, fi, kk, materials@) by {
                    if kk < k {
                        assert(material_placed(fs, fi, kk, before));
                    }
                }
            }
            k = k + 1;
        }
        let mut meshes: Vec<IndirectMesh> = Vec::new();
        let mut vtx: u64 = vtx_offset;
        let mut idx: u64 = idx_offset;
        let mut m: usize = 0;
        let ghost vc = vertex_counts(file.meshes@);
        let ghost ic = index_counts(file.meshes@);
        proof {
            assert(vc.take(0) =~= Seq::<nat>::empty());
            assert(ic.take(0) =~= Seq::<nat>::empty());
            assert(file_vertex_counts(fs)[fi] == sum(vc));
            assert(file_index_counts(fs)[fi] == sum(ic));
        }
        while m < file.meshes.len()
            invariant
                *file == fs[fi],
                0 <= fi < fs.len(),
                vc == vertex_counts(file.meshes@),
                ic == index_counts(file.meshes@),
                m <= file.meshes.len(),
                m_start == sum(material_counts(fs).take(fi)),
                forall|mm: int|
                    0 <= mm < file.meshes.len() && (#[trigger] file.meshes[mm]).material_id is Some
                        ==> file.meshes[mm].material_id->0 + m_start <= usize::MAX,
                sum(file_vertex_counts(fs).take(fi)) + sum(vc) <= u64::MAX,
                sum(file_index_counts(fs).take(fi)) + sum(ic) <= u64::MAX,
                vtx == sum(file_vertex_counts(fs).take(fi)) + sum(vc.take(m as int)),
                idx == sum(file_index_counts(fs).take(fi)) + sum(ic.take(m as int)),
                meshes.len() == m,
                forall|mm: int| 0 <= mm < m ==> mesh_placed(fs, fi, mm, #[trigger] meshes[mm]),
            decreases file.meshes.len() - m,
        {
            let s = &file.meshes[m];
            proof {
                lemma_sum_take_step(vc, m as int);
                lemma_sum_take_step(ic, m as int);
                lemma_sum_take_le(vc, m + 1, vc.len() as int);
                lemma_sum_take_le(ic, m + 1, ic.len() as int);
            }
            let material_index = match s.material_id {
                Some(id) => id + m_start,
                None => 0,
            };
            let ghost before = meshes@;
            meshes.push(
                IndirectMesh {
                    name: s.name.clone(),
                    vtx_start: vtx,
                    idx_start: idx,
                    material_index,
                    num_elements: s.num_elements,
                    num_vertices: s.num_vertices,
                },
            );
            vtx = vtx + s.num_vertices as u64;
            idx = idx + s.num_elements as u64;
            proof {
                assert forall|mm: int| 0 <= mm <= m implies mesh_placed(fs, fi, mm, #[trigger] meshes[mm]) by {
                    if mm < m {
                        assert(meshes[mm] == before[mm]);
                    }
                }
            }
            m = m + 1;
        }
        proof {
            assert(vc.take(vc.len() as int) =~= vc);
            assert(ic.take(ic.len() as int) =~= ic);
        }
        vtx_offset = vtx;
        idx_offset = idx;
        let ghost before = models@;
        models.push(IndirectModel { meshes });
        proof {
            assert forall|ff: int, mm: int|
                0 <= ff <= fi && 0 <= mm < files[ff].meshes.len() implies mesh_placed(fs, ff, mm, #[trigger] models[ff].meshes[mm]) by {
                if ff < fi {
                    assert(models[ff] == before[ff]);
                }
            }
            assert forall|ff: int| 0 <= ff <= fi implies (#[trigger] models[ff]).meshes.len() == files[ff].meshes.len() by {
                if ff < fi {
                    assert(models[ff] == before[ff]);
                }
            }
        }
        f = f + 1;
    }
    proof {
        assert(material_counts(fs).take(fs.len() as int) =~= material_counts(fs));
    }
    (materials, models)
}

} // verus!
