//! Assembly of the triangles of a scene from the index data of its meshes.
use vstd::prelude::*;
use crate::objects::MaterialKind;

verus! {

/// What scene assembly reads of one triangulated mesh: how many vertex and
/// normal coordinates it has (three per vertex or normal), the vertex and
/// normal indices of its triangles (three per triangle), and its material.
#[derive(Debug)]
pub struct MeshIndices {
    /// Number of vertex coordinates of the mesh.
    pub n_positions: usize,
    /// Number of normal coordinates of the mesh.
    pub n_normals: usize,
    /// Vertex indices, three per triangle.
    pub indices: Vec<u32>,
    /// Normal indices, three per triangle.
    pub normal_indices: Vec<u32>,
    /// Index of the mesh's material in the scene's material list.
    pub material_id: Option<usize>,
}

/// A triangle of the scene, given by the mesh it belongs to, the indices of
/// its three vertices and three normals within that mesh, and its material.
#[derive(Debug, Clone, Copy, PartialEq, Eq, Structural)]
pub struct TriangleIndices {
    pub model: usize,
    pub v1: usize,
    pub v2: usize,
    pub v3: usize,
    pub n1: usize,
    pub n2: usize,
    pub n3: usize,
    pub material: usize,
}

/// The triangles of a scene, and among them, in the same order, those made of
/// a light emitting material.
#[derive(Debug)]
pub struct SceneLayout {
    pub triangles: Vec<TriangleIndices>,
    pub light_sources: Vec<TriangleIndices>,
}

/// Number of groups of three that `len` values fall into, the last group
/// possibly incomplete.
pub open spec fn group_count(len: int) -> int {
    (len + 2) / 3
}

/// Number of triangles of a mesh: vertex index groups and normal index groups
/// are taken in pairs, as far as both go.
pub open spec fn spec_triangle_count(mesh: MeshIndices) -> int {
    let a = group_count(mesh.indices@.len() as int);
    let b = group_count(mesh.normal_indices@.len() as int);
    if a <= b {
        a
    } else {
        b
    }
}

/// Whether a mesh can be assembled against a list of `n_materials` materials:
/// whole vertices and normals, whole index groups for every triangle, indices
/// that name existing vertices and normals, and an existing material for a
/// mesh that has triangles.
pub open spec fn mesh_is_valid(mesh: MeshIndices, n_materials: int) -> bool {
    let t = spec_triangle_count(mesh);
    &&& mesh.n_positions % 3 == 0
    &&& mesh.n_normals % 3 == 0
    &&& 3 * t <= mesh.indices@.len()
    &&& 3 * t <= mesh.normal_indices@.len()
    &&& forall|k: int| 0 <= k < 3 * t ==> #[trigger] mesh.indices@[k] < mesh.n_positions / 3
    &&& forall|k: int| 0 <= k < 3 * t ==> #[trigger] mesh.normal_indices@[k] < mesh.n_normals / 3
    &&& t > 0 ==> (mesh.material_id is Some && mesh.material_id->0 < n_materials)
}

/// Whether every mesh of a scene can be assembled.
pub open spec fn scene_is_valid(models: Seq<MeshIndices>, n_materials: int) -> bool {
    forall|i: int| 0 <= i < models.len() ==> mesh_is_valid(#[trigger] models[i], n_materials)
}

/// Triangle `k` of mesh number `model`.
pub open spec fn spec_triangle(mesh: MeshIndices, model: int, k: int) -> TriangleIndices {
    TriangleIndices {
        model: model as usize,
        v1: mesh.indices@[3 * k] as usize,
        v2: mesh.indices@[3 * k + 1] as usize,
        v3: mesh.indices@[3 * k + 2] as usize,
        n1: mesh.normal_indices@[3 * k] as usize,
        n2: mesh.normal_indices@[3 * k + 1] as usize,
        n3: mesh.normal_indices@[3 * k + 2] as usize,
        material: mesh.material_id->0,
    }
}

/// The triangles of mesh number `model`, in order.
pub open spec fn mesh_triangles(mesh: MeshIndices, model: int) -> Seq<TriangleIndices> {
    Seq::new(spec_triangle_count(mesh) as nat, |k: int| spec_triangle(mesh, model, k))
}

/// The triangles of all meshes, mesh after mesh.
pub open spec fn scene_triangles(models: Seq<MeshIndices>) -> Seq<TriangleIndices>
    decreases models.len(),
{
    if models.len() == 0 {
        Seq::empty()
    } else {
        scene_triangles(models.drop_last()) + mesh_triangles(models.last(), models.len() - 1)
    }
}

/// Number of triangles of the first `i` meshes: where the triangles of mesh
/// `i` start among the triangles of the scene.
pub open spec fn triangles_before(models: Seq<MeshIndices>, i: int) -> int
    decreases i,
{
    if i <= 0 {
        0
    } else {
        triangles_before(models, i - 1) + spec_triangle_count(models[i - 1])
    }
}

/// Position of triangle `k` of mesh `i` among the triangles of the scene.
pub open spec fn scene_position(models: Seq<MeshIndices>, i: int, k: int) -> int {
    triangles_before(models, i) + k
}

proof fn lemma_triangles_before_prefix(models: Seq<MeshIndices>, n: int, i: int)
    requires
        0 <= i <= n <= models.len(),
    ensures
        triangles_before(models.take(n), i) == triangles_before(models, i),
    decreases i,
{
    if i > 0 {
        lemma_triangles_before_prefix(models, n, i - 1);
        assert(models.take(n)[i - 1] == models[i - 1]);
    }
}

proof fn lemma_triangles_before_grows(models: Seq<MeshIndices>, i: int, j: int)
    requires
        0 <= i <= j <= models.len(),
    ensures
        triangles_before(models, i) <= triangles_before(models, j),
        0 <= triangles_before(models, i),
    decreases j,
{
    if j > 0 {
        if i < j {
            lemma_triangles_before_grows(models, i, j - 1);
        } else {
            lemma_triangles_before_grows(models, i - 1, j - 1);
        }
    }
}

/// The triangles of a scene are those of its meshes in mesh order: there are
/// as many as the meshes have together, and triangle `k` of mesh `i` stands at
/// [`scene_position`]`(i, k)`. It belongs to mesh `i`; its vertices are the
/// vertex indices at `3k`, `3k + 1` and `3k + 2` of the mesh, and its normals,
/// in the same order, the normal indices at `3k`, `3k + 1` and `3k + 2`; its
/// material is the mesh's.
pub proof fn lemma_scene_triangle_at(models: Seq<MeshIndices>, i: int, k: int)
    requires
        0 <= i < models.len() <= usize::MAX,
        0 <= k < spec_triangle_count(models[i]),
        3 * spec_triangle_count(models[i]) <= models[i].indices@.len(),
        3 * spec_triangle_count(models[i]) <= models[i].normal_indices@.len(),
    ensures
        scene_triangles(models).len() == triangles_before(models, models.len() as int),
        0 <= scene_position(models, i, k) < scene_triangles(models).len(),
        scene_triangles(models)[scene_position(models, i, k)].model == i,
        scene_triangles(models)[scene_position(models, i, k)].v1 == models[i].indices@[3 * k] as usize,
        scene_triangles(models)[scene_position(models, i, k)].v2 == models[i].indices@[3 * k + 1] as usize,
        scene_triangles(models)[scene_position(models, i, k)].v3 == models[i].indices@[3 * k + 2] as usize,
        scene_triangles(models)[scene_position(models, i, k)].n1 == models[i].normal_indices@[3 * k] as usize,
        scene_triangles(models)[scene_position(models, i, k)].n2 == models[i].normal_indices@[3 * k + 1] as usize,
        scene_triangles(models)[scene_position(models, i, k)].n3 == models[i].normal_indices@[3 * k + 2] as usize,
        scene_triangles(models)[scene_position(models, i, k)].material == models[i].material_id->0,
    decreases models.len(),
{
    lemma_scene_triangles_len(models);
    let rest = models.drop_last();
    let last = models.len() - 1;
    lemma_triangles_before_prefix(models, last, i);
    assert(rest =~= models.take(last));
    if i < last {
        lemma_scene_triangle_at(rest, i, k);
        assert(rest[i] == models[i]);
    } else {
        lemma_scene_triangles_len(rest);
        lemma_triangles_before_prefix(models, last, last);
    }
}

proof fn lemma_scene_triangles_len(models: Seq<MeshIndices>)
    ensures
        scene_triangles(models).len() == triangles_before(models, models.len() as int),
        triangles_before(models, models.len() as int) >= 0,
    decreases models.len(),
{
    lemma_triangles_before_grows(models, 0, models.len() as int);
    if models.len() > 0 {
        let rest = models.drop_last();
        lemma_scene_triangles_len(rest);
        lemma_triangles_before_prefix(models, models.len() - 1, models.len() - 1);
        assert(rest =~= models.take(models.len() - 1));
    }
}

/// Whether a triangle is made of a light emitting material.
pub open spec fn emits_light(materials: Seq<MaterialKind>) -> spec_fn(TriangleIndices) -> bool {
    |t: TriangleIndices| materials[t.material as int] == MaterialKind::DiffuseLightSource
}

impl MeshIndices {
    /// Number of triangles of the mesh.
    pub fn triangle_count(&self) -> (count: usize)
        ensures
            count == spec_triangle_count(*self),
    {
        let li: usize = self.indices.len();
        let ln: usize = self.normal_indices.len();
        let a: usize = li / 3 + if li % 3 == 0 { 0 } else { 1 };
        let b: usize = ln / 3 + if ln % 3 == 0 { 0 } else { 1 };
        if a <= b {
            a
        } else {
            b
        }
    }

    /// Whether the mesh can be assembled against `n_materials` materials.
    pub fn is_valid(&self, n_materials: usize) -> (valid: bool)
        ensures
            valid == mesh_is_valid(*self, n_materials as int),
    {
        let t: usize = self.triangle_count();
        if self.n_positions % 3 != 0 || self.n_normals % 3 != 0 {
            return false;
        }
        if t > self.indices.len() / 3 || t > self.normal_indices.len() / 3 {
            return false;
        }
        let n_vertices: usize = self.n_positions / 3;
        let n_normals: usize = self.n_normals / 3;
        let limit: usize = 3 * t;
        let mut k: usize = 0;
        while k < limit
            invariant
                t == spec_triangle_count(*self),
                3 * t <= self.indices@.len(),
                3 * t <= self.normal_indices@.len(),
                n_vertices == self.n_positions / 3,
                n_normals == self.n_normals / 3,
                limit == 3 * t,
                k <= limit,
                forall|j: int| 0 <= j < k ==> #[trigger] self.indices@[j] < n_vertices,
                forall|j: int| 0 <= j < k ==> #[trigger] self.normal_indices@[j] < n_normals,
            decreases limit - k,
        {
            if self.indices[k] as usize >= n_vertices || self.normal_indices[k] as usize >= n_normals {
                return false;
            }
            k = k + 1;
        }
        if t > 0 {
            match self.material_id {
                Some(id) => id < n_materials,
                None => false,
            }
        } else {
            true
        }
    }
}

/// Whether every mesh of a scene can be assembled against `n_materials` materials.
pub fn scene_is_valid_exec(models: &Vec<MeshIndices>, n_materials: usize) -> (valid: bool)
    ensures
        valid == scene_is_valid(models@, n_materials as int),
{
    let mut i: usize = 0;
    while i < models.len()
        invariant
            i <= models.len(),
            forall|j: int| 0 <= j < i ==> mesh_is_valid(#[trigger] models@[j], n_materials as int),
        decreases models.len() - i,
    {
        if !models[i].is_valid(n_materials) {
            return false;
        }
        i = i + 1;
    }
    true
}


proof fn lemma_scene_triangles_step(models: Seq<MeshIndices>, i: int)
    requires
        0 <= i < models.len(),
    ensures
        scene_triangles(models.take(i + 1)) == scene_triangles(models.take(i)) + mesh_triangles(
            models[i],
            i,
        ),
{
    assert(models.take(i + 1).drop_last() =~= models.take(i));
}

proof fn lemma_filter_push(s: Seq<TriangleIndices>, t: TriangleIndices, pred: spec_fn(TriangleIndices) -> bool)
    ensures
        s.push(t).filter(pred) == if pred(t) {
            s.filter(pred).push(t)
        } else {
            s.filter(pred)
        },
{
    reveal(Seq::filter);
    assert(s.push(t).drop_last() =~= s);
}

/// Whether a triangle names an existing mesh, vertices and normals of that
/// mesh, and an existing material.
pub open spec fn triangle_in_range(t: TriangleIndices, models: Seq<MeshIndices>, n_materials: int) -> bool {
    &&& t.model < models.len()
    &&& t.v1 < models[t.model as int].n_positions / 3
    &&& t.v2 < models[t.model as int].n_positions / 3
    &&& t.v3 < models[t.model as int].n_positions / 3
    &&& t.n1 < models[t.model as int].n_normals / 3
    &&& t.n2 < models[t.model as int].n_normals / 3
    &&& t.n3 < models[t.model as int].n_normals / 3
    &&& t.material < n_materials
}

/// The triangles of a scene whose meshes can be assembled name existing
/// meshes, vertices, normals and materials.
pub proof fn lemma_scene_triangles_in_range(models: Seq<MeshIndices>, n_materials: int)
    requires
        scene_is_valid(models, n_materials),
        models.len() <= usize::MAX,
    ensures
        forall|k: int|
            0 <= k < scene_triangles(models).len() ==> triangle_in_range(
                #[trigger] scene_triangles(models)[k],
                models,
                n_materials,
            ),
    decreases models.len(),
{
    if models.len() > 0 {
        let rest = models.drop_last();
        let last = models.len() - 1;
        assert(scene_is_valid(rest, n_materials)) by {
            assert forall|i: int| 0 <= i < rest.len() implies mesh_is_valid(#[trigger] rest[i], n_materials) by {
                assert(rest[i] == models[i]);
            }
        }
        lemma_scene_triangles_in_range(rest, n_materials);
        let earlier = scene_triangles(rest);
        let mesh = models[last];
        assert(mesh_is_valid(mesh, n_materials));
        assert forall|k: int| 0 <= k < scene_triangles(models).len() implies triangle_in_range(
            #[trigger] scene_triangles(models)[k],
            models,
            n_materials,
        ) by {
            if k < earlier.len() {
                assert(scene_triangles(models)[k] == earlier[k]);
                assert(triangle_in_range(earlier[k], rest, n_materials));
                assert(rest[earlier[k].model as int] == models[earlier[k].model as int]);
            } else {
                let j = k - earlier.len();
                assert(scene_triangles(models)[k] == mesh_triangles(mesh, last)[j]);
                let t = spec_triangle_count(mesh);
                assert(0 <= j < t);
                assert(0 <= 3 * j && 3 * j + 2 < 3 * t);
                assert(mesh.indices@[3 * j] < mesh.n_positions / 3);
                assert(mesh.indices@[3 * j + 1] < mesh.n_positions / 3);
                assert(mesh.indices@[3 * j + 2] < mesh.n_positions / 3);
                assert(mesh.normal_indices@[3 * j] < mesh.n_normals / 3);
                assert(mesh.normal_indices@[3 * j + 1] < mesh.n_normals / 3);
                assert(mesh.normal_indices@[3 * j + 2] < mesh.n_normals / 3);
                assert(mesh.material_id is Some && mesh.material_id->0 < n_materials);
                let tri = mesh_triangles(mesh, last)[j];
                assert(tri == spec_triangle(mesh, last, j));
                assert(tri.model == last);
                assert(models[tri.model as int] == mesh);
            }
        }
    }
}

/// The light sources of a scene are exactly its triangles whose material is
/// a light source, whatever that material's place in the material list.
pub proof fn lemma_light_sources_are_the_light_triangles(models: Seq<MeshIndices>, materials: Seq<MaterialKind>)
    ensures
        forall|t: TriangleIndices|
            #[trigger] scene_triangles(models).filter(emits_light(materials)).contains(t) <==> (scene_triangles(
                models,
            ).contains(t) && materials[t.material as int] == MaterialKind::DiffuseLightSource),
{
    let all = scene_triangles(models);
    let lit = emits_light(materials);
    assert forall|t: TriangleIndices| #[trigger] all.filter(lit).contains(t) <==> (all.contains(t)
        && materials[t.material as int] == MaterialKind::DiffuseLightSource) by {
        if all.filter(lit).contains(t) {
            all.lemma_filter_contains_rev(lit, t);
            let j = choose|j: int| 0 <= j < all.filter(lit).len() && all.filter(lit)[j] == t;
            all.lemma_filter_pred(lit, j);
        }
        if all.contains(t) && materials[t.material as int] == MaterialKind::DiffuseLightSource {
            let j = choose|j: int| 0 <= j < all.len() && all[j] == t;
            all.lemma_filter_contains(lit, j);
        }
    }
}

/// Assembles the triangles of a scene: the triangles of every mesh in mesh
/// order, each with the indices of its vertices and normals within its mesh
/// and the mesh's material, and, in the same order, those whose material
/// emits light.
pub fn assemble_scene(models: &Vec<MeshIndices>, materials: &Vec<MaterialKind>) -> (layout: SceneLayout)
    requires
        scene_is_valid(models@, materials@.len() as int),
    ensures
        layout.triangles@ == scene_triangles(models@),
        layout.light_sources@ == scene_triangles(models@).filter(emits_light(materials@)),
        layout.triangles@.len() == triangles_before(models@, models@.len() as int),
        forall|i: int, k: int|
            0 <= i < models@.len() && 0 <= k < spec_triangle_count(models@[i]) ==> #[trigger] layout.triangles@[scene_position(
                models@,
                i,
                k,
            )] == (TriangleIndices {
                model: i as usize,
                v1: models@[i].indices@[3 * k] as usize,
                v2: models@[i].indices@[3 * k + 1] as usize,
                v3: models@[i].indices@[3 * k + 2] as usize,
                n1: models@[i].normal_indices@[3 * k] as usize,
                n2: models@[i].normal_indices@[3 * k + 1] as usize,
                n3: models@[i].normal_indices@[3 * k + 2] as usize,
                material: models@[i].material_id->0,
            }),
        forall|t: TriangleIndices|
            #[trigger] layout.light_sources@.contains(t) <==> (layout.triangles@.contains(t)
                && materials@[t.material as int] == MaterialKind::DiffuseLightSource),
        forall|k: int|
            0 <= k < layout.triangles@.len() ==> triangle_in_range(
                #[trigger] layout.triangles@[k],
                models@,
                materials@.len() as int,
            ),
{
    let mut triangles: Vec<TriangleIndices> = Vec::new();
    let mut light_sources: Vec<TriangleIndices> = Vec::new();
    let mut mi: usize = 0;
    assert(models@.take(0) =~= Seq::<MeshIndices>::empty());
    while mi < models.len()
        invariant
            mi <= models.len(),
            scene_is_valid(models@, materials@.len() as int),
            triangles@ == scene_triangles(models@.take(mi as int)),
            light_sources@ == triangles@.filter(emits_light(materials@)),
        decreases models.len() - mi,
    {
        let mesh = &models[mi];
        assert(mesh_is_valid(models@[mi as int], materials@.len() as int));
        let t: usize = mesh.triangle_count();
        let ghost before = triangles@;
        if t > 0 {
            let material: usize = mesh.material_id.unwrap();
            let is_light = materials[material].is_light_source();
            let mut k: usize = 0;
            while k < t
                invariant
                    mi < models@.len(),
                    mesh == &models@[mi as int],
                    mesh_is_valid(*mesh, materials@.len() as int),
                    3 * t <= mesh.indices.len(),
                    3 * t <= mesh.normal_indices.len(),
                    t == spec_triangle_count(*mesh),
                    t > 0,
                    material == mesh.material_id->0,
                    material < materials@.len(),
                    is_light == (materials@[material as int] == MaterialKind::DiffuseLightSource),
                    k <= t,
                    triangles@ == before + mesh_triangles(*mesh, mi as int).take(k as int),
                    light_sources@ == triangles@.filter(emits_light(materials@)),
                decreases t - k,
            {
                let base: usize = 3 * k;
                let triangle = TriangleIndices {
                    model: mi,
                    v1: mesh.indices[base] as usize,
                    v2: mesh.indices[base + 1] as usize,
                    v3: mesh.indices[base + 2] as usize,
                    n1: mesh.normal_indices[base] as usize,
                    n2: mesh.normal_indices[base + 1] as usize,
                    n3: mesh.normal_indices[base + 2] as usize,
                    material,
                };
                proof {
                    assert(triangle == spec_triangle(*mesh, mi as int, k as int));
                    assert(mesh_triangles(*mesh, mi as int).take(k + 1) =~= mesh_triangles(
                        *mesh,
                        mi as int,
                    ).take(k as int).push(triangle));
                    lemma_filter_push(triangles@, triangle, emits_light(materials@));
                }
                triangles.push(triangle);
                if is_light {
                    light_sources.push(triangle);
                }
                k = k + 1;
            }
            assert(mesh_triangles(*mesh, mi as int).take(t as int) =~= mesh_triangles(*mesh, mi as int));
        } else {
            assert(mesh_triangles(*mesh, mi as int) =~= Seq::<TriangleIndices>::empty());
            assert(triangles@ =~= before + mesh_triangles(*mesh, mi as int));
        }
        proof {
            lemma_scene_triangles_step(models@, mi as int);
        }
        mi = mi + 1;
    }
    assert(models@.take(models@.len() as int) =~= models@);
    proof {
        lemma_scene_triangles_in_range(models@, materials@.len() as int);
        lemma_scene_triangles_len(models@);
        assert forall|i: int, k: int|
            0 <= i < models@.len() && 0 <= k < spec_triangle_count(models@[i]) implies #[trigger] triangles@[scene_position(
                models@,
                i,
                k,
            )] == (TriangleIndices {
                model: i as usize,
                v1: models@[i].indices@[3 * k] as usize,
                v2: models@[i].indices@[3 * k + 1] as usize,
                v3: models@[i].indices@[3 * k + 2] as usize,
                n1: models@[i].normal_indices@[3 * k] as usize,
                n2: models@[i].normal_indices@[3 * k + 1] as usize,
                n3: models@[i].normal_indices@[3 * k + 2] as usize,
                material: models@[i].material_id->0,
            }) by {
            assert(mesh_is_valid(models@[i], materials@.len() as int));
            lemma_scene_triangle_at(models@, i, k);
        }
        lemma_light_sources_are_the_light_triangles(models@, materials@);
    }
    SceneLayout { triangles, light_sources }
}

} // verus!
