use rusty_ray_tracer::objects::MaterialKind;
use rusty_ray_tracer::scene::{assemble_scene, scene_is_valid_exec, MeshIndices, TriangleIndices};

fn quad(material_id: Option<usize>) -> MeshIndices {
    MeshIndices {
        n_positions: 12,
        n_normals: 3,
        indices: vec![0, 1, 2, 0, 2, 3],
        normal_indices: vec![0, 0, 0, 0, 0, 0],
        material_id,
    }
}

#[test]
fn triangles_are_assembled_mesh_by_mesh() {
    let models = vec![quad(Some(1)), quad(Some(0))];
    let materials = vec![MaterialKind::Diffuse, MaterialKind::DiffuseLightSource];
    assert!(scene_is_valid_exec(&models, materials.len()));
    let layout = assemble_scene(&models, &materials);
    assert_eq!(layout.triangles.len(), 4);
    assert_eq!(
        layout.triangles[1],
        TriangleIndices { model: 0, v1: 0, v2: 2, v3: 3, n1: 0, n2: 0, n3: 0, material: 1 }
    );
    assert_eq!(
        layout.triangles[2],
        TriangleIndices { model: 1, v1: 0, v2: 1, v3: 2, n1: 0, n2: 0, n3: 0, material: 0 }
    );
    assert_eq!(layout.light_sources, layout.triangles[0..2].to_vec());
}

#[test]
fn triangle_count_follows_the_shorter_index_list() {
    let mesh = MeshIndices {
        n_positions: 9,
        n_normals: 9,
        indices: vec![0, 1, 2, 2, 1, 0, 1],
        normal_indices: vec![0, 1, 2, 0, 1, 2],
        material_id: Some(0),
    };
    assert_eq!(mesh.triangle_count(), 2);
    assert!(mesh.is_valid(1));
    let layout = assemble_scene(&vec![mesh], &vec![MaterialKind::Diffuse]);
    assert_eq!(layout.triangles.len(), 2);
    assert!(layout.light_sources.is_empty());
}

#[test]
fn incomplete_index_groups_are_refused() {
    let mesh = MeshIndices {
        n_positions: 9,
        n_normals: 9,
        indices: vec![0, 1, 2, 2, 1],
        normal_indices: vec![0, 1, 2, 0, 1, 2],
        material_id: Some(0),
    };
    assert_eq!(mesh.triangle_count(), 2);
    assert!(!mesh.is_valid(1));
}

#[test]
fn incomplete_vertices_are_refused() {
    let mut mesh = quad(Some(0));
    mesh.n_positions = 13;
    assert!(!mesh.is_valid(1));
    let mut mesh = quad(Some(0));
    mesh.n_normals = 4;
    assert!(!mesh.is_valid(1));
}

#[test]
fn indices_beyond_the_vertices_are_refused() {
    let mut mesh = quad(Some(0));
    mesh.indices[5] = 4;
    assert!(!mesh.is_valid(1));
    let mut mesh = quad(Some(0));
    mesh.normal_indices[0] = 1;
    assert!(!mesh.is_valid(1));
}

#[test]
fn meshes_with_triangles_need_a_material() {
    assert!(!quad(None).is_valid(1));
    assert!(!quad(Some(1)).is_valid(1));
    let empty = MeshIndices {
        n_positions: 0,
        n_normals: 0,
        indices: vec![],
        normal_indices: vec![],
        material_id: None,
    };
    assert!(empty.is_valid(0));
    assert!(!scene_is_valid_exec(&vec![empty, quad(None)], 1));
}
