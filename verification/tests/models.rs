use terrainbasic::input::input_manager::InputManager;
use terrainbasic::models::raw_model::RawModel;
use terrainbasic::rendering::loader::{Loader, MeshBuffers};

#[test]
fn raw_model_keeps_its_numbers() {
    let mut model = RawModel::new(42, 36);
    assert_eq!(model.get_vao_id(), 42);
    assert_eq!(model.get_vertex_count(), 36);
    let copy = model;
    let mut loader = Loader::default();
    assert_eq!(model.clean_model(&mut loader), None);
    assert_eq!(model, copy);
    assert_eq!(model.get_vao_id(), 42);
    assert_eq!(model.get_vertex_count(), 36);
    assert_ne!(RawModel::new(42, 36), RawModel::new(42, 35));
    assert_ne!(RawModel::new(42, 36), RawModel::new(41, 36));
}

#[test]
fn loader_records_what_is_loaded() {
    let mut loader = Loader::default();
    let mut first = loader.load_to_vao(
        MeshBuffers { vao_id: 1, index_vbo: 2, vertex_vbo: 3 },
        &vec![0, 1, 2, 3, 4, 5],
    );
    let mut second =
        loader.load_to_vao(MeshBuffers { vao_id: 4, index_vbo: 5, vertex_vbo: 6 }, &Vec::new());
    assert_eq!(first.get_vao_id(), 1);
    assert_eq!(first.get_vertex_count(), 6);
    assert_eq!(second.get_vao_id(), 4);
    assert_eq!(second.get_vertex_count(), 0);
    let released = loader.clean_up();
    assert_eq!(released.vaos, vec![1, 4]);
    assert_eq!(released.vbos, vec![2, 3, 5, 6]);
    assert!(released.textures.is_empty());
}

#[test]
fn loader_hands_everything_out_once() {
    let mut loader = Loader::default();
    let nothing = loader.clean_up();
    assert!(nothing.vaos.is_empty() && nothing.vbos.is_empty() && nothing.textures.is_empty());
    loader.load_to_vao(MeshBuffers { vao_id: 9, index_vbo: 8, vertex_vbo: 7 }, &vec![0, 1, 2]);
    let once = loader.clean_up();
    assert_eq!(once.vaos, vec![9]);
    assert_eq!(once.vbos, vec![8, 7]);
    let twice = loader.clean_up();
    assert!(twice.vaos.is_empty() && twice.vbos.is_empty() && twice.textures.is_empty());
}

#[test]
fn keys_are_held_between_press_and_release() {
    let mut input = InputManager::new();
    assert!(!input.poll_key(17));
    input.register_key_press(17);
    input.register_key_press(30);
    assert!(input.poll_key(17));
    assert!(input.poll_key(30));
    assert!(!input.poll_key(31));
    input.register_key_press(17);
    assert!(input.poll_key(17));
    input.register_key_release(17);
    assert!(!input.poll_key(17));
    assert!(input.poll_key(30));
    input.register_key_release(17);
    input.register_key_release(99);
    assert!(!input.poll_key(17));
    assert!(!input.poll_key(99));
    assert!(input.poll_key(30));
}

#[test]
fn a_model_is_released_once() {
    let mut loader = Loader::default();
    for handle in [10u32, 20, 30] {
        loader.load_to_vao(
            MeshBuffers { vao_id: handle, index_vbo: handle + 1, vertex_vbo: handle + 2 },
            &vec![0, 1, 2],
        );
    }
    assert_eq!(
        loader.release_model(20),
        Some(MeshBuffers { vao_id: 20, index_vbo: 21, vertex_vbo: 22 })
    );
    assert_eq!(loader.release_model(20), None);
    assert_eq!(loader.release_model(21), None);
    let rest = loader.clean_up();
    assert_eq!(rest.vaos, vec![10, 30]);
    assert_eq!(rest.vbos, vec![11, 12, 31, 32]);
    assert_eq!(loader.release_model(10), None);
}

#[test]
fn the_first_of_equal_handles_is_released() {
    let mut loader = Loader::default();
    loader.load_to_vao(MeshBuffers { vao_id: 5, index_vbo: 1, vertex_vbo: 2 }, &Vec::new());
    loader.load_to_vao(MeshBuffers { vao_id: 5, index_vbo: 3, vertex_vbo: 4 }, &Vec::new());
    assert_eq!(
        loader.release_model(5),
        Some(MeshBuffers { vao_id: 5, index_vbo: 1, vertex_vbo: 2 })
    );
    assert_eq!(
        loader.release_model(5),
        Some(MeshBuffers { vao_id: 5, index_vbo: 3, vertex_vbo: 4 })
    );
    assert_eq!(loader.release_model(5), None);
}

#[test]
fn cleaning_a_model_releases_its_mesh_once() {
    let mut loader = Loader::default();
    let mut first =
        loader.load_to_vao(MeshBuffers { vao_id: 3, index_vbo: 30, vertex_vbo: 31 }, &vec![0, 1, 2]);
    let mut second =
        loader.load_to_vao(MeshBuffers { vao_id: 5, index_vbo: 50, vertex_vbo: 51 }, &vec![0, 1, 2]);
    let copy = second;
    assert_eq!(
        second.clean_model(&mut loader),
        Some(MeshBuffers { vao_id: 5, index_vbo: 50, vertex_vbo: 51 })
    );
    assert_eq!(second, copy);
    assert_eq!(second.clean_model(&mut loader), None);
    assert_eq!(
        first.clean_model(&mut loader),
        Some(MeshBuffers { vao_id: 3, index_vbo: 30, vertex_vbo: 31 })
    );
    assert_eq!(first.clean_model(&mut loader), None);
    let rest = loader.clean_up();
    assert!(rest.vaos.is_empty() && rest.vbos.is_empty());
}

#[test]
fn cleaning_a_model_leaves_the_other_records() {
    let mut loader = Loader::default();
    for handle in [10u32, 20, 30] {
        loader.load_to_vao(
            MeshBuffers { vao_id: handle, index_vbo: handle + 1, vertex_vbo: handle + 2 },
            &Vec::new(),
        );
    }
    let mut unknown = RawModel::new(99, 0);
    assert_eq!(unknown.clean_model(&mut loader), None);
    let mut middle = RawModel::new(20, 0);
    assert_eq!(
        middle.clean_model(&mut loader),
        Some(MeshBuffers { vao_id: 20, index_vbo: 21, vertex_vbo: 22 })
    );
    let rest = loader.clean_up();
    assert_eq!(rest.vaos, vec![10, 30]);
    assert_eq!(rest.vbos, vec![11, 12, 31, 32]);
}
