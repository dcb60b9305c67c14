use just::assets::{AssetFile, AssetManager, AssetState, AssetStorage, AssetSystem};
use std::cell::RefCell;

fn file(path: &str, data: &[u8]) -> AssetFile {
    AssetFile { path: path.to_owned(), data: data.to_vec() }
}

fn resources() -> AssetManager {
    let files = vec![
        file("res/cow.obj", b"cow mesh"),
        file("res/grass.png", b"grass"),
        file("res/floor.obj", b"floor mesh"),
        file("res/creature.png", b"creature picture"),
    ];
    match AssetSystem::initialize(files) {
        Ok(m) => m,
        Err(p) => panic!("refused {}", p),
    }
}

#[test]
fn initialize_groups_files_by_extension_in_order() {
    let manager = resources();
    assert_eq!(manager.get_entries("obj"), Some(vec!["res/cow.obj".to_owned(), "res/floor.obj".to_owned()]));
    assert_eq!(manager.get_entries("png"), Some(vec!["res/grass.png".to_owned(), "res/creature.png".to_owned()]));
    assert_eq!(manager.get_entries("wav"), None);
}

#[test]
fn initialize_refuses_the_first_path_without_extension() {
    let files = vec![file("res/cow.obj", b""), file("res/README", b""), file("res/LICENSE", b"")];
    match AssetSystem::initialize(files) {
        Ok(_) => panic!("a path without extension was accepted"),
        Err(p) => assert_eq!(p, "res/README"),
    }
}

#[test]
fn initialize_with_no_files() {
    let manager = AssetSystem::initialize(Vec::new()).unwrap_or_else(|_| panic!("refused"));
    assert_eq!(manager.get_entries("obj"), None);
}

#[test]
fn add_file_files_under_the_extension() {
    let mut manager = AssetManager::new();
    assert!(manager.add_file("a/b.c/mesh.obj".to_owned(), vec![1, 2]));
    assert!(!manager.add_file("a/b.c/mesh".to_owned(), vec![3]));
    assert!(manager.add_file("other.obj".to_owned(), vec![4]));
    assert_eq!(manager.get_entries("obj"), Some(vec!["a/b.c/mesh.obj".to_owned(), "other.obj".to_owned()]));
    assert_eq!(manager.get_entries("c/mesh"), None);
}

#[test]
fn process_extension_hands_out_every_file_once() {
    let mut manager = resources();
    let seen = RefCell::new(Vec::new());
    manager.process_extension("obj", |path: &String, data: &[u8]| {
        seen.borrow_mut().push((path.clone(), data.to_vec()));
        true
    });
    assert_eq!(
        seen.into_inner(),
        vec![("res/cow.obj".to_owned(), b"cow mesh".to_vec()), ("res/floor.obj".to_owned(), b"floor mesh".to_vec())]
    );
    assert_eq!(manager.get_entries("obj"), Some(Vec::new()));
    assert_eq!(manager.get_entries("png").map(|v| v.len()), Some(2));

    let calls = RefCell::new(0);
    manager.process_extension("obj", |_: &String, _: &[u8]| {
        *calls.borrow_mut() += 1;
        true
    });
    manager.process_extension("wav", |_: &String, _: &[u8]| {
        *calls.borrow_mut() += 1;
        true
    });
    assert_eq!(calls.into_inner(), 0);
}

#[test]
fn empty_storage_knows_every_name_offline() {
    let manager = resources();
    let storage: AssetStorage<usize> = AssetStorage::empty(&manager, &["obj"]);
    let cow = storage.get_handle("cow").unwrap();
    let floor = storage.get_handle("floor").unwrap();
    assert!(cow != floor);
    assert_eq!(storage.get_value(&cow), None);
    assert_eq!(storage.get_value(&floor), None);
    assert!(storage.get_handle("grass").is_none());
    assert!(storage.get_handle("cow.obj").is_none());
}

#[test]
fn process_loads_values_behind_known_handles() {
    let mut manager = resources();
    let mut storage: AssetStorage<usize> = AssetStorage::empty(&manager, &["obj", "png"]);
    let cow = storage.get_handle("cow").unwrap();
    let grass = storage.get_handle("grass").unwrap();

    storage.process(&mut manager, "obj", |data: &[u8]| (data.len(), true));
    assert_eq!(storage.get_value(&cow), Some(&8));
    assert_eq!(storage.get_value(&storage.get_handle("floor").unwrap()), Some(&10));
    assert_eq!(storage.get_value(&grass), None);
    assert!(storage.get_handle("cow") == Some(cow));
    assert_eq!(manager.get_entries("obj"), Some(Vec::new()));

    storage.process(&mut manager, "png", |data: &[u8]| (data.len() * 2, false));
    assert_eq!(storage.get_value(&grass), Some(&10));
    assert_eq!(storage.get_value(&storage.get_handle("creature").unwrap()), Some(&32));
}

#[test]
fn process_gives_new_names_new_handles() {
    let mut manager = resources();
    let mut storage: AssetStorage<String> = AssetStorage::empty(&manager, &["png"]);
    assert!(storage.get_handle("cow").is_none());
    storage.process(&mut manager, "obj", |data: &[u8]| (String::from_utf8(data.to_vec()).unwrap(), true));
    let cow = storage.get_handle("cow").unwrap();
    let floor = storage.get_handle("floor").unwrap();
    assert!(cow != floor);
    assert!(cow != storage.get_handle("grass").unwrap());
    assert_eq!(storage.get_value(&cow), Some(&"cow mesh".to_owned()));
    assert_eq!(storage.get_value(&floor), Some(&"floor mesh".to_owned()));
}

#[test]
fn repeated_name_keeps_the_later_file() {
    let files = vec![file("a/rock.obj", b"1"), file("b/rock.obj", b"22")];
    let mut manager = AssetSystem::initialize(files).unwrap_or_else(|_| panic!("refused"));
    let mut storage: AssetStorage<usize> = AssetStorage::empty(&manager, &["obj"]);
    let rock = storage.get_handle("rock").unwrap();
    storage.process(&mut manager, "obj", |data: &[u8]| (data.len(), true));
    assert!(storage.get_handle("rock") == Some(rock));
    assert_eq!(storage.get_value(&rock), Some(&2));
}

#[test]
fn handles_copy_and_compare_by_id() {
    let manager = resources();
    let storage: AssetStorage<u8> = AssetStorage::empty(&manager, &["obj", "png"]);
    let cow = storage.get_handle("cow").unwrap();
    let copy = cow;
    let cloned = cow.clone();
    assert!(copy == cow);
    assert!(cloned == cow);
    assert!(storage.get_handle("creature").unwrap() != cow);
}

#[test]
fn asset_states_are_distinct() {
    let loaded: AssetState<u8> = AssetState::Loaded(3);
    assert!(matches!(loaded, AssetState::Loaded(3)));
    assert!(matches!(AssetState::<u8>::Offline, AssetState::Offline));
    assert!(matches!(AssetState::<u8>::Queued, AssetState::Queued));
}
