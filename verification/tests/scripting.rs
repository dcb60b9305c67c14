use just::game::{GameLogic, Input};
use just::hierarchy::Entity;
use just::resources::{MockResourceManager, ResourceProvider};
use just::scripting::{JsEngineConfig, RuntimeError, ScriptCreationQueue, TypeCreationError};

#[test]
fn queued_scripts_come_out_in_order_once() {
    let mut queue = ScriptCreationQueue::new();
    queue.push(Entity { index: 4 }, "Player".to_owned());
    queue.push(Entity { index: 1 }, "Door".to_owned());
    queue.push(Entity { index: 4 }, "Door".to_owned());
    let taken = queue.take_all();
    let got: Vec<(usize, String)> = taken.into_iter().map(|d| (d.object.index, d.script_type)).collect();
    assert_eq!(got, vec![(4, "Player".to_owned()), (1, "Door".to_owned()), (4, "Door".to_owned())]);
    assert!(queue.q.is_empty());
    assert!(queue.take_all().is_empty());
}

#[test]
fn engine_config_holds_its_settings() {
    let config = JsEngineConfig { source_root: "scripts".to_owned(), v8_args: vec!["--harmony".to_owned()] };
    assert_eq!(config.source_root, "scripts");
    assert_eq!(config.v8_args.len(), 1);
}

#[test]
fn errors_compare_by_variant() {
    assert_eq!(TypeCreationError::TypeAlreadyRegistered, TypeCreationError::TypeAlreadyRegistered);
    assert_ne!(TypeCreationError::TypeAlreadyRegistered, TypeCreationError::TypeNotRegistered);
    let e = RuntimeError::ComponentNotPresent;
    let copy = e;
    assert_eq!(copy, RuntimeError::ComponentNotPresent);
    assert_ne!(RuntimeError::NotEnoughParameters, RuntimeError::WrongTypeParameter);
    assert_eq!(format!("{:?}", RuntimeError::ExpectedParameterNotPresent), "ExpectedParameterNotPresent");
}

#[test]
fn mock_resources_find_nothing() {
    let rm = MockResourceManager {};
    assert_eq!(rm.get_mesh("cow"), None);
    assert_eq!(rm.get_texture("grass"), None);
}

#[test]
fn movement_from_held_keys() {
    let none = Input::default();
    assert_eq!(GameLogic::movement_axes(&none), (0, 0));
    let up_right = Input { move_up: true, move_right: true, ..Input::default() };
    assert_eq!(GameLogic::movement_axes(&up_right), (2, 2));
    let down_left = Input { move_down: true, move_left: true, ..Input::default() };
    assert_eq!(GameLogic::movement_axes(&down_left), (-2, -2));
    let all = Input { move_up: true, move_down: true, move_left: true, move_right: true, open_inventory: true };
    assert_eq!(GameLogic::movement_axes(&all), (0, 0));
    let left = Input { move_left: true, ..Input::default() };
    assert_eq!(GameLogic::movement_axes(&left), (-2, 0));
}
