use glam::{Mat4, Quat, Vec3};
use just::hierarchy::{Entity, GameObject, GameObjectError, Ident, ItemState, TransformHierarchy, World};
use std::cell::Cell;

#[derive(Clone, Copy, Debug, PartialEq)]
struct Mat(Mat4);

impl Ident for Mat {
    fn empty() -> Self {
        Mat(Mat4::IDENTITY)
    }
}

#[derive(Clone, Copy)]
struct Transform {
    position: Vec3,
    rotation: Quat,
    scale: Vec3,
}

impl Transform {
    fn new() -> Self {
        Transform { position: Vec3::ZERO, rotation: Quat::IDENTITY, scale: Vec3::ONE }
    }
}

/// A world with a transform per object, as the engine keeps it.
struct Scene {
    world: World<Mat>,
    transforms: Vec<Transform>,
    local_computations: Cell<usize>,
}

impl Scene {
    fn mock() -> Self {
        Scene { world: World::new(), transforms: Vec::new(), local_computations: Cell::new(0) }
    }

    fn create_game_object(&mut self) -> Entity {
        let id = GameObject::create_empty(&mut self.world);
        self.transforms.push(Transform::new());
        id
    }

    fn set_parent(&mut self, obj: Entity, parent: Option<Entity>) -> Result<(), ()> {
        TransformHierarchy::set_parent(&mut self.world, obj, parent)
    }

    fn set_local_position(&mut self, id: Entity, position: Vec3) {
        self.transforms[id.index].position = position;
        TransformHierarchy::void_local_matrix(&mut self.world, id);
    }

    fn set_local_rotation(&mut self, id: Entity, rotation: Quat) {
        self.transforms[id.index].rotation = rotation;
        TransformHierarchy::void_local_matrix(&mut self.world, id);
    }

    fn get_global_matrix(&mut self, id: Entity) -> Mat4 {
        assert!(TransformHierarchy::can_compute_global_matrix(&self.world, id));
        let transforms = &self.transforms;
        let counter = &self.local_computations;
        let local = |e: Entity| {
            counter.set(counter.get() + 1);
            let t = transforms[e.index];
            Mat(Mat4::from_scale_rotation_translation(t.scale, t.rotation, t.position))
        };
        let compose = |a: Mat, b: Mat| Mat(a.0 * b.0);
        TransformHierarchy::get_global_matrix(&mut self.world, id, &local, &compose).0
    }

    fn get_global_position(&mut self, id: Entity) -> Vec3 {
        let parent_matrix = match TransformHierarchy::get_parent(&self.world, id) {
            None => Mat4::IDENTITY,
            Some(p) => self.get_global_matrix(p),
        };
        parent_matrix.transform_point3(self.transforms[id.index].position)
    }

    fn get_global_rotation(&mut self, id: Entity) -> Quat {
        let (_, rotation, _) = self.get_global_matrix(id).to_scale_rotation_translation();
        rotation
    }
}

#[test]
fn position() {
    let mut scene = Scene::mock();
    let obj = scene.create_game_object();
    let pos = Vec3::new(0.0, 0.0, 1.0);
    scene.set_local_position(obj, pos);
    let pos2 = scene.get_global_position(obj);
    assert_eq!(pos, pos2);
}

#[test]
fn position_with_parent() {
    let mut scene = Scene::mock();
    let obj = scene.create_game_object();
    let obj2 = scene.create_game_object();

    scene.set_parent(obj, Option::Some(obj2)).unwrap();
    let pos = Vec3::new(0.0, 0.0, 1.0);
    let pos2 = Vec3::new(0.0, 0.0, 2.0);
    scene.set_local_position(obj, pos);
    scene.set_local_position(obj2, pos2);

    let result_pos = scene.get_global_position(obj);
    assert_eq!(result_pos, pos + pos2);
}

#[test]
fn new_parent_invalidates_global_matrix() {
    let mut scene = Scene::mock();
    let obj = scene.create_game_object();
    let obj2 = scene.create_game_object();
    let obj3 = scene.create_game_object();

    scene.set_parent(obj, Some(obj2)).unwrap();
    scene.get_global_matrix(obj);
    scene.set_parent(obj, Some(obj3)).unwrap();
}

#[test]
fn parent_rotation_applied() {
    let mut scene = Scene::mock();
    let obj = scene.create_game_object();
    let obj2 = scene.create_game_object();

    scene.set_parent(obj, Some(obj2)).unwrap();
    let rot1 = Quat::from_axis_angle(Vec3::new(0.0, 0.0, 1.0), std::f32::consts::FRAC_PI_2);
    let rot2 = Quat::from_axis_angle(Vec3::new(0.0, 0.0, -1.0), std::f32::consts::FRAC_PI_2);

    scene.set_local_rotation(obj, rot1);
    scene.set_local_rotation(obj2, rot2);

    let result_rot = scene.get_global_rotation(obj);
    assert!(result_rot.abs_diff_eq(Quat::IDENTITY, 0.0001));
}

#[test]
fn new_parent_moves_global_position() {
    let mut scene = Scene::mock();
    let obj = scene.create_game_object();
    let obj2 = scene.create_game_object();
    let obj3 = scene.create_game_object();
    scene.set_local_position(obj, Vec3::new(1.0, 0.0, 0.0));
    scene.set_local_position(obj2, Vec3::new(0.0, 2.0, 0.0));
    scene.set_local_position(obj3, Vec3::new(0.0, 0.0, 3.0));

    scene.set_parent(obj, Some(obj2)).unwrap();
    let before = scene.get_global_matrix(obj).transform_point3(Vec3::ZERO);
    assert_eq!(before, Vec3::new(1.0, 2.0, 0.0));
    scene.set_parent(obj, Some(obj3)).unwrap();
    let after = scene.get_global_matrix(obj).transform_point3(Vec3::ZERO);
    assert_eq!(after, Vec3::new(1.0, 0.0, 3.0));
}

#[test]
fn moving_a_parent_moves_its_grandchildren() {
    let mut scene = Scene::mock();
    let a = scene.create_game_object();
    let b = scene.create_game_object();
    let c = scene.create_game_object();
    scene.set_parent(b, Some(a)).unwrap();
    scene.set_parent(c, Some(b)).unwrap();
    scene.set_local_position(c, Vec3::new(0.0, 0.0, 1.0));
    assert_eq!(scene.get_global_matrix(c).transform_point3(Vec3::ZERO), Vec3::new(0.0, 0.0, 1.0));

    scene.set_local_position(a, Vec3::new(5.0, 0.0, 0.0));
    assert_eq!(scene.get_global_matrix(c).transform_point3(Vec3::ZERO), Vec3::new(5.0, 0.0, 1.0));
}

#[test]
fn valid_global_matrix_is_not_computed_again() {
    let mut scene = Scene::mock();
    let a = scene.create_game_object();
    let b = scene.create_game_object();
    scene.set_parent(b, Some(a)).unwrap();
    scene.set_local_position(b, Vec3::new(1.0, 1.0, 1.0));

    let first = scene.get_global_matrix(b);
    assert_eq!(scene.local_computations.get(), 2);
    let second = scene.get_global_matrix(b);
    assert_eq!(first, second);
    assert_eq!(scene.local_computations.get(), 2);
    scene.get_global_matrix(a);
    assert_eq!(scene.local_computations.get(), 2);

    scene.set_local_position(b, Vec3::new(2.0, 2.0, 2.0));
    let third = scene.get_global_matrix(b);
    assert_eq!(scene.local_computations.get(), 3);
    assert_eq!(third.transform_point3(Vec3::ZERO), Vec3::new(2.0, 2.0, 2.0));
}

#[test]
fn set_parent_moves_between_children_lists() {
    let mut scene = Scene::mock();
    let a = scene.create_game_object();
    let b = scene.create_game_object();
    let c = scene.create_game_object();
    let d = scene.create_game_object();
    scene.set_parent(a, Some(b)).unwrap();
    scene.set_parent(d, Some(b)).unwrap();
    assert_eq!(scene.world.game_object(b).children, vec![a, d]);
    assert_eq!(TransformHierarchy::get_parent(&scene.world, a), Some(b));

    scene.set_parent(a, Some(c)).unwrap();
    assert_eq!(scene.world.game_object(b).children, vec![d]);
    assert_eq!(scene.world.game_object(c).children, vec![a]);
    assert_eq!(TransformHierarchy::get_parent(&scene.world, a), Some(c));

    scene.set_parent(a, None).unwrap();
    assert!(scene.world.game_object(c).children.is_empty());
    assert_eq!(TransformHierarchy::get_parent(&scene.world, a), None);
}

#[test]
fn set_parent_rejects_unknown_objects() {
    let mut scene = Scene::mock();
    let a = scene.create_game_object();
    let b = scene.create_game_object();
    scene.set_parent(a, Some(b)).unwrap();
    let ghost = Entity { index: 9 };
    assert_eq!(scene.set_parent(ghost, Some(a)), Err(()));
    assert_eq!(scene.set_parent(a, Some(ghost)), Err(()));
    assert_eq!(TransformHierarchy::get_parent(&scene.world, a), Some(b));
    assert_eq!(scene.world.game_object(b).children, vec![a]);
    assert!(scene.world.game_object(a).children.is_empty());
}

#[test]
fn created_objects_are_numbered_in_order() {
    let mut world: World<Mat> = World::new();
    assert!(!world.is_alive(Entity { index: 0 }));
    let a = GameObject::create_empty(&mut world);
    let b = GameObject::create_empty(&mut world);
    assert_eq!(a, Entity { index: 0 });
    assert_eq!(b, Entity { index: 1 });
    assert!(world.is_alive(a) && world.is_alive(b));
    assert!(!world.is_alive(Entity { index: 2 }));
    assert_eq!(world.game_object(a).parent, None);
    assert!(world.game_object(a).children.is_empty());
}

#[test]
fn parent_cycle_cannot_be_computed() {
    let mut scene = Scene::mock();
    let a = scene.create_game_object();
    let b = scene.create_game_object();
    scene.set_parent(a, Some(b)).unwrap();
    assert!(TransformHierarchy::can_compute_global_matrix(&scene.world, a));
    scene.set_parent(b, Some(a)).unwrap();
    assert!(!TransformHierarchy::can_compute_global_matrix(&scene.world, a));
    assert!(!TransformHierarchy::can_compute_global_matrix(&scene.world, b));
}

#[test]
fn item_state_starts_changed() {
    let state: ItemState<Mat> = ItemState::new();
    assert!(state.changed);
    assert_eq!(state.item, Mat(Mat4::IDENTITY));
}

#[test]
fn game_object_error_is_comparable() {
    let e = GameObjectError::IdNotExisting;
    assert_eq!(e, GameObjectError::IdNotExisting);
    assert_eq!(format!("{:?}", e), "IdNotExisting");
}
