use just::hierarchy::{Entity, GameObject, Ident, TransformHierarchy, World};
use just::scene::{spawn_object, SceneNode};

#[derive(Clone, Copy, Debug, PartialEq)]
struct Unit;

impl Ident for Unit {
    fn empty() -> Self {
        Unit
    }
}

fn leaf(name: &str) -> SceneNode<String> {
    SceneNode { data: name.to_owned(), children: Vec::new() }
}

fn tree() -> SceneNode<String> {
    SceneNode {
        data: "a".to_owned(),
        children: vec![SceneNode { data: "b".to_owned(), children: vec![leaf("d")] }, leaf("c")],
    }
}

#[test]
fn spawn_makes_objects_parent_first() {
    let mut world: World<Unit> = World::new();
    let mut placed = Vec::new();
    let root = spawn_object(&mut world, tree(), None, &mut placed);
    assert_eq!(root, Entity { index: 0 });
    let order: Vec<(usize, String)> = placed.into_iter().map(|(e, n)| (e.index, n)).collect();
    assert_eq!(
        order,
        vec![(0, "a".to_owned()), (1, "b".to_owned()), (2, "d".to_owned()), (3, "c".to_owned())]
    );
    let e = |i: usize| Entity { index: i };
    assert_eq!(TransformHierarchy::get_parent(&world, e(0)), None);
    assert_eq!(TransformHierarchy::get_parent(&world, e(1)), Some(e(0)));
    assert_eq!(TransformHierarchy::get_parent(&world, e(2)), Some(e(1)));
    assert_eq!(TransformHierarchy::get_parent(&world, e(3)), Some(e(0)));
    assert_eq!(world.game_object(e(0)).children, vec![e(1), e(3)]);
    assert_eq!(world.game_object(e(1)).children, vec![e(2)]);
    assert!(world.game_object(e(2)).children.is_empty());
    assert!(world.game_object(e(3)).children.is_empty());
    assert!(!world.is_alive(e(4)));
}

#[test]
fn spawn_under_an_existing_object() {
    let mut world: World<Unit> = World::new();
    let x = GameObject::create_empty(&mut world);
    let y = GameObject::create_empty(&mut world);
    TransformHierarchy::set_parent(&mut world, y, Some(x)).unwrap();
    let mut placed = Vec::new();
    let root = spawn_object(&mut world, leaf("z"), Some(x), &mut placed);
    assert_eq!(root, Entity { index: 2 });
    assert_eq!(placed, vec![(Entity { index: 2 }, "z".to_owned())]);
    assert_eq!(world.game_object(x).children, vec![y, root]);
    assert_eq!(TransformHierarchy::get_parent(&world, root), Some(x));
    assert_eq!(TransformHierarchy::get_parent(&world, y), Some(x));
    assert!(TransformHierarchy::can_compute_global_matrix(&world, root));
}

#[test]
fn spawn_appends_to_placed() {
    let mut world: World<Unit> = World::new();
    let mut placed = vec![(Entity { index: 99 }, "earlier".to_owned())];
    spawn_object(&mut world, leaf("one"), None, &mut placed);
    spawn_object(&mut world, leaf("two"), None, &mut placed);
    assert_eq!(
        placed,
        vec![
            (Entity { index: 99 }, "earlier".to_owned()),
            (Entity { index: 0 }, "one".to_owned()),
            (Entity { index: 1 }, "two".to_owned())
        ]
    );
    assert_eq!(TransformHierarchy::get_parent(&world, Entity { index: 1 }), None);
}
