use scene_stash::component::{Component, Registry};
use scene_stash::error::Error;
use scene_stash::id::StableId;
use scene_stash::scene::{Entity, Scene};

fn id(n: u128) -> StableId {
    StableId::from_bits(n)
}

#[test]
fn new_scene_is_empty() {
    let scene = Scene::new();
    assert!(scene.entities().is_empty());
    assert!(scene.roots().is_empty());
    assert_eq!(scene.resolve(id(1)), None);
    assert!(!scene.contains(Entity { index: 0 }));
}

#[test]
fn spawn_gives_increasing_handles_and_links_parent_and_child() {
    let mut scene = Scene::new();
    let a = scene.spawn_with_id(id(10), vec![], None).unwrap();
    let b = scene.spawn_with_id(id(11), vec![], Some(a)).unwrap();
    let c = scene.spawn_with_id(id(12), vec![], Some(a)).unwrap();
    let d = scene.spawn_with_id(id(13), vec![], None).unwrap();
    assert_eq!((a.index, b.index, c.index, d.index), (0, 1, 2, 3));
    assert_eq!(scene.roots(), vec![a, d]);
    assert_eq!(scene.children_of(a), vec![b, c]);
    assert_eq!(scene.parent_of(b), Some(a));
    assert_eq!(scene.parent_of(c), Some(a));
    assert_eq!(scene.parent_of(a), None);
    assert_eq!(scene.entities(), vec![a, b, c, d]);
    assert_eq!(scene.resolve(id(12)), Some(c));
    assert_eq!(scene.id_of(d), Some(id(13)));
}

#[test]
fn spawn_keeps_components_in_order() {
    let mut scene = Scene::new();
    let list = vec![Component::new(7, vec![1, 2]), Component::new(3, vec![]), Component::new(7, vec![9])];
    let a = scene.spawn_with_id(id(1), list.clone(), None).unwrap();
    assert_eq!(scene.components_of(a), Some(&list));
}

#[test]
fn spawn_refuses_an_identifier_in_use() {
    let mut scene = Scene::new();
    let a = scene.spawn_with_id(id(1), vec![], None).unwrap();
    assert_eq!(scene.spawn_with_id(id(1), vec![], None), None);
    assert_eq!(scene.spawn_with_id(id(1), vec![], Some(a)), None);
    assert_eq!(scene.entities(), vec![a]);
    assert_eq!(scene.roots(), vec![a]);
}

#[test]
fn spawn_refuses_a_parent_that_is_not_live() {
    let mut scene = Scene::new();
    assert_eq!(scene.spawn_with_id(id(1), vec![], Some(Entity { index: 0 })), None);
    assert_eq!(scene.spawn_with_id(id(1), vec![], Some(Entity { index: 99 })), None);
    assert!(scene.entities().is_empty());
    assert_eq!(scene.resolve(id(1)), None);
}

#[test]
fn questions_about_a_stale_handle_have_empty_answers() {
    let scene = Scene::new();
    let stale = Entity { index: 5 };
    assert_eq!(scene.id_of(stale), None);
    assert_eq!(scene.parent_of(stale), None);
    assert!(scene.children_of(stale).is_empty());
    assert_eq!(scene.components_of(stale), None);
}

#[test]
fn registry_knows_what_was_registered() {
    let mut registry = Registry::new();
    assert!(!registry.is_registered(4));
    assert!(registry.register(4));
    assert!(!registry.register(4));
    assert!(registry.is_registered(4));
    assert!(!registry.is_registered(5));
}

#[test]
fn sift_keeps_the_known_and_warns_of_the_rest() {
    let mut registry = Registry::new();
    registry.register(1);
    registry.register(3);
    let list = vec![
        Component::new(1, vec![10]),
        Component::new(2, vec![20]),
        Component::new(3, vec![30]),
        Component::new(4, vec![40]),
        Component::new(1, vec![50]),
    ];
    let mut warnings = vec![Error::NothingStored];
    let kept = registry.sift(id(8), &list, &mut warnings);
    assert_eq!(kept, vec![Component::new(1, vec![10]), Component::new(3, vec![30]), Component::new(1, vec![50])]);
    assert_eq!(
        warnings,
        vec![
            Error::NothingStored,
            Error::UnregisteredComponent { entity: id(8), kind: 2 },
            Error::UnregisteredComponent { entity: id(8), kind: 4 },
        ]
    );
}
