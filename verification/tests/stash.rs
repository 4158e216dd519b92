use scene_stash::component::{Component, Registry};
use scene_stash::editor::Editor;
use scene_stash::error::Error;
use scene_stash::id::StableId;
use scene_stash::scene::{Entity, Scene};
use scene_stash::store::Store;
use scene_stash::tree::{SceneNode, Snapshot};

const POSITION: u64 = 1;
const NAME: u64 = 2;
const SECRET: u64 = 9;

fn id(n: u128) -> StableId {
    StableId::from_bits(n)
}

fn registry() -> Registry {
    let mut registry = Registry::new();
    registry.register(POSITION);
    registry.register(NAME);
    registry
}

fn position(x: u8, y: u8) -> Component {
    Component::new(POSITION, vec![x, y])
}

fn leaf(n: u128, components: Vec<Component>) -> SceneNode {
    SceneNode { id: id(n), components, children: vec![] }
}

/// The sub-tree under `entity` as a snapshot tree, handles left out.
fn shape(scene: &Scene, entity: Entity) -> SceneNode {
    SceneNode {
        id: scene.id_of(entity).unwrap(),
        components: scene.components_of(entity).unwrap().clone(),
        children: scene.children_of(entity).into_iter().map(|c| shape(scene, c)).collect(),
    }
}

fn forest(scene: &Scene) -> Vec<SceneNode> {
    scene.roots().into_iter().map(|r| shape(scene, r)).collect()
}

/// ground(1) -> [ cube(2) -> [ torus(3), knob(4) -> [ tip(5) ] ], lamp(6) ],  sky(7)
fn sample() -> Editor {
    let mut editor = Editor::new();
    let ground = editor.spawn_with_id(id(1), vec![position(0, 0)], None).unwrap();
    let cube = editor
        .spawn_with_id(id(2), vec![position(0, 5), Component::new(SECRET, vec![7]), Component::new(NAME, vec![99])], Some(ground))
        .unwrap();
    editor.spawn_with_id(id(3), vec![Component::new(SECRET, vec![1, 2, 3])], Some(cube)).unwrap();
    let knob = editor.spawn_with_id(id(4), vec![], Some(cube)).unwrap();
    editor.spawn_with_id(id(5), vec![position(9, 9)], Some(knob)).unwrap();
    editor.spawn_with_id(id(6), vec![Component::new(NAME, vec![1])], Some(ground)).unwrap();
    editor.spawn_with_id(id(7), vec![], None).unwrap();
    editor
}

#[test]
fn extract_a_single_entity_then_restore_it_at_the_root() {
    let mut editor = Editor::new();
    let a = editor.spawn_with_id(id(0xa), vec![position(1, 2)], None).unwrap();

    let report = editor.extract(&registry(), id(0xa)).unwrap();
    assert_eq!(report.despawned, vec![a]);
    assert!(report.warnings.is_empty());
    assert_eq!(
        editor.store(),
        &Store::Stored {
            parent: None,
            target: id(0xa),
            snapshot: Snapshot { root: leaf(0xa, vec![position(1, 2)]), parent: None },
        }
    );
    assert!(!editor.scene().contains(a));
    assert_eq!(editor.scene().resolve(id(0xa)), None);
    assert!(editor.scene().entities().is_empty());
    assert!(editor.scene().roots().is_empty());

    let report = editor.restore(&registry(), None).unwrap();
    let again = report.root;
    assert_ne!(again, a);
    assert_eq!(report.parent, None);
    assert!(report.warnings.is_empty());
    assert_eq!(editor.scene().resolve(id(0xa)), Some(again));
    assert_eq!(editor.scene().id_of(again), Some(id(0xa)));
    assert_eq!(editor.scene().components_of(again), Some(&vec![position(1, 2)]));
    assert_eq!(editor.scene().parent_of(again), None);
    assert_eq!(editor.scene().roots(), vec![again]);
    assert_eq!(editor.store(), &Store::Empty);
    assert!(!editor.scene().contains(a));
}

#[test]
fn extract_a_chain_then_restore_it_under_a_new_parent() {
    let mut editor = Editor::new();
    let a = editor.spawn_with_id(id(0xa), vec![position(1, 1)], None).unwrap();
    let b = editor.spawn_with_id(id(0xb), vec![position(2, 2)], Some(a)).unwrap();
    let c = editor.spawn_with_id(id(0xc), vec![position(3, 3)], Some(b)).unwrap();

    let report = editor.extract(&registry(), id(0xa)).unwrap();
    assert_eq!(report.despawned.len(), 3);
    assert_eq!(report.despawned, vec![a, b, c]);
    assert!(editor.scene().entities().is_empty());

    let d = editor.spawn_with_id(id(0xd), vec![], None).unwrap();
    let report = editor.restore(&registry(), Some(id(0xd))).unwrap();
    assert_eq!(report.parent, Some(d));

    let a2 = report.root;
    assert_eq!(editor.scene().roots(), vec![d]);
    assert_eq!(editor.scene().children_of(d), vec![a2]);
    assert_eq!(editor.scene().id_of(a2), Some(id(0xa)));
    let kids = editor.scene().children_of(a2);
    assert_eq!(kids.len(), 1);
    let b2 = kids[0];
    assert_eq!(editor.scene().id_of(b2), Some(id(0xb)));
    let kids = editor.scene().children_of(b2);
    assert_eq!(kids.len(), 1);
    let c2 = kids[0];
    assert_eq!(editor.scene().id_of(c2), Some(id(0xc)));
    assert!(editor.scene().children_of(c2).is_empty());
    assert_eq!(editor.scene().parent_of(c2), Some(b2));
    assert_eq!(editor.scene().parent_of(b2), Some(a2));
    assert_eq!(editor.scene().parent_of(a2), Some(d));
    assert_eq!(editor.scene().components_of(c2), Some(&vec![position(3, 3)]));
    assert_eq!(editor.scene().entities().len(), 4);
    for old in [a, b, c] {
        assert!(!editor.scene().contains(old));
    }
    assert_eq!((a2.index, b2.index, c2.index), (d.index + 1, d.index + 2, d.index + 3));
}

#[test]
fn extract_takes_the_whole_sub_tree_in_sibling_order() {
    let mut editor = sample();
    let before = forest(editor.scene());
    let cube = editor.scene().resolve(id(2)).unwrap();
    let whole = shape(editor.scene(), cube);

    let report = editor.extract(&registry(), id(2)).unwrap();
    assert_eq!(report.despawned.iter().map(|e| e.index).collect::<Vec<_>>(), vec![1, 2, 3, 4]);
    assert_eq!(
        report.warnings,
        vec![
            Error::UnregisteredComponent { entity: id(2), kind: SECRET },
            Error::UnregisteredComponent { entity: id(3), kind: SECRET },
        ]
    );

    let snapshot = editor.store().snapshot().unwrap();
    assert_eq!(snapshot.parent, Some(id(1)));
    assert_eq!(editor.store().target(), Some(id(2)));
    let expected = SceneNode {
        id: id(2),
        components: vec![position(0, 5), Component::new(NAME, vec![99])],
        children: vec![
            leaf(3, vec![]),
            SceneNode { id: id(4), components: vec![], children: vec![leaf(5, vec![position(9, 9)])] },
        ],
    };
    assert_eq!(snapshot.root, expected);
    assert_eq!(whole.children.len(), 2);

    let after = forest(editor.scene());
    assert_eq!(after.len(), 2);
    assert_eq!(after[0].id, id(1));
    assert_eq!(after[0].children, vec![leaf(6, vec![Component::new(NAME, vec![1])])]);
    assert_eq!(after[1], before[1]);
    for gone in 2..=5 {
        assert_eq!(editor.scene().resolve(id(gone)), None);
    }
    assert_eq!(editor.scene().entities().len(), 3);
}

#[test]
fn round_trip_brings_back_the_registered_part_of_the_sub_tree() {
    let mut editor = sample();
    let cube = editor.scene().resolve(id(2)).unwrap();
    let whole = shape(editor.scene(), cube);
    editor.extract(&registry(), id(2)).unwrap();
    let stored = editor.store().snapshot().unwrap().root.clone();
    let report = editor.restore(&registry(), Some(id(7))).unwrap();
    assert!(report.warnings.is_empty());

    let back = shape(editor.scene(), editor.scene().resolve(id(2)).unwrap());
    assert_eq!(back, stored);
    assert_eq!(back.id, whole.id);
    assert_eq!(back.children.len(), whole.children.len());
    assert_eq!(back.components, vec![position(0, 5), Component::new(NAME, vec![99])]);
    assert_eq!(back.children[1].children[0], whole.children[1].children[0]);
    assert_eq!(editor.scene().parent_of(report.root), editor.scene().resolve(id(7)));
    assert_eq!(editor.scene().entities().len(), 7);
    assert_eq!(editor.store(), &Store::Empty);
}

#[test]
fn round_trip_with_every_kind_registered_loses_nothing() {
    let mut everything = registry();
    everything.register(SECRET);
    let mut editor = sample();
    let before = forest(editor.scene());
    let report = editor.extract(&everything, id(1)).unwrap();
    assert!(report.warnings.is_empty());
    assert_eq!(report.despawned.len(), 6);
    editor.restore(&everything, None).unwrap();
    let after = forest(editor.scene());
    assert_eq!(after, vec![before[1].clone(), before[0].clone()]);
}

#[test]
fn extract_while_stored_is_refused_and_changes_nothing() {
    let mut editor = sample();
    editor.extract(&registry(), id(4)).unwrap();
    let scene_before = forest(editor.scene());
    let count_before = editor.scene().entities();
    let stored_before = editor.store().snapshot().unwrap().root.clone();

    assert_eq!(editor.extract(&registry(), id(2)), Err(Error::AlreadyStored));
    assert_eq!(editor.extract(&registry(), id(4)), Err(Error::AlreadyStored));
    assert_eq!(editor.extract(&registry(), id(12345)), Err(Error::AlreadyStored));

    assert_eq!(forest(editor.scene()), scene_before);
    assert_eq!(editor.scene().entities(), count_before);
    assert_eq!(editor.store().snapshot().unwrap().root, stored_before);
    assert_eq!(editor.store().target(), Some(id(4)));
}

#[test]
fn extract_of_an_unknown_identifier_is_refused_and_changes_nothing() {
    let mut editor = sample();
    let scene_before = forest(editor.scene());
    let count_before = editor.scene().entities().len();
    assert_eq!(editor.extract(&registry(), id(404)), Err(Error::NoSuchEntity));
    assert_eq!(forest(editor.scene()), scene_before);
    assert_eq!(editor.scene().entities().len(), count_before);
    assert_eq!(editor.store(), &Store::Empty);
}

#[test]
fn restore_while_empty_is_refused_and_changes_nothing() {
    let mut editor = sample();
    let scene_before = forest(editor.scene());
    assert_eq!(editor.restore(&registry(), None), Err(Error::NothingStored));
    assert_eq!(editor.restore(&registry(), Some(id(1))), Err(Error::NothingStored));
    assert_eq!(forest(editor.scene()), scene_before);
    assert_eq!(editor.scene().entities().len(), 7);
    assert_eq!(editor.store(), &Store::Empty);

    let mut fresh = Editor::new();
    assert_eq!(fresh.restore(&registry(), None), Err(Error::NothingStored));
}

#[test]
fn restore_without_a_target_and_with_a_dead_one_agree() {
    let mut without = sample();
    let mut orphaned = sample();
    without.extract(&registry(), id(2)).unwrap();
    orphaned.extract(&registry(), id(2)).unwrap();

    let first = without.restore(&registry(), None).unwrap();
    let second = orphaned.restore(&registry(), Some(id(404))).unwrap();
    assert_eq!(first.parent, None);
    assert_eq!(second.parent, None);
    assert_eq!(first.root, second.root);
    assert_eq!(forest(without.scene()), forest(orphaned.scene()));
    assert_eq!(without.scene().roots(), orphaned.scene().roots());
    assert_eq!(without.scene().roots().len(), 3);
    assert_eq!(without.scene().roots()[2], first.root);
    assert_eq!(without.scene().parent_of(first.root), None);
}

#[test]
fn restore_under_an_identifier_that_was_stored_falls_back_to_the_root() {
    let mut editor = sample();
    editor.extract(&registry(), id(2)).unwrap();
    let report = editor.restore(&registry(), Some(id(4))).unwrap();
    assert_eq!(report.parent, None);
    assert_eq!(editor.scene().roots().len(), 3);
}

#[test]
fn restore_filters_with_the_registry_it_is_given() {
    let mut generous = registry();
    generous.register(SECRET);
    let mut editor = sample();
    let report = editor.extract(&generous, id(2)).unwrap();
    assert!(report.warnings.is_empty());

    let mut strict = Registry::new();
    strict.register(POSITION);
    let report = editor.restore(&strict, Some(id(1))).unwrap();
    assert_eq!(
        report.warnings,
        vec![
            Error::UnregisteredComponent { entity: id(2), kind: SECRET },
            Error::UnregisteredComponent { entity: id(2), kind: NAME },
            Error::UnregisteredComponent { entity: id(3), kind: SECRET },
        ]
    );
    assert_eq!(editor.scene().components_of(report.root), Some(&vec![position(0, 5)]));
}

#[test]
fn store_cycles_between_empty_and_stored() {
    let mut editor = sample();
    for round in 0..3 {
        assert!(editor.store().is_empty());
        editor.extract(&registry(), id(4)).unwrap();
        assert!(!editor.store().is_empty());
        assert_eq!(editor.store().target(), Some(id(4)));
        let report = editor.restore(&registry(), Some(id(6))).unwrap();
        assert_eq!(report.root.index, 7 + 2 * round);
    }
    assert_eq!(editor.scene().entities().len(), 7);
}

#[test]
fn stored_identifiers_cannot_be_given_again() {
    let mut editor = sample();
    editor.extract(&registry(), id(4)).unwrap();
    assert_eq!(editor.spawn_with_id(id(4), vec![], None), None);
    assert_eq!(editor.spawn_with_id(id(5), vec![], None), None);
    assert_eq!(editor.spawn_with_id(id(1), vec![], None), None);
    assert!(editor.spawn_with_id(id(40), vec![], None).is_some());
    editor.restore(&registry(), None).unwrap();
    assert_eq!(editor.spawn_with_id(id(4), vec![], None), None);
    assert_eq!(editor.scene().entities().len(), 8);
}

#[test]
fn spawn_draws_a_fresh_identifier() {
    let mut editor = Editor::new();
    let a = editor.spawn(vec![position(1, 1)], None).unwrap();
    let b = editor.spawn(vec![], Some(a)).unwrap();
    let id_a = editor.scene().id_of(a).unwrap();
    let id_b = editor.scene().id_of(b).unwrap();
    assert_ne!(id_a, id_b);
    assert_eq!((id_a.bits >> 76) & 0xf, 4);
    assert_eq!(editor.scene().resolve(id_a), Some(a));
    assert_eq!(editor.scene().parent_of(b), Some(a));
    assert_eq!(editor.spawn(vec![], Some(Entity { index: 17 })), None);
    assert_eq!(editor.scene().entities().len(), 2);
}

#[test]
fn identifiers_survive_the_text_form_across_a_round_trip() {
    let mut editor = sample();
    let text = id(5).to_hex();
    editor.extract(&registry(), id(4)).unwrap();
    editor.restore(&registry(), None).unwrap();
    let parsed = StableId::from_hex(&text).unwrap();
    let tip = editor.scene().resolve(parsed).unwrap();
    assert_eq!(editor.scene().components_of(tip), Some(&vec![position(9, 9)]));
}

#[test]
fn restore_hands_back_what_was_stored() {
    let mut editor = sample();
    editor.extract(&registry(), id(4)).unwrap();
    let stored = editor.store().snapshot().unwrap().root.clone();
    let report = editor.restore(&registry(), None).unwrap();
    assert_eq!(report.snapshot, Snapshot { root: stored, parent: Some(id(2)) });
    assert_eq!(shape(editor.scene(), report.root), report.snapshot.root);
}

#[test]
fn spawn_cannot_collide_while_no_drawn_identifier_is_in_use() {
    // None of the sample's identifiers has the version and variant marks of
    // a drawn one, live or stored: the first draw cannot collide, and a later
    // one only with an earlier draw.
    let mut editor = sample();
    editor.extract(&registry(), id(4)).unwrap();
    let lamp = editor.scene().resolve(id(6)).unwrap();
    for round in 0..32 {
        let made = editor.spawn(vec![position(round, round)], Some(lamp)).unwrap();
        let drawn = editor.scene().id_of(made).unwrap();
        assert_eq!((drawn.bits >> 76) & 0xf, 4);
        assert_eq!((drawn.bits >> 62) & 0x3, 2);
        assert_eq!(editor.scene().parent_of(made), Some(lamp));
    }
    assert_eq!(editor.scene().children_of(lamp).len(), 32);
}
