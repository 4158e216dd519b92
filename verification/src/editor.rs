//! The editor: a scene and the store beside it, with the two operations
//! that move a sub-tree between them.
use std::collections::HashSet;
use vstd::prelude::*;

use crate::component::{components_view, Component, Registry};
use crate::error::Error;
use crate::id::{is_drawn_form, StableId};
use crate::model::{lemma_preorder_head, lemma_tree_ids_distinct, SceneView};
use crate::scene::{entities_of, entity_of, handle_of, Entity, Scene};
use crate::store::{Store, StoreView};
use crate::tree::{lemma_keep_ids, Snapshot};

verus! {

/// An editor as a mathematical object: the scene and what is stored.
pub ghost struct EditorView {
    pub scene: SceneView,
    pub store: StoreView,
}

impl EditorView {
    /// The identifiers of the stored entities, the root's first.
    pub open spec fn stored_ids(self) -> Seq<StableId> {
        match self.store {
            StoreView::Stored { tree, .. } => tree.ids(),
            StoreView::Empty => Seq::empty(),
        }
    }

    /// Whether `id` belongs to an entity, live or stored.
    pub open spec fn in_use(self, id: StableId) -> bool {
        self.scene.has_id(id) || self.stored_ids().contains(id)
    }

    /// Whether some identifier that a random draw can give is in use.  While
    /// none is, no draw can collide.
    pub open spec fn drawn_form_in_use(self) -> bool {
        exists|id: StableId| is_drawn_form(id.bits) && #[trigger] self.in_use(id)
    }

    /// The invariant of an editor: the scene is well formed, the store's
    /// label names the root of what is stored, and no identifier is shared,
    /// neither among the stored entities nor between them and the live ones.
    pub open spec fn wf(self) -> bool {
        &&& self.scene.wf()
        &&& match self.store {
            StoreView::Empty => true,
            StoreView::Stored { parent, target, tree } => {
                &&& tree.id == target
                &&& tree.ids().no_duplicates()
                &&& forall|i: int| 0 <= i < tree.ids().len() ==> !self.scene.has_id(#[trigger] tree.ids()[i])
            },
        }
    }

    /// The identifier of the parent of the live entity `h`, if it has one.
    pub open spec fn parent_id(self, h: usize) -> Option<StableId> {
        match self.scene.entities[h].parent {
            Some(p) => Some(self.scene.entities[p].id),
            None => None,
        }
    }

    /// What `extract` answers when it fails, and `None` when it goes through:
    /// a full store is reported before an unknown identifier.
    pub open spec fn extract_failure(self, picked: StableId) -> Option<Error> {
        if self.store is Stored {
            Some(Error::AlreadyStored)
        } else if !self.scene.has_id(picked) {
            Some(Error::NoSuchEntity)
        } else {
            None
        }
    }

    /// The editor after the sub-tree under `picked` is moved from the scene
    /// into the store.
    pub open spec fn extracted(self, registry: Set<u64>, picked: StableId) -> EditorView {
        let h = self.scene.index[picked.bits];
        EditorView {
            scene: self.scene.detached(h),
            store: StoreView::Stored {
                parent: self.parent_id(h),
                target: picked,
                tree: self.scene.tree(h).keep(registry),
            },
        }
    }

    /// What `restore` answers when it fails, and `None` when it goes through.
    pub open spec fn restore_failure(self) -> Option<Error> {
        if self.store is Empty {
            Some(Error::NothingStored)
        } else {
            None
        }
    }

    /// Whether `after` is this editor once the stored sub-tree is planted
    /// under `target`, or as the last root if `target` is `None` or names no
    /// live entity.
    pub open spec fn restored(
        self,
        registry: Set<u64>,
        target: Option<StableId>,
        after: EditorView,
    ) -> bool {
        &&& self.store is Stored
        &&& after.store is Empty
        &&& after.scene.wf()
        &&& self.scene.grafted(
            self.scene.resolve_opt(target),
            self.store->tree.keep(registry),
            after.scene,
        )
    }
}

/// What `extract` reports when it goes through.
#[derive(Debug, PartialEq, Eq)]
pub struct Extracted {
    /// The handles that left the scene, the picked entity's first.
    pub despawned: Vec<Entity>,
    /// One warning for each component that was left behind.
    pub warnings: Vec<Error>,
}

/// What `restore` reports when it goes through.
#[derive(Debug, PartialEq, Eq)]
pub struct Restored {
    /// The new handle of the root of the restored sub-tree.
    pub root: Entity,
    /// The entity that the sub-tree now hangs under, or `None` if it is a
    /// root.
    pub parent: Option<Entity>,
    /// What was stored, handed back: the new entities were made from it, in
    /// the order of its identifiers.
    pub snapshot: Snapshot,
    /// One warning for each component that was left behind.
    pub warnings: Vec<Error>,
}

/// A scene and the store beside it.
pub struct Editor {
    scene: Scene,
    store: Store,
    held: HashSet<u128>,
}

impl View for Editor {
    type V = EditorView;

    closed spec fn view(&self) -> EditorView {
        EditorView { scene: self.scene@, store: self.store@ }
    }
}

impl Editor {
    /// What the representation keeps beyond the model's invariant.
    pub closed spec fn inner_wf(&self) -> bool {
        &&& self.store.wf()
        &&& self.held@ == Set::new(|k: u128| self@.stored_ids().contains(StableId { bits: k }))
    }

    /// The invariant that every editor keeps.
    pub open spec fn wf(&self) -> bool {
        self@.wf() && self.inner_wf()
    }

    /// An editor with an empty scene and an empty store.
    pub fn new() -> (editor: Editor)
        ensures
            editor.wf(),
            editor@.scene == SceneView::empty(),
            editor@.store is Empty,
    {
        let editor = Editor { scene: Scene::new(), store: Store::Empty, held: HashSet::new() };
        proof {
            assert(editor.held@ =~= Set::new(
                |k: u128| editor@.stored_ids().contains(StableId { bits: k }),
            ));
        }
        editor
    }

    /// The scene, to look at.
    pub fn scene(&self) -> (scene: &Scene)
        ensures
            scene@ == self@.scene,
    {
        &self.scene
    }

    /// The store, to look at.
    pub fn store(&self) -> (store: &Store)
        ensures
            store@ == self@.store,
            self.wf() ==> store.wf(),
    {
        &self.store
    }

    /// Makes an entity with the given identifier, as the last child of
    /// `parent` or, without one, as the last root.
    ///
    /// Nothing is made, and `None` returned, if `id` is in use by a live or a
    /// stored entity, or `parent` is not live.
    pub fn spawn_with_id(
        &mut self,
        id: StableId,
        components: Vec<Component>,
        parent: Option<Entity>,
    ) -> (made: Option<Entity>)
        requires
            old(self).wf(),
        ensures
            final(self).wf(),
            final(self)@.store == old(self)@.store,
            match made {
                Some(e) => {
                    &&& !old(self)@.in_use(id)
                    &&& parent matches Some(p) ==> old(self)@.scene.live(p.index)
                    &&& e.index == old(self)@.scene.next
                    &&& final(self)@.scene == old(self)@.scene.spawned(
                        id,
                        components_view(components@),
                        handle_of(parent),
                    )
                },
                None => {
                    &&& old(self)@.in_use(id) || (parent matches Some(p) && !old(
                        self,
                    )@.scene.live(p.index))
                    &&& final(self)@ == old(self)@
                },
            },
    {
        if self.held.contains(&id.bits) {
            proof {
                assert(self@.stored_ids().contains(StableId { bits: id.bits }));
            }
            return None;
        }
        proof {
            assert(!self@.stored_ids().contains(StableId { bits: id.bits }));
        }
        let made = self.scene.spawn_with_id(id, components, parent);
        proof {
            if made is Some {
                assert forall|i: int| 0 <= i < self@.stored_ids().len() implies !self@.scene.has_id(
                    #[trigger] self@.stored_ids()[i],
                ) by {
                    let other = self@.stored_ids()[i];
                    assert(!old(self)@.scene.has_id(other));
                    assert(old(self)@.stored_ids().contains(other));
                }
            }
        }
        made
    }

    /// Makes an entity with an identifier drawn at random, as the last child
    /// of `parent` or, without one, as the last root.
    ///
    /// Nothing is made, and `None` returned, if `parent` is not live, or if
    /// the identifier drawn is in use already.  The draw cannot collide, and
    /// the entity is made, while no identifier of the drawn form is in use.
    pub fn spawn(&mut self, components: Vec<Component>, parent: Option<Entity>) -> (made: Option<
        Entity,
    >)
        requires
            old(self).wf(),
        ensures
            final(self).wf(),
            final(self)@.store == old(self)@.store,
            match made {
                Some(e) => {
                    let id = final(self)@.scene.entities[e.index].id;
                    &&& parent matches Some(p) ==> old(self)@.scene.live(p.index)
                    &&& e.index == old(self)@.scene.next
                    &&& final(self)@.scene.live(e.index)
                    &&& is_drawn_form(id.bits)
                    &&& !old(self)@.in_use(id)
                    &&& final(self)@.scene == old(self)@.scene.spawned(
                        id,
                        components_view(components@),
                        handle_of(parent),
                    )
                },
                None => {
                    &&& final(self)@ == old(self)@
                    &&& (parent matches Some(p) && !old(self)@.scene.live(p.index)) || old(
                        self,
                    )@.drawn_form_in_use()
                },
            },
            parent matches Some(p) && !old(self)@.scene.live(p.index) ==> made is None,
            (parent matches Some(p) ==> old(self)@.scene.live(p.index)) && !old(
                self,
            )@.drawn_form_in_use() ==> made is Some,
    {
        let id = StableId::random();
        let made = self.spawn_with_id(id, components, parent);
        proof {
            if made is None && (parent matches Some(p) ==> old(self)@.scene.live(p.index)) {
                assert(is_drawn_form(id.bits) && old(self)@.in_use(id));
            }
        }
        made
    }

    /// Moves the sub-tree under the entity `picked` out of the scene and
    /// into the store.
    ///
    /// Fails with `AlreadyStored` if the store is full, else with
    /// `NoSuchEntity` if `picked` names no live entity; a failure changes
    /// nothing.  Otherwise the store holds a copy of the sub-tree, in which
    /// each entity has the components whose kind `registry` knows, and the
    /// sub-tree's entities have left the scene.
    pub fn extract(&mut self, registry: &Registry, picked: StableId) -> (outcome: Result<
        Extracted,
        Error,
    >)
        requires
            old(self).wf(),
        ensures
            final(self).wf(),
            match outcome {
                Ok(report) => {
                    let h = old(self)@.scene.index[picked.bits];
                    &&& old(self)@.extract_failure(picked) is None
                    &&& final(self)@ == old(self)@.extracted(registry@, picked)
                    &&& report.despawned@ == entities_of(old(self)@.scene.preorder(h))
                    &&& report.despawned@.len() == final(self)@.stored_ids().len()
                    &&& report.warnings@ == old(self)@.scene.tree(h).dropped(registry@)
                },
                Err(e) => {
                    &&& old(self)@.extract_failure(picked) == Some(e)
                    &&& final(self)@ == old(self)@
                },
            },
    {
        if !self.store.is_empty() {
            return Err(Error::AlreadyStored);
        }
        let root = match self.scene.resolve(picked) {
            Some(e) => e,
            None => {
                return Err(Error::NoSuchEntity);
            },
        };
        let h: usize = root.index;
        let ghost before = self@.scene;
        let parent: Option<StableId> = match self.scene.parent_of(root) {
            Some(p) => {
                proof {
                    assert(before.entity_wf(h));
                }
                self.scene.id_of(p)
            },
            None => None,
        };
        let mut warnings: Vec<Error> = Vec::new();
        let mut order: Vec<usize> = Vec::new();
        let node = self.scene.capture(h, registry, &mut warnings, &mut order);
        let ghost tree = before.tree(h).keep(registry@);
        proof {
            assert(order@ =~= before.preorder(h));
            assert(warnings@ =~= before.tree(h).dropped(registry@));
            lemma_tree_ids_distinct(before, h);
            lemma_keep_ids(before.tree(h), registry@, before.tree(h).children.len());
            assert(tree.ids() == before.tree(h).ids());
            assert(tree.ids().take(0) =~= Seq::<StableId>::empty());
            assert(self.held@ =~= Set::new(
                |k: u128| tree.ids().take(0).contains(StableId { bits: k }),
            ));
        }
        let mut despawned: Vec<Entity> = Vec::new();
        let mut i: usize = 0;
        while i < order.len()
            invariant
                i <= order.len(),
                self.scene.wf(),
                self.scene@ == before,
                self.store@ is Empty,
                self.store.wf(),
                order@ == before.preorder(h),
                tree.ids().len() == order@.len(),
                forall|j: int|
                    0 <= j < order@.len() ==> before.live(#[trigger] order@[j]) && tree.ids()[j]
                        == before.entities[order@[j]].id,
                self.held@ == Set::new(
                    |k: u128| tree.ids().take(i as int).contains(StableId { bits: k }),
                ),
                despawned@ == entities_of(order@.take(i as int)),
            decreases order.len() - i,
        {
            proof {
                assert(before.live(order@[i as int]));
            }
            let id = self.scene.id_at(order[i]);
            self.held.insert(id.bits);
            despawned.push(Entity { index: order[i] });
            proof {
                let seen = tree.ids().take(i as int);
                let more = tree.ids().take(i + 1);
                assert(more =~= seen.push(id));
                assert(self.held@ =~= Set::new(|k: u128| more.contains(StableId { bits: k }))) by {
                    assert forall|k: u128|
                        more.contains(StableId { bits: k }) <==> seen.contains(StableId { bits: k })
                            || k == id.bits by {
                        let key = StableId { bits: k };
                        if seen.contains(key) {
                            let q = choose|q: int| 0 <= q < seen.len() && seen[q] == key;
                            assert(more[q] == key);
                        }
                        if k == id.bits {
                            assert(more[i as int] == key);
                        }
                        if more.contains(key) {
                            let q = choose|q: int| 0 <= q < more.len() && more[q] == key;
                            if q < i {
                                assert(seen[q] == key);
                            }
                        }
                    }
                }
                assert(order@.take(i + 1) =~= order@.take(i as int).push(order@[i as int]));
                assert(despawned@ =~= entities_of(order@.take(i + 1)));
            }
            i = i + 1;
        }
        self.scene.detach(h, &order);
        self.store = Store::Stored { parent, target: picked, snapshot: Snapshot { root: node, parent } };
        proof {
            assert(order@.take(order.len() as int) =~= order@);
            assert(tree.ids().take(order.len() as int) =~= tree.ids());
            lemma_preorder_head(before, h, before.entities[h].children.len());
            assert(tree.id == picked) by {
                assert(before.index.contains_key(picked.bits));
            }
            let after = self@.scene;
            assert forall|j: int| 0 <= j < tree.ids().len() implies !after.has_id(
                #[trigger] tree.ids()[j],
            ) by {
                let x = order@[j];
                assert(before.live(x));
                assert(before.entity_wf(x));
                assert(before.preorder(h).contains(x));
            }
        }
        Ok(Extracted { despawned, warnings })
    }

    /// Plants the stored sub-tree back into the scene and empties the store.
    ///
    /// Fails with `NothingStored` if the store is empty; the failure changes
    /// nothing.  Otherwise the sub-tree is made anew, with fresh handles
    /// and the identifiers it was stored with, as the last child of the
    /// entity `target`.  Without a `target`, or with one that names no live
    /// entity, it becomes the last root.
    pub fn restore(&mut self, registry: &Registry, target: Option<StableId>) -> (outcome: Result<
        Restored,
        Error,
    >)
        requires
            old(self).wf(),
        ensures
            final(self).wf(),
            match outcome {
                Ok(report) => {
                    &&& old(self)@.restore_failure() is None
                    &&& old(self)@.restored(registry@, target, final(self)@)
                    &&& report.root.index == old(self)@.scene.next
                    &&& report.parent == entity_of(old(self)@.scene.resolve_opt(target))
                    &&& report.snapshot.root@ == old(self)@.store->tree
                    &&& report.warnings@ == old(self)@.store->tree.dropped(registry@)
                },
                Err(e) => {
                    &&& old(self)@.restore_failure() == Some(e)
                    &&& final(self)@ == old(self)@
                },
            },
    {
        if self.store.is_empty() {
            return Err(Error::NothingStored);
        }
        let mut taken = Store::Empty;
        core::mem::swap(&mut self.store, &mut taken);
        match taken {
            Store::Empty => Err(Error::NothingStored),
            Store::Stored { snapshot, .. } => {
                let parent: Option<Entity> = match target {
                    Some(id) => self.scene.resolve(id),
                    None => None,
                };
                let under: Option<usize> = match parent {
                    Some(e) => Some(e.index),
                    None => None,
                };
                let mut warnings: Vec<Error> = Vec::new();
                let index = self.scene.plant(&snapshot.root, under, registry, &mut warnings);
                self.held.clear();
                proof {
                    assert(warnings@ =~= snapshot.root@.dropped(registry@));
                    assert(self.held@ =~= Set::new(
                        |k: u128| self@.stored_ids().contains(StableId { bits: k }),
                    ));
                }
                Ok(Restored { root: Entity { index }, parent, snapshot, warnings })
            },
        }
    }
}

} // verus!
