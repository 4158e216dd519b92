//! The live scene: a forest of entities in an arena, with an index from
//! stable identifier to handle.
use std::collections::HashMap;
use vstd::prelude::*;

use crate::component::{components_view, Component, Registry};
use crate::error::Error;
use crate::id::StableId;
use crate::model::{
    lemma_detached_wf, lemma_preorder_frame, lemma_preorder_members, lemma_remove_one,
    lemma_spawned_wf, lemma_tree_frame, lemma_tree_ids_distinct, EntityView, SceneView,
};
use crate::tree::{lemma_ids_head, lemma_ids_upto_prefix, lemma_keep_ids, lemma_node_view, SceneNode};

verus! {

/// The transient handle of a live entity.
///
/// A handle is good from the moment the entity is made until it leaves the
/// scene.  Handles are never given twice, so a stale one names nothing.
#[derive(Clone, Copy, Debug, PartialEq, Eq, Hash, Structural)]
pub struct Entity {
    pub index: usize,
}

/// The handle behind an optional [`Entity`].
pub open spec fn handle_of(entity: Option<Entity>) -> Option<usize> {
    match entity {
        Some(e) => Some(e.index),
        None => None,
    }
}

/// The [`Entity`] for an optional handle.
pub open spec fn entity_of(handle: Option<usize>) -> Option<Entity> {
    match handle {
        Some(index) => Some(Entity { index }),
        None => None,
    }
}

/// The entities for a list of handles.
pub open spec fn entities_of(handles: Seq<usize>) -> Seq<Entity> {
    handles.map_values(|index: usize| Entity { index })
}

struct Slot {
    live: bool,
    id: StableId,
    components: Vec<Component>,
    parent: Option<usize>,
    children: Vec<usize>,
}

impl View for Slot {
    type V = EntityView;

    closed spec fn view(&self) -> EntityView {
        EntityView {
            id: self.id,
            components: components_view(self.components@),
            parent: self.parent,
            children: self.children@,
        }
    }
}

/// A forest of live entities.
///
/// Every handle the scene has ever given has a slot; the slot of an entity
/// that has left stays behind, empty.  The index finds the slot of a live
/// entity from its identifier.
pub struct Scene {
    slots: Vec<Slot>,
    roots: Vec<usize>,
    index: HashMap<u128, usize>,
}

impl View for Scene {
    type V = SceneView;

    closed spec fn view(&self) -> SceneView {
        SceneView {
            entities: Map::new(
                |h: usize| h < self.slots.len() && self.slots[h as int].live,
                |h: usize| self.slots[h as int]@,
            ),
            roots: self.roots@,
            index: self.index@,
            next: self.slots.len() as nat,
        }
    }
}

impl Scene {
    /// The invariant that every scene keeps.
    pub open spec fn wf(&self) -> bool {
        self@.wf()
    }

    /// A scene without entities.
    pub fn new() -> (scene: Scene)
        ensures
            scene.wf(),
            scene@ == SceneView::empty(),
    {
        let scene = Scene { slots: Vec::new(), roots: Vec::new(), index: HashMap::new() };
        proof {
            assert(scene@.entities =~= Map::<usize, EntityView>::empty());
            assert(scene@.index =~= Map::<u128, usize>::empty());
        }
        scene
    }

    /// Whether `entity` is live.
    pub fn contains(&self, entity: Entity) -> (live: bool)
        ensures
            live == self@.live(entity.index),
    {
        entity.index < self.slots.len() && self.slots[entity.index].live
    }

    /// The handle of the live entity with the identifier `id`.
    pub fn resolve(&self, id: StableId) -> (found: Option<Entity>)
        requires
            self.wf(),
        ensures
            found == entity_of(self@.resolve(id)),
            found matches Some(e) ==> self@.live(e.index) && self@.entities[e.index].id == id,
    {
        match self.index.get(&id.bits) {
            Some(slot) => {
                let index: usize = *slot;
                proof {
                    assert(self@.index.contains_key(id.bits));
                    assert(self@.live(index));
                }
                Some(Entity { index })
            },
            None => None,
        }
    }

    /// The identifier of `entity`, if it is live.
    pub fn id_of(&self, entity: Entity) -> (id: Option<StableId>)
        ensures
            id == if self@.live(entity.index) {
                Some(self@.entities[entity.index].id)
            } else {
                None
            },
    {
        if self.contains(entity) {
            Some(self.slots[entity.index].id)
        } else {
            None
        }
    }

    /// The parent of `entity`; `None` if it is a root or not live.
    pub fn parent_of(&self, entity: Entity) -> (parent: Option<Entity>)
        ensures
            parent == if self@.live(entity.index) {
                entity_of(self@.entities[entity.index].parent)
            } else {
                None
            },
    {
        if self.contains(entity) {
            match self.slots[entity.index].parent {
                Some(index) => Some(Entity { index }),
                None => None,
            }
        } else {
            None
        }
    }

    /// The children of `entity` in sibling order; none if it is not live.
    pub fn children_of(&self, entity: Entity) -> (children: Vec<Entity>)
        ensures
            children@ == if self@.live(entity.index) {
                entities_of(self@.entities[entity.index].children)
            } else {
                Seq::empty()
            },
    {
        let mut children: Vec<Entity> = Vec::new();
        if self.contains(entity) {
            let list = &self.slots[entity.index].children;
            let mut i: usize = 0;
            while i < list.len()
                invariant
                    i <= list.len(),
                    children@ == entities_of(list@.take(i as int)),
                decreases list.len() - i,
            {
                children.push(Entity { index: list[i] });
                proof {
                    assert(list@.take(i + 1) =~= list@.take(i as int).push(list@[i as int]));
                    assert(children@ =~= entities_of(list@.take(i + 1)));
                }
                i = i + 1;
            }
            proof {
                assert(list@.take(list.len() as int) =~= list@);
            }
        }
        children
    }

    /// The roots in sibling order.
    pub fn roots(&self) -> (roots: Vec<Entity>)
        ensures
            roots@ == entities_of(self@.roots),
    {
        let mut roots: Vec<Entity> = Vec::new();
        let mut i: usize = 0;
        while i < self.roots.len()
            invariant
                i <= self.roots.len(),
                roots@ == entities_of(self.roots@.take(i as int)),
            decreases self.roots.len() - i,
        {
            roots.push(Entity { index: self.roots[i] });
            proof {
                assert(self.roots@.take(i + 1) =~= self.roots@.take(i as int).push(
                    self.roots@[i as int],
                ));
                assert(roots@ =~= entities_of(self.roots@.take(i + 1)));
            }
            i = i + 1;
        }
        proof {
            assert(self.roots@.take(self.roots.len() as int) =~= self.roots@);
        }
        roots
    }

    /// The live entities, oldest first.
    pub fn entities(&self) -> (all: Vec<Entity>)
        ensures
            forall|h: usize| self@.live(h) <==> all@.contains(Entity { index: h }),
            forall|i: int, j: int| 0 <= i < j < all@.len() ==> all@[i].index < all@[j].index,
    {
        let mut all: Vec<Entity> = Vec::new();
        let mut h: usize = 0;
        while h < self.slots.len()
            invariant
                h <= self.slots.len(),
                forall|x: usize| x < h && self@.live(x) <==> all@.contains(Entity { index: x }),
                forall|i: int, j: int| 0 <= i < j < all@.len() ==> all@[i].index < all@[j].index,
                forall|i: int| 0 <= i < all@.len() ==> (#[trigger] all@[i]).index < h,
            decreases self.slots.len() - h,
        {
            let ghost before = all@;
            if self.slots[h].live {
                all.push(Entity { index: h });
                proof {
                    assert(all@.last() == Entity { index: h });
                    assert forall|x: usize| x < h + 1 && self@.live(x) <==> all@.contains(
                        Entity { index: x },
                    ) by {
                        let e = Entity { index: x };
                        if before.contains(e) {
                            let q = choose|q: int| 0 <= q < before.len() && before[q] == e;
                            assert(all@[q] == e);
                        }
                        if all@.contains(e) {
                            let q = choose|q: int| 0 <= q < all@.len() && all@[q] == e;
                            if q < before.len() {
                                assert(before[q] == e);
                            }
                        }
                    }
                }
            }
            h = h + 1;
        }
        all
    }

    /// The components of `entity` in order, if it is live.
    pub fn components_of(&self, entity: Entity) -> (components: Option<&Vec<Component>>)
        ensures
            match components {
                Some(list) => self@.live(entity.index) && components_view(list@)
                    == self@.entities[entity.index].components,
                None => !self@.live(entity.index),
            },
    {
        if self.contains(entity) {
            Some(&self.slots[entity.index].components)
        } else {
            None
        }
    }

    /// Makes an entity without children, as the last child of `parent` or,
    /// without one, as the last root.
    ///
    /// Nothing is made, and `None` returned, if `id` is in use or `parent`
    /// is not live.
    pub fn spawn_with_id(
        &mut self,
        id: StableId,
        components: Vec<Component>,
        parent: Option<Entity>,
    ) -> (made: Option<Entity>)
        requires
            old(self).wf(),
        ensures
            final(self).wf(),
            match made {
                Some(e) => {
                    &&& !old(self)@.has_id(id)
                    &&& parent matches Some(p) ==> old(self)@.live(p.index)
                    &&& e.index == old(self)@.next
                    &&& final(self)@ == old(self)@.spawned(
                        id,
                        components_view(components@),
                        handle_of(parent),
                    )
                },
                None => {
                    &&& old(self)@.has_id(id) || (parent matches Some(p) && !old(self)@.live(
                        p.index,
                    ))
                    &&& final(self)@ == old(self)@
                },
            },
    {
        if self.index.contains_key(&id.bits) {
            return None;
        }
        let under: Option<usize> = match parent {
            Some(p) => {
                if !self.contains(p) {
                    return None;
                }
                Some(p.index)
            },
            None => None,
        };
        let index = self.insert(id, components, under);
        Some(Entity { index })
    }

    /// Makes an entity without children under the live entity `parent` or,
    /// without one, as the last root, and returns its handle.
    fn insert(&mut self, id: StableId, components: Vec<Component>, parent: Option<usize>) -> (h:
        usize)
        requires
            old(self).wf(),
            !old(self)@.has_id(id),
            parent matches Some(p) ==> old(self)@.live(p),
        ensures
            final(self).wf(),
            h == old(self)@.next,
            final(self)@ == old(self)@.spawned(id, components_view(components@), parent),
    {
        let h: usize = self.slots.len();
        self.slots.push(Slot { live: true, id, components, parent, children: Vec::new() });
        match parent {
            Some(p) => {
                self.slots[p].children.push(h);
            },
            None => {
                self.roots.push(h);
            },
        }
        self.index.insert(id.bits, h);
        proof {
            let goal = old(self)@.spawned(id, components_view(components@), parent);
            assert(self.slots@.len() == self.slots.len());
            lemma_spawned_wf(old(self)@, id, components_view(components@), parent);
            assert(self@.entities =~= goal.entities);
        }
        h
    }

    /// The identifier of the live entity `h`.
    pub(crate) fn id_at(&self, h: usize) -> (id: StableId)
        requires
            self@.live(h),
        ensures
            id == self@.entities[h].id,
    {
        self.slots[h].id
    }

    /// Copies the sub-tree under `h` into a tree of its own, leaving behind
    /// the components that `registry` does not know, with a warning for each.
    /// The handles of the sub-tree are appended to `order`, the root's first.
    pub(crate) fn capture(
        &self,
        h: usize,
        registry: &Registry,
        warnings: &mut Vec<Error>,
        order: &mut Vec<usize>,
    ) -> (node: SceneNode)
        requires
            self.wf(),
            self@.live(h),
        ensures
            node@ == self@.tree(h).keep(registry@),
            final(warnings)@ == old(warnings)@ + self@.tree(h).dropped(registry@),
            final(order)@ == old(order)@ + self@.preorder(h),
        decreases self@.next - h,
    {
        let slot = &self.slots[h];
        let ghost whole = self@.tree(h);
        proof {
            assert(self@.entity_wf(h));
            assert(whole.children.len() == slot.children@.len());
        }
        let kept = registry.sift(slot.id, &slot.components, warnings);
        order.push(h);
        let mut children: Vec<SceneNode> = Vec::new();
        let mut i: usize = 0;
        proof {
            assert(order@ =~= old(order)@ + self@.preorder_upto(h, 0));
        }
        while i < slot.children.len()
            invariant
                self.wf(),
                self@.live(h),
                h < self.slots.len(),
                *slot == self.slots[h as int],
                whole == self@.tree(h),
                whole.children.len() == slot.children@.len(),
                i <= slot.children.len(),
                children@.len() == i,
                forall|j: int| 0 <= j < i ==> (#[trigger] children@[j])@ == whole.children[j].keep(registry@),
                warnings@ == old(warnings)@ + whole.dropped_upto(registry@, i as nat),
                order@ == old(order)@ + self@.preorder_upto(h, i as nat),
            decreases slot.children.len() - i,
        {
            let c: usize = slot.children[i];
            proof {
                assert(self@.entity_wf(h));
                assert(self@.child_wf(h, self@.entities[h].children[i as int]));
                assert(self@.entity_wf(c));
                assert(whole.children[i as int] == self@.tree(c));
            }
            let child = self.capture(c, registry, warnings, order);
            children.push(child);
            proof {
                assert(warnings@ =~= old(warnings)@ + whole.dropped_upto(registry@, (i + 1) as nat));
                assert(order@ =~= old(order)@ + self@.preorder_upto(h, (i + 1) as nat));
            }
            i = i + 1;
        }
        let node = SceneNode { id: slot.id, components: kept, children };
        proof {
            assert(node@.children =~= whole.keep(registry@).children);
        }
        node
    }

    /// Takes the sub-tree under `h` out of the scene.  `order` lists the
    /// handles of the sub-tree.
    pub(crate) fn detach(&mut self, h: usize, order: &Vec<usize>)
        requires
            old(self).wf(),
            old(self)@.live(h),
            order@ == old(self)@.preorder(h),
        ensures
            final(self).wf(),
            final(self)@ == old(self)@.detached(h),
    {
        let ghost start = *self;
        let ghost goal = start@.detached(h);
        let above: Option<usize> = self.slots[h].parent;
        proof {
            assert(start@.entity_wf(h));
        }
        match above {
            Some(p) => {
                proof {
                    assert(start@.entity_wf(p));
                    lemma_remove_one(start@.entities[p].children, h);
                }
                let at: usize = position(&self.slots[p].children, h);
                self.slots[p].children.remove(at);
            },
            None => {
                proof {
                    lemma_remove_one(start@.roots, h);
                }
                let at: usize = position(&self.roots, h);
                self.roots.remove(at);
            },
        }
        proof {
            lemma_preorder_members(start@, h, start@.entities[h].children.len());
            assert(order@.take(0) =~= Seq::<usize>::empty());
            assert(self.index@ =~= Map::new(
                |k: u128|
                    start.index@.contains_key(k) && !order@.take(0).contains(start.index@[k]),
                |k: u128| start.index@[k],
            ));
        }
        let mut i: usize = 0;
        while i < order.len()
            invariant
                start.wf(),
                start@.live(h),
                order@ == start@.preorder(h),
                goal == start@.detached(h),
                above == start@.entities[h].parent,
                forall|x: usize| #[trigger] order@.contains(x) ==> start@.live(x),
                i <= order.len(),
                self.slots.len() == start.slots.len(),
                self.roots@ == goal.roots,
                forall|x: int|
                    0 <= x < self.slots.len() ==> (#[trigger] self.slots[x]).id == start.slots[x].id,
                forall|x: usize|
                    x < self.slots.len() && order@.take(i as int).contains(x)
                        ==> !(#[trigger] self.slots[x as int]).live,
                forall|x: usize|
                    x < self.slots.len() && !order@.take(i as int).contains(x) ==> (
                    #[trigger] self.slots[x as int]).live == start.slots[x as int].live,
                forall|x: usize|
                    x < self.slots.len() && start.slots[x as int].live && !order@.contains(x)
                        ==> (#[trigger] self.slots[x as int])@ == goal.entities[x],
                self.index@ == Map::new(
                    |k: u128|
                        start.index@.contains_key(k) && !order@.take(i as int).contains(
                            start.index@[k],
                        ),
                    |k: u128| start.index@[k],
                ),
            decreases order.len() - i,
        {
            let x: usize = order[i];
            proof {
                assert(order@.contains(x));
                assert(start@.live(x));
                assert(start@.entity_wf(x));
                assert(order@.take(i + 1) =~= order@.take(i as int).push(x));
            }
            let id = self.slots[x].id;
            self.slots[x].live = false;
            self.slots[x].components = Vec::new();
            self.slots[x].children = Vec::new();
            self.index.remove(&id.bits);
            proof {
                assert forall|y: usize|
                    y < self.slots.len() && !order@.take(i + 1).contains(y) implies (
                #[trigger] self.slots[y as int]).live == start.slots[y as int].live by {
                    assert(order@.take(i + 1)[i as int] == x);
                    if order@.take(i as int).contains(y) {
                        let w = choose|w: int|
                            0 <= w < order@.take(i as int).len() && order@.take(i as int)[w] == y;
                        assert(order@.take(i + 1)[w] == y);
                    }
                }
                assert(self.index@ =~= Map::new(
                    |k: u128|
                        start.index@.contains_key(k) && !order@.take(i + 1).contains(
                            start.index@[k],
                        ),
                    |k: u128| start.index@[k],
                )) by {
                    assert forall|k: u128| start.index@.contains_key(k) implies (start.index@[k]
                        == x <==> k == id.bits) by {
                        assert(start@.index.contains_key(k));
                    }
                }
            }
            i = i + 1;
        }
        proof {
            assert(order@.take(order.len() as int) =~= order@);
            lemma_detached_wf(start@, h);
            assert(self@.entities =~= goal.entities);
            assert(self@.index =~= goal.index);
        }
    }

    /// Plants a copy of `node` as the last child of `parent` (or as the last
    /// root), leaving out the components that `registry` does not know, with
    /// a warning for each.  Returns the handle of the copy's root.
    pub(crate) fn plant(
        &mut self,
        node: &SceneNode,
        parent: Option<usize>,
        registry: &Registry,
        warnings: &mut Vec<Error>,
    ) -> (root: usize)
        requires
            old(self).wf(),
            parent matches Some(p) ==> old(self)@.live(p),
            node@.ids().no_duplicates(),
            forall|m: int| 0 <= m < node@.ids().len() ==> !old(self)@.has_id(#[trigger] node@.ids()[m]),
        ensures
            final(self).wf(),
            root == old(self)@.next,
            old(self)@.grafted(parent, node@.keep(registry@), final(self)@),
            final(warnings)@ == old(warnings)@ + node@.dropped(registry@),
        decreases node,
    {
        let ghost start = self@;
        let ghost whole = node@;
        let ghost tree = node@.keep(registry@);
        let ghost all = node@.ids();
        let count: usize = node.children.len();
        proof {
            lemma_node_view(node);
            lemma_keep_ids(whole, registry@, whole.children.len());
            lemma_ids_head(whole, whole.children.len());
            assert(!start.has_id(all[0]));
        }
        let kept = registry.sift(node.id, &node.components, warnings);
        let ghost kept_view = components_view(kept@);
        let root: usize = self.insert(node.id, kept, parent);
        let ghost first = self@;
        proof {
            assert(first == start.spawned(node.id, kept_view, parent));
            assert(start.next == root);
            assert forall|x: usize| start.live(x) implies x < root by {
                assert(start.entity_wf(x));
            }
            assert(self@.preorder_upto(root, 0) =~= Seq::new(
                whole.ids_upto(0).len(),
                |k: int| (root + k) as usize,
            ));
            assert forall|k: u128| #[trigger]
                self@.index.contains_key(k) <==> start.index.contains_key(k) || whole.ids_upto(
                    0,
                ).contains(StableId { bits: k }) by {
                assert(whole.ids_upto(0)[0] == node.id);
                if whole.ids_upto(0).contains(StableId { bits: k }) {
                    assert(k == node.id.bits);
                }
                if k == node.id.bits {
                    assert(StableId { bits: k } == node.id);
                }
            }
        }
        let mut i: usize = 0;
        while i < count
            invariant
                self.wf(),
                start.wf(),
                count == node.children.len(),
                whole == node@,
                whole.children.len() == count,
                tree == whole.keep(registry@),
                all == whole.ids(),
                all.no_duplicates(),
                forall|m: int| 0 <= m < all.len() ==> !start.has_id(#[trigger] all[m]),
                first == start.spawned(node.id, kept_view, parent),
                parent matches Some(p) ==> start.live(p),
                root == start.next,
                forall|x: usize| start.live(x) ==> x < root,
                i <= count,
                self@.next == root + whole.ids_upto(i as nat).len(),
                forall|x: usize| #[trigger]
                    self@.entities.contains_key(x) <==> start.live(x) || root <= x < self@.next,
                forall|x: usize| start.live(x) ==> #[trigger] self@.entities[x] == first.entities[x],
                self@.roots == first.roots,
                self@.entities[root].id == node.id,
                self@.entities[root].components == kept_view,
                self@.entities[root].parent == parent,
                self@.entities[root].children.len() == i,
                forall|j: int|
                    0 <= j < i ==> root < (#[trigger] self@.entities[root].children[j]) < self@.next
                        && self@.tree(self@.entities[root].children[j]) == tree.children[j],
                self@.preorder_upto(root, i as nat) == Seq::new(
                    whole.ids_upto(i as nat).len(),
                    |k: int| (root + k) as usize,
                ),
                forall|k: u128| #[trigger]
                    self@.index.contains_key(k) <==> start.index.contains_key(k) || whole.ids_upto(
                        i as nat,
                    ).contains(StableId { bits: k }),
                forall|k: u128| start.index.contains_key(k) ==> #[trigger] self@.index[k] == start.index[k],
                warnings@ == old(warnings)@ + whole.dropped_upto(registry@, i as nat),
            decreases count - i,
        {
            let child = &node.children[i];
            let ghost before = self@;
            let ghost done = whole.ids_upto(i as nat);
            let ghost more = whole.ids_upto((i + 1) as nat);
            proof {
                lemma_node_view(node);
                lemma_ids_head(whole, i as nat);
                assert(before.entities.contains_key(root));
                assert(whole.children[i as int] == child@);
                assert(more == done + child@.ids());
                lemma_ids_upto_prefix(whole, (i + 1) as nat);
                assert forall|m: int| 0 <= m < child@.ids().len() implies all[done.len() + m]
                    == #[trigger] child@.ids()[m] by {
                    assert(more[done.len() + m] == child@.ids()[m]);
                }
                assert forall|m: int| 0 <= m < done.len() implies all[m] == #[trigger] done[m] by {
                    assert(more[m] == done[m]);
                }
                assert forall|m: int, n: int|
                    0 <= m < child@.ids().len() && 0 <= n < child@.ids().len() && m != n implies child@.ids()[m]
                    != child@.ids()[n] by {
                    assert(all[done.len() + m] == child@.ids()[m]);
                    assert(all[done.len() + n] == child@.ids()[n]);
                }
                assert forall|m: int| 0 <= m < child@.ids().len() implies !before.has_id(
                    #[trigger] child@.ids()[m],
                ) by {
                    let id = child@.ids()[m];
                    assert(all[done.len() + m] == id);
                    assert(!start.has_id(all[done.len() + m]));
                    if done.contains(StableId { bits: id.bits }) {
                        let q = choose|q: int| 0 <= q < done.len() && done[q] == id;
                        assert(all[q] == done[q]);
                    }
                }
                assert(before.entity_wf(root));
            }
            let at = self.plant(child, Some(root), registry, warnings);
            proof {
                let after = self@;
                let sub = child@.keep(registry@);
                lemma_keep_ids(child@, registry@, child@.children.len());
                assert(sub.ids() == child@.ids());
                assert(tree.children[i as int] == sub);
                assert(before.grafted(Some(root), sub, after));
                assert(after.entities[root].children == before.entities[root].children.push(at));
                assert forall|x: usize| start.live(x) implies #[trigger] after.entities[x]
                    == first.entities[x] by {
                    assert(before.live(x));
                    assert(before.entities[x] == first.entities[x]);
                }
                assert forall|j: int| 0 <= j < i + 1 implies root < (
                #[trigger] after.entities[root].children[j]) < after.next && after.tree(
                    after.entities[root].children[j],
                ) == tree.children[j] by {
                    if j < i {
                        let c = before.entities[root].children[j];
                        assert(after.entities[root].children[j] == c);
                        assert(before.live(c));
                        lemma_tree_frame(before, after, c);
                    }
                }
                lemma_preorder_frame(before, after, root, i as nat);
                assert(after.preorder_upto(root, (i + 1) as nat) == after.preorder_upto(
                    root,
                    i as nat,
                ) + after.preorder(at));
                assert(after.preorder_upto(root, (i + 1) as nat) =~= Seq::new(
                    more.len(),
                    |k: int| (root + k) as usize,
                ));
                assert forall|k: u128| #[trigger]
                    after.index.contains_key(k) <==> start.index.contains_key(k) || more.contains(
                        StableId { bits: k },
                    ) by {
                    let id = StableId { bits: k };
                    if done.contains(id) {
                        let q = choose|q: int| 0 <= q < done.len() && done[q] == id;
                        assert(more[q] == id);
                    }
                    if child@.ids().contains(id) {
                        let q = choose|q: int| 0 <= q < child@.ids().len() && child@.ids()[q] == id;
                        assert(more[done.len() + q] == id);
                    }
                    if more.contains(id) {
                        let q = choose|q: int| 0 <= q < more.len() && more[q] == id;
                        if q < done.len() {
                            assert(done[q] == id);
                        } else {
                            assert(child@.ids()[q - done.len()] == id);
                        }
                    }
                }
                assert forall|k: u128| start.index.contains_key(k) implies #[trigger] after.index[k]
                    == start.index[k] by {
                    assert(before.index.contains_key(k));
                }
                assert(warnings@ =~= old(warnings)@ + whole.dropped_upto(
                    registry@,
                    (i + 1) as nat,
                ));
            }
            i = i + 1;
        }
        proof {
            let after = self@;
            assert(after.tree(root).children =~= tree.children);
            assert(after.tree(root) == tree);
            assert(tree.ids() == whole.ids());
            lemma_ids_head(whole, count as nat);
            assert(after.entities.contains_key(root));
            lemma_tree_ids_distinct(after, root);
            assert forall|i: int| 0 <= i < tree.size() implies after.index[(
            #[trigger] tree.ids()[i]).bits] == start.next + i by {
                let x = after.preorder(root)[i];
                assert(after.live(x));
                assert(after.entity_wf(x));
            }
        }
        root
    }
}

/// Where `v` stands in `list`.
fn position(list: &Vec<usize>, v: usize) -> (at: usize)
    requires
        list@.no_duplicates(),
        list@.contains(v),
    ensures
        at < list.len(),
        at == list@.index_of(v),
        list@[at as int] == v,
{
    let mut at: usize = 0;
    while list[at] != v
        invariant
            at < list.len(),
            list@.contains(v),
            forall|j: int| 0 <= j < at ==> list@[j] != v,
        decreases list.len() - at,
    {
        proof {
            let w = choose|w: int| 0 <= w < list@.len() && list@[w] == v;
            assert(w > at);
        }
        at = at + 1;
    }
    proof {
        lemma_remove_one(list@, v);
    }
    at
}

} // verus!
