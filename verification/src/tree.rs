//! Snapshot trees and their mathematical model.
use vstd::prelude::*;

use crate::component::{
    components_view, dropped_components, kept_components, lemma_kept_is_stable, Component,
    ComponentView,
};
use crate::error::Error;
use crate::id::StableId;

verus! {

/// One captured entity: its identifier, its components in order, and the
/// captured entities below it in sibling order.
#[derive(Debug, PartialEq, Eq)]
pub struct SceneNode {
    pub id: StableId,
    pub components: Vec<Component>,
    pub children: Vec<SceneNode>,
}

/// What a [`SceneNode`] holds: a finite ordered tree.
pub ghost struct NodeView {
    pub id: StableId,
    pub components: Seq<ComponentView>,
    pub children: Seq<NodeView>,
}

/// The tree that `node` holds.
pub open spec fn node_view(node: SceneNode) -> NodeView
    decreases node,
{
    NodeView {
        id: node.id,
        components: components_view(node.components@),
        children: Seq::new(
            node.children@.len(),
            |i: int|
                if 0 <= i < node.children@.len() {
                    node_view(node.children@[i])
                } else {
                    arbitrary()
                },
        ),
    }
}

impl View for SceneNode {
    type V = NodeView;

    open spec fn view(&self) -> NodeView {
        node_view(*self)
    }
}

impl Clone for SceneNode {
    fn clone(&self) -> (copy: SceneNode)
        ensures
            copy@ == self@,
        decreases self,
    {
        let mut components: Vec<Component> = Vec::new();
        let mut i: usize = 0;
        while i < self.components.len()
            invariant
                i <= self.components.len(),
                components_view(components@) == components_view(self.components@.take(i as int)),
            decreases self.components.len() - i,
        {
            let ghost before = components@;
            components.push(self.components[i].clone());
            proof {
                assert(self.components@.take(i + 1) =~= self.components@.take(i as int).push(
                    self.components@[i as int],
                ));
                assert(components_view(components@) =~= components_view(before).push(
                    self.components@[i as int]@,
                ));
                assert(components_view(components@) =~= components_view(
                    self.components@.take(i + 1),
                ));
            }
            i = i + 1;
        }
        let mut children: Vec<SceneNode> = Vec::new();
        let mut j: usize = 0;
        while j < self.children.len()
            invariant
                j <= self.children.len(),
                children@.len() == j,
                forall|k: int| 0 <= k < j ==> (#[trigger] children@[k])@ == self.children@[k]@,
            decreases self.children.len() - j,
        {
            children.push(self.children[j].clone());
            j = j + 1;
        }
        let copy = SceneNode { id: self.id, components, children };
        proof {
            assert(self.components@.take(self.components.len() as int) =~= self.components@);
            assert(copy@.children =~= self@.children);
        }
        copy
    }
}

/// What the view of a node is made of.
pub proof fn lemma_node_view(node: &SceneNode)
    ensures
        node@.id == node.id,
        node@.components == components_view(node.components@),
        node@.children.len() == node.children.len(),
        forall|i: int| 0 <= i < node.children.len() ==> #[trigger] node@.children[i] == node.children[i]@,
{
}

/// A sub-tree lifted out of a scene, and where it hung.
#[derive(Debug, PartialEq, Eq)]
pub struct Snapshot {
    /// The captured sub-tree.
    pub root: SceneNode,
    /// The entity the sub-tree hung under, or `None` if it was a root.
    pub parent: Option<StableId>,
}

impl NodeView {
    /// The tree with the same shape and identifiers, in which each entity has
    /// only the components whose kind is registered.
    pub open spec fn keep(self, registry: Set<u64>) -> NodeView
        decreases self,
    {
        NodeView {
            id: self.id,
            components: kept_components(registry, self.components),
            children: Seq::new(
                self.children.len(),
                |i: int|
                    if 0 <= i < self.children.len() {
                        self.children[i].keep(registry)
                    } else {
                        arbitrary()
                    },
            ),
        }
    }

    /// The identifiers in the tree, the root's first, then those of each
    /// sub-tree in sibling order.
    pub open spec fn ids(self) -> Seq<StableId> {
        self.ids_upto(self.children.len())
    }

    /// The identifiers of the root and of its first `k` sub-trees.
    pub open spec fn ids_upto(self, k: nat) -> Seq<StableId>
        decreases self, k,
    {
        if k == 0 || k > self.children.len() {
            seq![self.id]
        } else {
            let child = self.children[k - 1];
            self.ids_upto((k - 1) as nat) + child.ids_upto(child.children.len())
        }
    }

    /// The number of entities in the tree.
    pub open spec fn size(self) -> nat {
        self.ids().len()
    }

    /// The warnings for the components that `keep` leaves behind, in the
    /// order of `ids`, and within one entity in component order.
    pub open spec fn dropped(self, registry: Set<u64>) -> Seq<Error> {
        self.dropped_upto(registry, self.children.len())
    }

    /// The warnings for the root and its first `k` sub-trees.
    pub open spec fn dropped_upto(self, registry: Set<u64>, k: nat) -> Seq<Error>
        decreases self, k,
    {
        if k == 0 || k > self.children.len() {
            dropped_components(registry, self.id, self.components)
        } else {
            let child = self.children[k - 1];
            self.dropped_upto(registry, (k - 1) as nat) + child.dropped_upto(
                registry,
                child.children.len(),
            )
        }
    }
}

/// The identifiers of a tree start with the root's.
pub proof fn lemma_ids_head(n: NodeView, k: nat)
    ensures
        n.ids_upto(k).len() >= 1,
        n.ids_upto(k)[0] == n.id,
    decreases n, k,
{
    if !(k == 0 || k > n.children.len()) {
        lemma_ids_head(n, (k - 1) as nat);
    }
}

/// The identifiers of the first `k` sub-trees come first among all.
pub proof fn lemma_ids_upto_prefix(n: NodeView, k: nat)
    requires
        k <= n.children.len(),
    ensures
        n.ids_upto(k).is_prefix_of(n.ids()),
    decreases n.children.len() - k,
{
    if k < n.children.len() {
        lemma_ids_upto_prefix(n, k + 1);
        let next = n.ids_upto(k + 1);
        assert(n.ids_upto(k).is_prefix_of(next));
        assert forall|i: int| 0 <= i < n.ids_upto(k).len() implies n.ids_upto(k)[i] == n.ids()[i] by {
            assert(n.ids_upto(k)[i] == next[i]);
        }
    }
}

/// Leaving components behind changes no identifier.
pub proof fn lemma_keep_ids(n: NodeView, registry: Set<u64>, k: nat)
    ensures
        n.keep(registry).ids_upto(k) == n.ids_upto(k),
        n.keep(registry).children.len() == n.children.len(),
    decreases n, k,
{
    if !(k == 0 || k > n.children.len()) {
        let child = n.children[k - 1];
        lemma_keep_ids(n, registry, (k - 1) as nat);
        lemma_keep_ids(child, registry, child.children.len());
    }
}

/// Filtering a tree that was filtered already changes nothing.
pub proof fn lemma_keep_is_stable(n: NodeView, registry: Set<u64>)
    ensures
        n.keep(registry).keep(registry) == n.keep(registry),
    decreases n,
{
    let once = n.keep(registry);
    let twice = once.keep(registry);
    lemma_kept_is_stable(registry, n.id, n.components);
    assert forall|i: int| 0 <= i < n.children.len() implies twice.children[i]
        == once.children[i] by {
        lemma_keep_is_stable(n.children[i], registry);
    }
    assert(twice.children =~= once.children);
}

/// Filtering a tree that was filtered already warns of nothing.
pub proof fn lemma_keep_drops_nothing(n: NodeView, registry: Set<u64>, k: nat)
    ensures
        n.keep(registry).dropped_upto(registry, k) == Seq::<Error>::empty(),
    decreases n, k,
{
    lemma_kept_is_stable(registry, n.id, n.components);
    if !(k == 0 || k > n.children.len()) {
        let child = n.children[k - 1];
        lemma_keep_drops_nothing(n, registry, (k - 1) as nat);
        lemma_keep_drops_nothing(child, registry, child.children.len());
    }
}

} // verus!
