//! What holds of extract and restore taken together.
use vstd::prelude::*;

use crate::editor::EditorView;
use crate::error::Error;
use crate::id::StableId;
use crate::model::{
    lemma_detached_wf, lemma_same_tree_same_entities, lemma_tree_frame, lemma_tree_ids_distinct,
    SceneView,
};
use crate::tree::{lemma_ids_head, lemma_keep_drops_nothing, lemma_keep_ids, lemma_keep_is_stable, NodeView};

verus! {

/// While something is stored, extract is refused with `AlreadyStored`,
/// whatever is picked.
pub proof fn law_full_store_refuses_extract(editor: EditorView, picked: StableId)
    requires
        editor.store is Stored,
    ensures
        editor.extract_failure(picked) == Some(Error::AlreadyStored),
{
}

/// While nothing is stored, restore is refused with `NothingStored`; while
/// something is, it is not refused.
pub proof fn law_empty_store_refuses_restore(editor: EditorView)
    ensures
        editor.store is Empty <==> editor.restore_failure() == Some(Error::NothingStored),
        editor.store is Stored <==> editor.restore_failure() is None,
{
}

/// Extract leaves a well-formed editor with a full store, and the picked
/// identifier no longer names a live entity.
pub proof fn law_extract_keeps_invariant(editor: EditorView, registry: Set<u64>, picked: StableId)
    requires
        editor.wf(),
        editor.extract_failure(picked) is None,
    ensures
        editor.extracted(registry, picked).wf(),
        editor.extracted(registry, picked).store is Stored,
        !editor.extracted(registry, picked).scene.has_id(picked),
{
    let s = editor.scene;
    let h = s.index[picked.bits];
    let after = editor.extracted(registry, picked);
    let tree = s.tree(h).keep(registry);
    assert(s.index.contains_key(picked.bits));
    assert(s.entity_wf(h));
    lemma_detached_wf(s, h);
    lemma_tree_ids_distinct(s, h);
    lemma_keep_ids(s.tree(h), registry, s.tree(h).children.len());
    lemma_ids_head(tree, tree.children.len());
    assert forall|i: int| 0 <= i < tree.ids().len() implies !after.scene.has_id(
        #[trigger] tree.ids()[i],
    ) by {
        let x = s.preorder(h)[i];
        assert(s.live(x));
        assert(s.entity_wf(x));
        assert(s.preorder(h).contains(x));
    }
    assert(!after.scene.has_id(tree.ids()[0]));
}

/// Round trip: extract followed by restore brings the picked sub-tree back
/// with the same shape and the same identifiers, each entity with exactly
/// the components whose kind is registered, in their order.  The picked
/// identifier names the new root, the store is empty again, and the restore
/// leaves nothing further behind.
pub proof fn law_round_trip(
    start: EditorView,
    registry: Set<u64>,
    picked: StableId,
    target: Option<StableId>,
    end: EditorView,
)
    requires
        start.wf(),
        start.extract_failure(picked) is None,
        start.extracted(registry, picked).restored(registry, target, end),
    ensures
        end.store is Empty,
        end.scene.resolve(picked) == Some(start.scene.next as usize),
        end.scene.tree(start.scene.next as usize) == start.scene.tree(
            start.scene.index[picked.bits],
        ).keep(registry),
        end.scene.tree(start.scene.next as usize).ids() == start.scene.tree(
            start.scene.index[picked.bits],
        ).ids(),
        start.extracted(registry, picked).store->tree.dropped(registry) == Seq::<Error>::empty(),
{
    let s = start.scene;
    let h = s.index[picked.bits];
    let whole = s.tree(h);
    let stored = whole.keep(registry);
    let root = s.next as usize;
    assert(s.index.contains_key(picked.bits));
    assert(s.entity_wf(h));
    lemma_keep_is_stable(whole, registry);
    lemma_keep_ids(whole, registry, whole.children.len());
    lemma_keep_drops_nothing(whole, registry, whole.children.len());
    lemma_ids_head(stored, stored.children.len());
    assert(end.scene.entities.contains_key(root));
    assert(end.scene.entity_wf(root));
}

/// Planting a tree without a parent appends it to the forest and leaves the
/// rest of the forest as it was.
pub proof fn law_graft_at_root(before: SceneView, tree: NodeView, after: SceneView)
    requires
        before.wf(),
        before.grafted(None, tree, after),
    ensures
        after.forest() == before.forest().push(tree),
{
    assert forall|i: int| 0 <= i < before.roots.len() implies after.tree(before.roots[i])
        == before.tree(before.roots[i]) by {
        let r = before.roots[i];
        assert(before.live(r));
        lemma_tree_frame(before, after, r);
    }
    assert(after.forest() =~= before.forest().push(tree));
}

/// Planting has one outcome: two well-formed scenes that both come from
/// planting the same tree under the same parent are the same scene.
pub proof fn law_graft_is_determined(
    before: SceneView,
    parent: Option<usize>,
    tree: NodeView,
    one: SceneView,
    other: SceneView,
)
    requires
        before.wf(),
        one.wf(),
        other.wf(),
        before.grafted(parent, tree, one),
        before.grafted(parent, tree, other),
    ensures
        one == other,
{
    let root = before.next as usize;
    lemma_ids_head(tree, tree.children.len());
    assert(one.entities.contains_key(root) && other.entities.contains_key(root));
    lemma_same_tree_same_entities(one, other, root);
    assert forall|x: usize| one.entities.contains_key(x) implies one.entities[x]
        == other.entities[x] by {
        if before.live(x) {
            assert(before.entity_wf(x));
        } else {
            assert(one.preorder(root)[x - before.next] == x);
            assert(one.preorder(root).contains(x));
        }
    }
    assert(one.entities =~= other.entities);
    assert forall|k: u128| one.index.contains_key(k) implies one.index[k] == other.index[k] by {
        if !before.index.contains_key(k) {
            let id = StableId { bits: k };
            let i = choose|i: int| 0 <= i < tree.ids().len() && tree.ids()[i] == id;
            assert(one.index[tree.ids()[i].bits] == before.next + i);
            assert(other.index[tree.ids()[i].bits] == before.next + i);
        }
    }
    assert(one.index =~= other.index);
}

/// Orphan fallback: restoring under no target and restoring under a target
/// that names no live entity both append the stored sub-tree to the roots,
/// and give the same forest.
pub proof fn law_orphan_fallback(
    start: EditorView,
    registry: Set<u64>,
    missing: StableId,
    without: EditorView,
    orphaned: EditorView,
)
    requires
        start.wf(),
        !start.scene.has_id(missing),
        start.restored(registry, None, without),
        start.restored(registry, Some(missing), orphaned),
    ensures
        without.scene.forest() == start.scene.forest().push(start.store->tree.keep(registry)),
        orphaned.scene.forest() == without.scene.forest(),
        orphaned.scene.entities[start.scene.next as usize].parent is None,
        orphaned == without,
{
    let tree = start.store->tree.keep(registry);
    law_graft_at_root(start.scene, tree, without.scene);
    law_graft_at_root(start.scene, tree, orphaned.scene);
    law_graft_is_determined(start.scene, None, tree, without.scene, orphaned.scene);
}

} // verus!
