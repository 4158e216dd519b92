//! The mathematical model of a live scene, and what follows from its
//! well-formedness.
use vstd::prelude::*;
use vstd::seq_lib::lemma_no_dup_in_concat;

use crate::component::ComponentView;
use crate::id::StableId;
use crate::tree::NodeView;

verus! {

/// What the scene knows of one live entity.
pub ghost struct EntityView {
    pub id: StableId,
    pub components: Seq<ComponentView>,
    /// The handle of the parent, or `None` for a root.
    pub parent: Option<usize>,
    /// The handles of the children, in sibling order.
    pub children: Seq<usize>,
}

/// A scene as a mathematical object: the live entities by handle, the roots
/// in sibling order, the identifier index, and the next handle to be given.
pub ghost struct SceneView {
    pub entities: Map<usize, EntityView>,
    pub roots: Seq<usize>,
    pub index: Map<u128, usize>,
    pub next: nat,
}

impl SceneView {
    /// The scene without entities.
    pub open spec fn empty() -> SceneView {
        SceneView { entities: Map::empty(), roots: Seq::empty(), index: Map::empty(), next: 0 }
    }

    /// Whether `h` is the handle of a live entity.
    pub open spec fn live(self, h: usize) -> bool {
        self.entities.contains_key(h)
    }

    /// Whether some live entity has the identifier `id`.
    pub open spec fn has_id(self, id: StableId) -> bool {
        self.index.contains_key(id.bits)
    }

    /// The handle of the live entity with the identifier `id`.
    pub open spec fn resolve(self, id: StableId) -> Option<usize> {
        if self.index.contains_key(id.bits) {
            Some(self.index[id.bits])
        } else {
            None
        }
    }

    /// The handle behind an optional identifier; an identifier of no live
    /// entity counts as none.
    pub open spec fn resolve_opt(self, id: Option<StableId>) -> Option<usize> {
        match id {
            Some(id) => self.resolve(id),
            None => None,
        }
    }

    /// The identifier of the entity with handle `h`.
    pub open spec fn id_at(self) -> spec_fn(usize) -> StableId {
        |h: usize| self.entities[h].id
    }

    /// Whether `c` is a proper child of `h`: younger, live, and pointing back.
    pub open spec fn child_wf(self, h: usize, c: usize) -> bool {
        h < c && self.live(c) && self.entities[c].parent == Some(h)
    }

    /// What must hold of each live entity.
    pub open spec fn entity_wf(self, h: usize) -> bool {
        let e = self.entities[h];
        &&& h < self.next
        &&& self.index.contains_key(e.id.bits)
        &&& self.index[e.id.bits] == h
        &&& match e.parent {
            Some(p) => p < h && self.live(p) && self.entities[p].children.contains(h),
            None => self.roots.contains(h),
        }
        &&& e.children.no_duplicates()
        &&& forall|i: int| 0 <= i < e.children.len() ==> self.child_wf(h, #[trigger] e.children[i])
    }

    /// The invariant of a scene: handles are given in increasing order and a
    /// parent is older than its children, parent and child links agree, the
    /// roots are the entities without parent, and the index names exactly
    /// the live entities, one identifier each.
    pub open spec fn wf(self) -> bool {
        &&& self.next <= usize::MAX
        &&& forall|h: usize| #[trigger] self.entities.contains_key(h) ==> self.entity_wf(h)
        &&& self.roots.no_duplicates()
        &&& forall|i: int|
            0 <= i < self.roots.len() ==> self.live(#[trigger] self.roots[i])
                && self.entities[self.roots[i]].parent is None
        &&& forall|k: u128| #[trigger]
            self.index.contains_key(k) ==> self.live(self.index[k])
                && self.entities[self.index[k]].id.bits == k
    }

    /// The sub-tree under `h`, without the handles.
    pub open spec fn tree(self, h: usize) -> NodeView
        decreases self.next - h,
    {
        let e = self.entities[h];
        NodeView {
            id: e.id,
            components: e.components,
            children: Seq::new(
                e.children.len(),
                |i: int|
                    if h < e.children[i] < self.next {
                        self.tree(e.children[i])
                    } else {
                        arbitrary()
                    },
            ),
        }
    }

    /// The handles in the sub-tree under `h`: `h` first, then those of each
    /// child's sub-tree in sibling order.
    pub open spec fn preorder(self, h: usize) -> Seq<usize> {
        self.preorder_upto(h, self.entities[h].children.len())
    }

    /// The handles of `h` and of the sub-trees of its first `k` children.
    pub open spec fn preorder_upto(self, h: usize, k: nat) -> Seq<usize>
        decreases self.next - h, k,
    {
        let e = self.entities[h];
        if k == 0 || k > e.children.len() {
            seq![h]
        } else {
            let c = e.children[k - 1];
            self.preorder_upto(h, (k - 1) as nat) + (if h < c < self.next {
                self.preorder_upto(c, self.entities[c].children.len())
            } else {
                Seq::empty()
            })
        }
    }

    /// The top-level sub-trees in sibling order, without the handles.
    pub open spec fn forest(self) -> Seq<NodeView> {
        Seq::new(self.roots.len(), |i: int| self.tree(self.roots[i]))
    }

    /// The scene after a new entity without children is made under `parent`
    /// (or as the last root).  Its handle is `self.next`.
    pub open spec fn spawned(
        self,
        id: StableId,
        components: Seq<ComponentView>,
        parent: Option<usize>,
    ) -> SceneView {
        let h = self.next as usize;
        let fresh = EntityView { id, components, parent, children: Seq::empty() };
        SceneView {
            entities: match parent {
                Some(p) => self.entities.insert(
                    p,
                    EntityView { children: self.entities[p].children.push(h), ..self.entities[p] },
                ).insert(h, fresh),
                None => self.entities.insert(h, fresh),
            },
            roots: if parent is None {
                self.roots.push(h)
            } else {
                self.roots
            },
            index: self.index.insert(id.bits, h),
            next: self.next + 1,
        }
    }

    /// Whether `after` is this scene with a copy of `tree` planted as the
    /// last child of `parent` (or as the last root): the copy's entities
    /// have the next handles, in the order of `tree.ids()`; the entities
    /// that were there are as they were, but for the new child of `parent`.
    pub open spec fn grafted(self, parent: Option<usize>, tree: NodeView, after: SceneView) -> bool {
        let root = self.next as usize;
        &&& after.next == self.next + tree.size()
        &&& forall|x: usize| #[trigger]
            after.entities.contains_key(x) <==> self.live(x) || self.next <= x < after.next
        &&& forall|x: usize|
            self.live(x) ==> #[trigger] after.entities[x] == if parent == Some(x) {
                EntityView { children: self.entities[x].children.push(root), ..self.entities[x] }
            } else {
                self.entities[x]
            }
        &&& after.roots == if parent is None {
            self.roots.push(root)
        } else {
            self.roots
        }
        &&& after.entities[root].parent == parent
        &&& after.tree(root) == tree
        &&& after.preorder(root) == Seq::new(tree.size(), |k: int| (self.next + k) as usize)
        &&& forall|k: u128| #[trigger]
            after.index.contains_key(k) <==> self.index.contains_key(k) || tree.ids().contains(
                StableId { bits: k },
            )
        &&& forall|k: u128| self.index.contains_key(k) ==> #[trigger] after.index[k] == self.index[k]
        &&& forall|i: int|
            0 <= i < tree.size() ==> after.index[(#[trigger] tree.ids()[i]).bits] == self.next + i
    }

    /// The scene after the sub-tree under `h` is taken away.
    pub open spec fn detached(self, h: usize) -> SceneView {
        let gone = self.preorder(h);
        let parent = self.entities[h].parent;
        SceneView {
            entities: Map::new(
                |x: usize| self.live(x) && !gone.contains(x),
                |x: usize|
                    if parent == Some(x) {
                        let siblings = self.entities[x].children;
                        EntityView { children: siblings.remove(siblings.index_of(h)), ..self.entities[x] }
                    } else {
                        self.entities[x]
                    },
            ),
            roots: if parent is None {
                self.roots.remove(self.roots.index_of(h))
            } else {
                self.roots
            },
            index: Map::new(
                |k: u128| self.index.contains_key(k) && !gone.contains(self.index[k]),
                |k: u128| self.index[k],
            ),
            next: self.next,
        }
    }
}

/// A sub-tree's handles start with its root's.
pub proof fn lemma_preorder_head(s: SceneView, h: usize, k: nat)
    ensures
        s.preorder_upto(h, k).len() >= 1,
        s.preorder_upto(h, k)[0] == h,
        s.preorder_upto(h, k).contains(h),
    decreases k,
{
    let e = s.entities[h];
    if !(k == 0 || k > e.children.len()) {
        lemma_preorder_head(s, h, (k - 1) as nat);
    }
    assert(s.preorder_upto(h, k)[0] == h);
}

/// Whatever is in a sub-tree besides the root is in the sub-tree of one of
/// the root's children.
pub proof fn lemma_preorder_split(s: SceneView, h: usize, k: nat, x: usize) -> (j: int)
    requires
        s.preorder_upto(h, k).contains(x),
        x != h,
    ensures
        0 <= j < k,
        j < s.entities[h].children.len(),
        h < s.entities[h].children[j] < s.next,
        s.preorder(s.entities[h].children[j]).contains(x),
    decreases k,
{
    let e = s.entities[h];
    if k == 0 || k > e.children.len() {
        assert(s.preorder_upto(h, k) =~= seq![h]);
        assert(false);
        0
    } else {
        let c = e.children[k - 1];
        let front = s.preorder_upto(h, (k - 1) as nat);
        let back = if h < c < s.next {
            s.preorder(c)
        } else {
            Seq::empty()
        };
        let i = choose|i: int| 0 <= i < (front + back).len() && (front + back)[i] == x;
        if i < front.len() {
            assert(front[i] == x);
            lemma_preorder_split(s, h, (k - 1) as nat, x)
        } else {
            assert(back[i - front.len()] == x);
            k - 1
        }
    }
}

/// Everything in a sub-tree is live and no older than the root.
pub proof fn lemma_preorder_members(s: SceneView, h: usize, k: nat)
    requires
        s.wf(),
        s.live(h),
    ensures
        forall|x: usize| #[trigger]
            s.preorder_upto(h, k).contains(x) ==> s.live(x) && h <= x,
    decreases s.next - h, k,
{
    let e = s.entities[h];
    if !(k == 0 || k > e.children.len()) {
        let c = e.children[k - 1];
        assert(s.child_wf(h, c));
        let front = s.preorder_upto(h, (k - 1) as nat);
        let back = s.preorder(c);
        lemma_preorder_members(s, h, (k - 1) as nat);
        lemma_preorder_members(s, c, s.entities[c].children.len());
        assert forall|x: usize| #[trigger]
            s.preorder_upto(h, k).contains(x) implies s.live(x) && h <= x by {
            let i = choose|i: int| 0 <= i < (front + back).len() && (front + back)[i] == x;
            if i < front.len() {
                assert(front[i] == x);
                assert(front.contains(x));
            } else {
                assert(back[i - front.len()] == x);
                assert(back.contains(x));
            }
        }
    }
}

/// The sub-tree of a child lies within the sub-tree of its parent.
pub proof fn lemma_preorder_sub(s: SceneView, h: usize, k: nat, j: int)
    requires
        s.wf(),
        s.live(h),
        0 <= j < k <= s.entities[h].children.len(),
    ensures
        forall|x: usize| #[trigger]
            s.preorder(s.entities[h].children[j]).contains(x) ==> s.preorder_upto(h, k).contains(
                x,
            ),
    decreases k,
{
    let e = s.entities[h];
    let c = e.children[k - 1];
    assert(s.child_wf(h, c));
    let front = s.preorder_upto(h, (k - 1) as nat);
    let back = s.preorder(c);
    if j < k - 1 {
        lemma_preorder_sub(s, h, (k - 1) as nat, j);
    }
    assert forall|x: usize| #[trigger]
        s.preorder(e.children[j]).contains(x) implies s.preorder_upto(h, k).contains(x) by {
        if j < k - 1 {
            let i = choose|i: int| 0 <= i < front.len() && front[i] == x;
            assert((front + back)[i] == x);
        } else {
            let i = choose|i: int| 0 <= i < back.len() && back[i] == x;
            assert((front + back)[front.len() + i] == x);
        }
    }
}

/// A sub-tree holds the children of whatever it holds.
pub proof fn lemma_preorder_down(s: SceneView, h: usize, p: usize, c: usize)
    requires
        s.wf(),
        s.live(h),
        s.preorder(h).contains(p),
        s.entities[p].children.contains(c),
    ensures
        s.preorder(h).contains(c),
    decreases s.next - h,
{
    let e = s.entities[h];
    if p == h {
        let j = choose|j: int| 0 <= j < e.children.len() && e.children[j] == c;
        lemma_preorder_head(s, c, s.entities[c].children.len());
        assert(s.preorder(c).contains(c));
        lemma_preorder_sub(s, h, e.children.len(), j);
    } else {
        let j = lemma_preorder_split(s, h, e.children.len(), p);
        let via = e.children[j];
        assert(s.child_wf(h, via));
        lemma_preorder_down(s, via, p, c);
        lemma_preorder_sub(s, h, e.children.len(), j);
    }
}

/// A sub-tree holds the parent of whatever it holds besides its root.
pub proof fn lemma_preorder_up(s: SceneView, h: usize, x: usize)
    requires
        s.wf(),
        s.live(h),
        s.preorder(h).contains(x),
        x != h,
    ensures
        s.entities[x].parent is Some,
        s.preorder(h).contains(s.entities[x].parent->0),
    decreases s.next - h,
{
    let e = s.entities[h];
    let j = lemma_preorder_split(s, h, e.children.len(), x);
    let via = e.children[j];
    assert(s.child_wf(h, via));
    if x == via {
        lemma_preorder_head(s, h, e.children.len());
    } else {
        lemma_preorder_up(s, via, x);
        lemma_preorder_sub(s, h, e.children.len(), j);
    }
}

/// The sub-trees of two children of one parent share nothing.
pub proof fn lemma_siblings_apart(s: SceneView, a: usize, b: usize, x: usize)
    requires
        s.wf(),
        s.live(a),
        s.live(b),
        s.entities[a].parent is Some,
        s.entities[a].parent == s.entities[b].parent,
        s.preorder(a).contains(x),
        s.preorder(b).contains(x),
    ensures
        a == b,
    decreases x,
{
    lemma_preorder_members(s, a, s.entities[a].children.len());
    lemma_preorder_members(s, b, s.entities[b].children.len());
    if a != b {
        if x == a {
            lemma_preorder_up(s, b, x);
        } else if x == b {
            lemma_preorder_up(s, a, x);
        } else {
            lemma_preorder_up(s, a, x);
            lemma_preorder_up(s, b, x);
            lemma_siblings_apart(s, a, b, s.entities[x].parent->0);
        }
    }
}

/// No handle occurs twice in a sub-tree.
pub proof fn lemma_preorder_distinct(s: SceneView, h: usize, k: nat)
    requires
        s.wf(),
        s.live(h),
    ensures
        s.preorder_upto(h, k).no_duplicates(),
    decreases s.next - h, k,
{
    let e = s.entities[h];
    if !(k == 0 || k > e.children.len()) {
        let c = e.children[k - 1];
        assert(s.child_wf(h, c));
        let front = s.preorder_upto(h, (k - 1) as nat);
        let back = s.preorder(c);
        lemma_preorder_distinct(s, h, (k - 1) as nat);
        lemma_preorder_distinct(s, c, s.entities[c].children.len());
        lemma_preorder_members(s, c, s.entities[c].children.len());
        assert forall|i: int, j: int| 0 <= i < front.len() && 0 <= j < back.len() implies front[i]
            != back[j] by {
            let x = front[i];
            if x == back[j] {
                assert(back.contains(x));
                assert(front.contains(x));
                let m = lemma_preorder_split(s, h, (k - 1) as nat, x);
                assert(s.child_wf(h, e.children[m]));
                lemma_siblings_apart(s, e.children[m], c, x);
            }
        }
        lemma_no_dup_in_concat(front, back);
    }
}

/// The identifiers of a sub-tree are those of its handles, in the same order.
pub proof fn lemma_tree_ids(s: SceneView, h: usize, k: nat)
    requires
        s.wf(),
        s.live(h),
    ensures
        s.tree(h).ids_upto(k) == s.preorder_upto(h, k).map_values(s.id_at()),
        s.tree(h).children.len() == s.entities[h].children.len(),
    decreases s.next - h, k,
{
    let e = s.entities[h];
    if k == 0 || k > e.children.len() {
        assert(s.tree(h).ids_upto(k) =~= s.preorder_upto(h, k).map_values(s.id_at()));
    } else {
        let c = e.children[k - 1];
        assert(s.child_wf(h, c));
        lemma_tree_ids(s, h, (k - 1) as nat);
        lemma_tree_ids(s, c, s.entities[c].children.len());
        assert(s.tree(h).children[k - 1] == s.tree(c));
        let front = s.preorder_upto(h, (k - 1) as nat);
        let back = s.preorder(c);
        assert((front + back).map_values(s.id_at()) =~= front.map_values(s.id_at())
            + back.map_values(s.id_at()));
    }
}

/// No identifier occurs twice in a sub-tree of a scene.
pub proof fn lemma_tree_ids_distinct(s: SceneView, h: usize)
    requires
        s.wf(),
        s.live(h),
    ensures
        s.tree(h).ids().no_duplicates(),
        s.tree(h).ids().len() == s.preorder(h).len(),
        forall|i: int|
            0 <= i < s.preorder(h).len() ==> s.live(#[trigger] s.preorder(h)[i])
                && s.tree(h).ids()[i] == s.entities[s.preorder(h)[i]].id,
{
    let order = s.preorder(h);
    let ids = s.tree(h).ids();
    lemma_tree_ids(s, h, s.entities[h].children.len());
    lemma_preorder_distinct(s, h, s.entities[h].children.len());
    lemma_preorder_members(s, h, s.entities[h].children.len());
    assert forall|i: int| 0 <= i < order.len() implies s.live(#[trigger] order[i]) && ids[i]
        == s.entities[order[i]].id by {
        assert(order.contains(order[i]));
    }
    assert forall|i: int, j: int| 0 <= i < ids.len() && 0 <= j < ids.len() && i != j implies ids[i]
        != ids[j] by {
        assert(s.live(order[i]) && s.live(order[j]));
        assert(s.entity_wf(order[i]) && s.entity_wf(order[j]));
    }
}

/// Taking the one occurrence of `v` out of a list without repeats leaves the
/// other elements, still without repeats.
pub proof fn lemma_remove_one(list: Seq<usize>, v: usize)
    requires
        list.no_duplicates(),
        list.contains(v),
    ensures
        0 <= list.index_of(v) < list.len(),
        list[list.index_of(v)] == v,
        list.remove(list.index_of(v)).no_duplicates(),
        forall|x: usize| #[trigger]
            list.remove(list.index_of(v)).contains(x) <==> list.contains(x) && x != v,
{
    let at = list.index_of(v);
    let rest = list.remove(at);
    assert forall|x: usize| #[trigger] rest.contains(x) <==> list.contains(x) && x != v by {
        if rest.contains(x) {
            let i = choose|i: int| 0 <= i < rest.len() && rest[i] == x;
            if i < at {
                assert(list[i] == x);
            } else {
                assert(list[i + 1] == x);
            }
        }
        if list.contains(x) && x != v {
            let i = choose|i: int| 0 <= i < list.len() && list[i] == x;
            if i < at {
                assert(rest[i] == x);
            } else {
                assert(rest[i - 1] == x);
            }
        }
    }
    assert forall|i: int, j: int| 0 <= i < rest.len() && 0 <= j < rest.len() && i != j implies rest[i]
        != rest[j] by {
        let i0 = if i < at { i } else { i + 1 };
        let j0 = if j < at { j } else { j + 1 };
        assert(rest[i] == list[i0] && rest[j] == list[j0]);
    }
}

/// Making an entity under a live parent, with an identifier not in use,
/// keeps the scene well formed.
pub proof fn lemma_spawned_wf(
    s: SceneView,
    id: StableId,
    components: Seq<ComponentView>,
    parent: Option<usize>,
)
    requires
        s.wf(),
        s.next < usize::MAX,
        !s.has_id(id),
        parent matches Some(p) ==> s.live(p),
    ensures
        s.spawned(id, components, parent).wf(),
{
    let t = s.spawned(id, components, parent);
    let h = s.next as usize;
    assert(!s.live(h)) by {
        if s.live(h) {
            assert(s.entity_wf(h));
        }
    }
    assert forall|c: usize, x: usize| s.live(x) && s.entities[x].children.contains(c) implies c
        != h by {
        assert(s.entity_wf(x));
        let i = choose|i: int| 0 <= i < s.entities[x].children.len() && s.entities[x].children[i]
            == c;
        assert(s.child_wf(x, s.entities[x].children[i]));
        assert(s.entity_wf(c));
    }
    assert forall|x: usize| #[trigger] t.entities.contains_key(x) implies t.entity_wf(x) by {
        if x == h {
            match parent {
                Some(p) => {
                    assert(s.entity_wf(p));
                    assert(t.entities[p].children.last() == h);
                },
                None => {
                    assert(t.roots.last() == h);
                },
            }
        } else {
            assert(s.entity_wf(x));
            let e = s.entities[x];
            match e.parent {
                Some(q) => {
                    let i = choose|i: int|
                        0 <= i < s.entities[q].children.len() && s.entities[q].children[i] == x;
                    assert(t.entities[q].children[i] == x);
                },
                None => {
                    let i = choose|i: int| 0 <= i < s.roots.len() && s.roots[i] == x;
                    assert(t.roots[i] == x);
                },
            }
            let after = t.entities[x].children;
            assert forall|i: int| 0 <= i < after.len() implies t.child_wf(x, #[trigger] after[i]) by {
                if i < e.children.len() {
                    assert(s.child_wf(x, e.children[i]));
                    assert(after[i] == e.children[i]);
                }
            }
            assert forall|i: int, j: int|
                0 <= i < after.len() && 0 <= j < after.len() && i != j implies after[i]
                != after[j] by {
                if i < e.children.len() && j < e.children.len() {
                    assert(after[i] == e.children[i] && after[j] == e.children[j]);
                } else if i < e.children.len() {
                    assert(e.children.contains(e.children[i]));
                } else if j < e.children.len() {
                    assert(e.children.contains(e.children[j]));
                }
            }
        }
    }
    assert forall|i: int, j: int|
        0 <= i < t.roots.len() && 0 <= j < t.roots.len() && i != j implies t.roots[i]
        != t.roots[j] by {
        if i < s.roots.len() {
            assert(s.live(s.roots[i]));
        }
        if j < s.roots.len() {
            assert(s.live(s.roots[j]));
        }
    }
    assert forall|i: int| 0 <= i < t.roots.len() implies t.live(#[trigger] t.roots[i])
        && t.entities[t.roots[i]].parent is None by {
        if i < s.roots.len() {
            assert(s.live(s.roots[i]));
        }
    }
    assert forall|k: u128| #[trigger] t.index.contains_key(k) implies t.live(t.index[k])
        && t.entities[t.index[k]].id.bits == k by {
        if k != id.bits {
            assert(s.index.contains_key(k));
        }
    }
}

/// Taking a sub-tree away keeps the scene well formed.
pub proof fn lemma_detached_wf(s: SceneView, h: usize)
    requires
        s.wf(),
        s.live(h),
    ensures
        s.detached(h).wf(),
{
    let t = s.detached(h);
    let gone = s.preorder(h);
    let parent = s.entities[h].parent;
    lemma_preorder_head(s, h, s.entities[h].children.len());
    lemma_preorder_members(s, h, s.entities[h].children.len());
    assert(s.entity_wf(h));
    match parent {
        Some(p) => {
            assert(s.entity_wf(p));
            lemma_remove_one(s.entities[p].children, h);
        },
        None => {
            lemma_remove_one(s.roots, h);
        },
    }
    assert forall|x: usize| #[trigger] t.entities.contains_key(x) implies t.entity_wf(x) by {
        assert(s.entity_wf(x));
        let e = s.entities[x];
        match e.parent {
            Some(q) => {
                if gone.contains(q) {
                    lemma_preorder_down(s, h, q, x);
                }
                assert(t.entities[q].children.contains(x));
            },
            None => {
                assert(t.roots.contains(x));
            },
        }
        let after = t.entities[x].children;
        assert forall|i: int| 0 <= i < after.len() implies t.child_wf(x, #[trigger] after[i]) by {
            let c = after[i];
            assert(after.contains(c));
            assert(e.children.contains(c));
            let m = choose|m: int| 0 <= m < e.children.len() && e.children[m] == c;
            assert(s.child_wf(x, e.children[m]));
            if gone.contains(c) {
                if c != h {
                    lemma_preorder_up(s, h, c);
                }
            }
        }
    }
    assert forall|i: int| 0 <= i < t.roots.len() implies t.live(#[trigger] t.roots[i])
        && t.entities[t.roots[i]].parent is None by {
        let r = t.roots[i];
        assert(t.roots.contains(r));
        assert(s.roots.contains(r));
        let m = choose|m: int| 0 <= m < s.roots.len() && s.roots[m] == r;
        assert(s.live(s.roots[m]));
        if gone.contains(r) {
            if r != h {
                lemma_preorder_up(s, h, r);
            }
        }
    }
    assert forall|k: u128| #[trigger] t.index.contains_key(k) implies t.live(t.index[k])
        && t.entities[t.index[k]].id.bits == k by {
        assert(s.index.contains_key(k));
    }
}

/// The handles of a sub-tree depend only on the younger entities and on
/// the children of the root that are asked for.
pub proof fn lemma_preorder_frame(a: SceneView, b: SceneView, h: usize, k: nat)
    requires
        a.wf(),
        a.live(h),
        a.next <= b.next,
        k <= a.entities[h].children.len(),
        k <= b.entities[h].children.len(),
        forall|j: int| 0 <= j < k ==> b.entities[h].children[j] == a.entities[h].children[j],
        forall|x: usize| a.live(x) && h < x ==> b.entities[x] == a.entities[x],
    ensures
        b.preorder_upto(h, k) == a.preorder_upto(h, k),
    decreases a.next - h, k,
{
    if k > 0 {
        assert(a.entity_wf(h));
        let c = a.entities[h].children[k - 1];
        assert(a.child_wf(h, c));
        assert(a.entity_wf(c));
        lemma_preorder_frame(a, b, h, (k - 1) as nat);
        lemma_preorder_frame(a, b, c, a.entities[c].children.len());
    }
}

/// A sub-tree depends only on its root and the younger entities.
pub proof fn lemma_tree_frame(a: SceneView, b: SceneView, h: usize)
    requires
        a.wf(),
        a.live(h),
        a.next <= b.next,
        forall|x: usize| a.live(x) && h <= x ==> b.entities[x] == a.entities[x],
    ensures
        b.tree(h) == a.tree(h),
    decreases a.next - h,
{
    assert(a.entity_wf(h));
    let e = a.entities[h];
    assert forall|i: int| 0 <= i < e.children.len() implies b.tree(h).children[i] == a.tree(
        h,
    ).children[i] by {
        let c = e.children[i];
        assert(a.child_wf(h, c));
        assert(a.entity_wf(c));
        lemma_tree_frame(a, b, c);
    }
    assert(b.tree(h).children =~= a.tree(h).children);
}

/// The handles of the first `k` sub-trees come first among all.
pub proof fn lemma_preorder_upto_prefix(s: SceneView, h: usize, k: nat)
    requires
        k <= s.entities[h].children.len(),
    ensures
        s.preorder_upto(h, k).is_prefix_of(s.preorder(h)),
    decreases s.entities[h].children.len() - k,
{
    if k < s.entities[h].children.len() {
        lemma_preorder_upto_prefix(s, h, k + 1);
        let next = s.preorder_upto(h, k + 1);
        assert(s.preorder_upto(h, k).is_prefix_of(next));
        assert forall|i: int| 0 <= i < s.preorder_upto(h, k).len() implies s.preorder_upto(h, k)[i]
            == s.preorder(h)[i] by {
            assert(s.preorder_upto(h, k)[i] == next[i]);
        }
    }
}

/// Two scenes that show the same tree under the same handles, in the same
/// order, hold the same entities there.
pub proof fn lemma_same_tree_same_entities(a: SceneView, b: SceneView, h: usize)
    requires
        a.wf(),
        b.wf(),
        a.live(h),
        b.live(h),
        a.tree(h) == b.tree(h),
        a.preorder(h) == b.preorder(h),
    ensures
        forall|x: usize| #[trigger]
            a.preorder(h).contains(x) ==> {
                &&& a.entities[x].id == b.entities[x].id
                &&& a.entities[x].components == b.entities[x].components
                &&& a.entities[x].children == b.entities[x].children
                &&& x != h ==> a.entities[x].parent == b.entities[x].parent
            },
    decreases a.next - h,
{
    let ea = a.entities[h];
    let eb = b.entities[h];
    let n = ea.children.len();
    assert(a.entity_wf(h) && b.entity_wf(h));
    assert(a.tree(h).children.len() == n);
    assert(b.tree(h).children.len() == eb.children.len());
    assert forall|j: int| 0 <= j < n implies ea.children[j] == eb.children[j] && a.preorder(
        ea.children[j],
    ) == b.preorder(ea.children[j]) && a.tree(ea.children[j]) == b.tree(ea.children[j]) by {
        let ca = ea.children[j];
        let cb = eb.children[j];
        assert(a.child_wf(h, ca) && b.child_wf(h, cb));
        assert(a.entity_wf(ca) && b.entity_wf(cb));
        assert(a.tree(ca) == a.tree(h).children[j]);
        assert(b.tree(cb) == b.tree(h).children[j]);
        lemma_tree_ids(a, h, j as nat);
        lemma_tree_ids(b, h, j as nat);
        lemma_tree_ids(a, h, (j + 1) as nat);
        lemma_tree_ids(b, h, (j + 1) as nat);
        lemma_preorder_upto_prefix(a, h, j as nat);
        lemma_preorder_upto_prefix(b, h, j as nat);
        lemma_preorder_upto_prefix(a, h, (j + 1) as nat);
        lemma_preorder_upto_prefix(b, h, (j + 1) as nat);
        lemma_preorder_head(a, ca, a.entities[ca].children.len());
        lemma_preorder_head(b, cb, b.entities[cb].children.len());
        let all = a.preorder(h);
        let front_a = a.preorder_upto(h, j as nat);
        let front_b = b.preorder_upto(h, j as nat);
        let more_a = a.preorder_upto(h, (j + 1) as nat);
        let more_b = b.preorder_upto(h, (j + 1) as nat);
        assert(front_a.len() == a.tree(h).ids_upto(j as nat).len());
        assert(front_b.len() == front_a.len());
        assert(more_a.len() == a.tree(h).ids_upto((j + 1) as nat).len());
        assert(more_b.len() == b.tree(h).ids_upto((j + 1) as nat).len());
        assert(more_a == front_a + a.preorder(ca));
        assert(more_b == front_b + b.preorder(cb));
        assert(more_a[front_a.len() as int] == ca);
        assert(more_b[front_b.len() as int] == cb);
        assert(all[front_a.len() as int] == ca);
        assert(all[front_a.len() as int] == cb);
        assert(a.preorder(ca) =~= b.preorder(cb)) by {
            assert(a.preorder(ca).len() == b.preorder(cb).len());
            assert forall|i: int| 0 <= i < a.preorder(ca).len() implies a.preorder(ca)[i]
                == b.preorder(cb)[i] by {
                assert(more_a[front_a.len() + i] == a.preorder(ca)[i]);
                assert(more_b[front_b.len() + i] == b.preorder(cb)[i]);
                assert(all[front_a.len() + i] == more_a[front_a.len() + i]);
                assert(all[front_a.len() + i] == more_b[front_a.len() + i]);
            }
        }
    }
    assert(ea.children =~= eb.children);
    assert forall|x: usize| #[trigger] a.preorder(h).contains(x) implies {
        &&& a.entities[x].id == b.entities[x].id
        &&& a.entities[x].components == b.entities[x].components
        &&& a.entities[x].children == b.entities[x].children
        &&& x != h ==> a.entities[x].parent == b.entities[x].parent
    } by {
        if x != h {
            let j = lemma_preorder_split(a, h, n, x);
            let c = ea.children[j];
            assert(a.child_wf(h, c) && b.child_wf(h, eb.children[j]));
            lemma_same_tree_same_entities(a, b, c);
            assert(a.preorder(c).contains(x));
        }
    }
}

} // verus!
