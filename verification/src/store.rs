//! The one-place store for a snapshot.
use vstd::prelude::*;

use crate::id::StableId;
use crate::tree::{NodeView, Snapshot};

verus! {

/// The store: empty, or holding exactly one snapshot.
#[derive(Debug, PartialEq, Eq)]
pub enum Store {
    /// Nothing is stored.
    Empty,
    /// A sub-tree is stored.
    Stored {
        /// The entity that the sub-tree hung under, or `None` if it was a
        /// root.
        parent: Option<StableId>,
        /// The root of the stored sub-tree.
        target: StableId,
        /// The sub-tree itself.
        snapshot: Snapshot,
    },
}

/// What a [`Store`] holds.
pub ghost enum StoreView {
    Empty,
    Stored { parent: Option<StableId>, target: StableId, tree: NodeView },
}

impl View for Store {
    type V = StoreView;

    open spec fn view(&self) -> StoreView {
        match *self {
            Store::Empty => StoreView::Empty,
            Store::Stored { parent, target, snapshot } => StoreView::Stored {
                parent,
                target,
                tree: snapshot.root@,
            },
        }
    }
}

impl Store {
    /// Whether the labels of the store agree with the snapshot in it.
    pub open spec fn wf(&self) -> bool {
        match *self {
            Store::Empty => true,
            Store::Stored { parent, target, snapshot } => snapshot.parent == parent
                && snapshot.root.id == target,
        }
    }

    /// Whether nothing is stored.
    pub fn is_empty(&self) -> (empty: bool)
        ensures
            empty == (self@ is Empty),
    {
        match self {
            Store::Empty => true,
            Store::Stored { .. } => false,
        }
    }

    /// The stored snapshot, if there is one.
    pub fn snapshot(&self) -> (held: Option<&Snapshot>)
        ensures
            match held {
                Some(snapshot) => self@ is Stored && self@->tree == snapshot.root@ && (self.wf()
                    ==> snapshot.parent == self@->parent && snapshot.root.id == self@->target),
                None => self@ is Empty,
            },
    {
        match self {
            Store::Empty => None,
            Store::Stored { snapshot, .. } => Some(snapshot),
        }
    }

    /// The identifier of the root of the stored sub-tree, if there is one.
    pub fn target(&self) -> (target: Option<StableId>)
        ensures
            target == match self@ {
                StoreView::Stored { target, .. } => Some(target),
                StoreView::Empty => None,
            },
    {
        match self {
            Store::Empty => None,
            Store::Stored { target, .. } => Some(*target),
        }
    }
}

} // verus!
