//! Component payloads and the registry of component kinds.
use std::collections::HashSet;
use vstd::prelude::*;

use crate::error::Error;
use crate::id::StableId;

verus! {

/// One component of an entity: a kind tag and the encoded payload.
///
/// The payload is opaque here.  What the bytes mean is up to the codec that
/// the host has for the kind.
#[derive(Debug, PartialEq, Eq)]
pub struct Component {
    pub kind: u64,
    pub payload: Vec<u8>,
}

/// What a [`Component`] holds.
pub ghost struct ComponentView {
    pub kind: u64,
    pub payload: Seq<u8>,
}

impl View for Component {
    type V = ComponentView;

    open spec fn view(&self) -> ComponentView {
        ComponentView { kind: self.kind, payload: self.payload@ }
    }
}

impl Clone for Component {
    fn clone(&self) -> (copy: Component)
        ensures
            copy@ == self@,
    {
        Component { kind: self.kind, payload: self.payload.clone() }
    }
}

impl Component {
    /// A component of the given kind.
    pub fn new(kind: u64, payload: Vec<u8>) -> (c: Component)
        ensures
            c@ == (ComponentView { kind, payload: payload@ }),
    {
        Component { kind, payload }
    }
}

/// What a list of components holds.
pub open spec fn components_view(list: Seq<Component>) -> Seq<ComponentView> {
    list.map_values(|c: Component| c@)
}

/// The test that a component passes when the registry knows its kind.
pub open spec fn is_known(registry: Set<u64>) -> spec_fn(ComponentView) -> bool {
    |c: ComponentView| registry.contains(c.kind)
}

/// The test that a component passes when the registry does not know its kind.
pub open spec fn is_unknown(registry: Set<u64>) -> spec_fn(ComponentView) -> bool {
    |c: ComponentView| !registry.contains(c.kind)
}

/// The warning for a component of `owner` that is left behind.
pub open spec fn warning_for(owner: StableId) -> spec_fn(ComponentView) -> Error {
    |c: ComponentView| Error::UnregisteredComponent { entity: owner, kind: c.kind }
}

/// The components of `list` whose kind is registered, in order.
pub open spec fn kept_components(registry: Set<u64>, list: Seq<ComponentView>) -> Seq<
    ComponentView,
> {
    list.filter(is_known(registry))
}

/// One warning for each component of `list` whose kind is not registered, in
/// order.
pub open spec fn dropped_components(
    registry: Set<u64>,
    owner: StableId,
    list: Seq<ComponentView>,
) -> Seq<Error> {
    list.filter(is_unknown(registry)).map_values(warning_for(owner))
}

/// Filtering a second time keeps everything and drops nothing.
pub proof fn lemma_kept_is_stable(registry: Set<u64>, owner: StableId, list: Seq<ComponentView>)
    ensures
        kept_components(registry, kept_components(registry, list)) == kept_components(
            registry,
            list,
        ),
        dropped_components(registry, owner, kept_components(registry, list)) == Seq::<
            Error,
        >::empty(),
    decreases list.len(),
{
    reveal(Seq::filter);
    if list.len() > 0 {
        let front = list.drop_last();
        lemma_kept_is_stable(registry, owner, front);
        let kept_front = kept_components(registry, front);
        if registry.contains(list.last().kind) {
            kept_front.lemma_filter_push(list.last(), is_known(registry));
            kept_front.lemma_filter_push(list.last(), is_unknown(registry));
        }
    }
    assert(Seq::<ComponentView>::empty().map_values(warning_for(owner)) =~= Seq::<
        Error,
    >::empty());
}

/// The kinds of component that the host can encode and decode.
///
/// A component whose kind is not registered is data without a codec: the
/// stash leaves it behind and says so in a warning.
pub struct Registry {
    kinds: HashSet<u64>,
}

impl View for Registry {
    type V = Set<u64>;

    closed spec fn view(&self) -> Set<u64> {
        self.kinds@
    }
}

impl Registry {
    /// A registry that knows no kind.
    pub fn new() -> (r: Registry)
        ensures
            r@ == Set::<u64>::empty(),
    {
        Registry { kinds: HashSet::new() }
    }

    /// Makes `kind` known.  Returns whether it was new.
    pub fn register(&mut self, kind: u64) -> (fresh: bool)
        ensures
            final(self)@ == old(self)@.insert(kind),
            fresh == !old(self)@.contains(kind),
    {
        self.kinds.insert(kind)
    }

    /// Whether `kind` is known.
    pub fn is_registered(&self, kind: u64) -> (known: bool)
        ensures
            known == self@.contains(kind),
    {
        self.kinds.contains(&kind)
    }

    /// Copies out of `list` the components whose kind is known, in order, and
    /// appends to `warnings` one warning for each of the others.
    pub fn sift(&self, owner: StableId, list: &Vec<Component>, warnings: &mut Vec<Error>) -> (kept:
        Vec<Component>)
        ensures
            components_view(kept@) == kept_components(self@, components_view(list@)),
            final(warnings)@ == old(warnings)@ + dropped_components(
                self@,
                owner,
                components_view(list@),
            ),
    {
        let mut kept: Vec<Component> = Vec::new();
        let ghost all = components_view(list@);
        let mut i: usize = 0;
        proof {
            reveal(Seq::filter);
            assert(all.take(0) =~= Seq::<ComponentView>::empty());
            assert(components_view(kept@) =~= kept_components(self@, all.take(0)));
            assert(warnings@ =~= old(warnings)@ + dropped_components(self@, owner, all.take(0)));
        }
        while i < list.len()
            invariant
                i <= list.len(),
                all == components_view(list@),
                components_view(kept@) == kept_components(self@, all.take(i as int)),
                warnings@ == old(warnings)@ + dropped_components(self@, owner, all.take(i as int)),
            decreases list.len() - i,
        {
            let ghost seen = all.take(i as int);
            let ghost kept_before = kept@;
            proof {
                assert(all.take(i + 1) =~= seen.push(all[i as int]));
                assert(all[i as int] == list@[i as int]@);
                seen.lemma_filter_push(all[i as int], is_known(self@));
                seen.lemma_filter_push(all[i as int], is_unknown(self@));
            }
            if self.is_registered(list[i].kind) {
                kept.push(list[i].clone());
                proof {
                    assert(components_view(kept@) =~= components_view(kept_before).push(
                        all[i as int],
                    ));
                }
            } else {
                warnings.push(Error::UnregisteredComponent { entity: owner, kind: list[i].kind });
                proof {
                    let unknown = seen.filter(is_unknown(self@));
                    assert(unknown.push(all[i as int]).map_values(warning_for(owner))
                        =~= unknown.map_values(warning_for(owner)).push(
                        warning_for(owner)(all[i as int]),
                    ));
                    assert(warnings@ =~= old(warnings)@ + dropped_components(
                        self@,
                        owner,
                        all.take(i + 1),
                    ));
                }
            }
            i = i + 1;
        }
        proof {
            assert(all.take(list.len() as int) =~= all);
        }
        kept
    }
}

} // verus!
