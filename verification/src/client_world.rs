//! The client's local store of replicated entities.
//!
//! What the host engine keeps in its own storage is modeled here as plain
//! values: each client entity carries the serialized payload of every
//! replicated component, keyed by the codec identifier the server used.

use vstd::prelude::*;
use crate::assoc::{
    assoc_get, assoc_has, assoc_unique, lemma_assoc_get_at, lemma_assoc_get_push,
    lemma_assoc_get_remove, lemma_assoc_get_some, lemma_assoc_get_update,
};
use crate::entity::Entity;

verus! {

/// Spec-level shape of one entity's components.
pub type ComponentsView = Seq<(u64, Seq<u8>)>;

/// Spec-level shape of one component list.
pub open spec fn components_view(v: Seq<(u64, Vec<u8>)>) -> ComponentsView {
    v.map_values(|c: (u64, Vec<u8>)| (c.0, c.1@))
}

/// Index of the component stored under `fns_id`, scanning from the front.
fn find_component(v: &Vec<(u64, Vec<u8>)>, fns_id: u64) -> (r: Option<usize>)
    ensures
        match r {
            Some(i) => i < v@.len() && components_view(v@)[i as int].0 == fns_id,
            None => !assoc_has(components_view(v@), fns_id),
        },
{
    let ghost view = components_view(v@);
    let mut i: usize = 0;
    while i < v.len()
        invariant
            i <= v@.len(),
            view == components_view(v@),
            view.len() == v@.len(),
            forall|j: int| 0 <= j < i ==> (#[trigger] view[j]).0 != fns_id,
        decreases v@.len() - i,
    {
        if v[i].0 == fns_id {
            proof {
                assert(view[i as int].0 == fns_id);
            }
            return Some(i);
        }
        proof {
            assert(view[i as int].0 != fns_id);
        }
        i = i + 1;
    }
    proof {
        if assoc_has(view, fns_id) {
            let j = choose|j: int| 0 <= j < view.len() && (#[trigger] view[j]).0 == fns_id;
            assert(view[j].0 != fns_id);
        }
    }
    None
}

/// A minimal entity-component store on the client side.
pub struct ClientWorld {
    entities: Vec<(Entity, Vec<(u64, Vec<u8>)>)>,
    next_index: u32,
}

impl ClientWorld {
    pub closed spec fn entities_view(self) -> Seq<(Entity, ComponentsView)> {
        self.entities@.map_values(
            |p: (Entity, Vec<(u64, Vec<u8>)>)| (p.0, components_view(p.1@)),
        )
    }

    pub closed spec fn spec_next_index(self) -> u32 {
        self.next_index
    }

    /// The components of `e`, when it exists.
    pub open spec fn spec_entity(self, e: Entity) -> Option<ComponentsView> {
        assoc_get(self.entities_view(), e)
    }

    /// The payload stored for component `fns_id` of `e`, if any.
    pub open spec fn spec_component(self, e: Entity, fns_id: u64) -> Option<Seq<u8>> {
        match self.spec_entity(e) {
            Some(cs) => assoc_get(cs, fns_id),
            None => None,
        }
    }

    /// Entities and per-entity components are keyed uniquely, and every
    /// live index lies below the spawn counter.
    pub open spec fn wf(self) -> bool {
        &&& assoc_unique(self.entities_view())
        &&& forall|i: int| 0 <= i < self.entities_view().len()
            ==> assoc_unique((#[trigger] self.entities_view()[i]).1)
        &&& forall|i: int| 0 <= i < self.entities_view().len()
            ==> (#[trigger] self.entities_view()[i]).0.index < self.spec_next_index()
    }

    pub fn new() -> (r: Self)
        ensures
            r.wf(),
            r.entities_view().len() == 0,
            forall|e: Entity| r.spec_entity(e) is None,
    {
        let r = ClientWorld { entities: Vec::new(), next_index: 0 };
        proof {
            assert(r.entities_view() =~= Seq::<(Entity, ComponentsView)>::empty());
            assert forall|e: Entity| r.spec_entity(e) is None by {
                if assoc_has(r.entities_view(), e) {
                    lemma_assoc_get_some(r.entities_view(), e);
                }
            }
        }
        r
    }

    /// Whether another entity can still be spawned.
    pub fn index_headroom(&self) -> (r: bool)
        ensures
            r == (self.spec_next_index() < u32::MAX),
    {
        self.next_index < u32::MAX
    }

    /// Number of live entities.
    pub fn len(&self) -> (r: usize)
        ensures
            r == self.entities_view().len(),
    {
        self.entities.len()
    }

    /// Whether `e` exists in this store.
    pub fn contains(&self, e: Entity) -> (r: bool)
        requires
            self.wf(),
        ensures
            r == (self.spec_entity(e) is Some),
    {
        match self.find(e) {
            Some(i) => {
                proof {
                    lemma_assoc_get_at(self.entities_view(), e, i as int);
                }
                true
            },
            None => {
                proof {
                    if assoc_has(self.entities_view(), e) {
                        lemma_assoc_get_some(self.entities_view(), e);
                    }
                }
                false
            },
        }
    }

    /// The payload stored for component `fns_id` of `e`.
    pub fn get_component(&self, e: Entity, fns_id: u64) -> (r: Option<&Vec<u8>>)
        requires
            self.wf(),
        ensures
            match r {
                Some(v) => self.spec_component(e, fns_id) == Some(v@),
                None => self.spec_component(e, fns_id) is None,
            },
    {
        let i = match self.find(e) {
            Some(i) => i,
            None => {
                proof {
                    if assoc_has(self.entities_view(), e) {
                        lemma_assoc_get_some(self.entities_view(), e);
                    }
                }
                return None;
            },
        };
        proof {
            lemma_assoc_get_at(self.entities_view(), e, i as int);
        }
        let comps = &self.entities[i].1;
        let ghost cview = components_view(comps@);
        proof {
            assert(cview == self.entities_view()[i as int].1);
        }
        let mut j: usize = 0;
        while j < comps.len()
            invariant
                j <= comps@.len(),
                cview == components_view(comps@),
                cview.len() == comps@.len(),
                assoc_unique(cview),
                self.spec_entity(e) == Some(cview),
                forall|k: int| 0 <= k < j ==> (#[trigger] cview[k]).0 != fns_id,
            decreases comps@.len() - j,
        {
            if comps[j].0 == fns_id {
                proof {
                    assert(cview[j as int].0 == fns_id);
                    lemma_assoc_get_at(cview, fns_id, j as int);
                    assert(cview[j as int].1 == comps@[j as int].1@);
                }
                return Some(&comps[j].1);
            }
            proof {
                assert(cview[j as int].0 != fns_id);
            }
            j = j + 1;
        }
        proof {
            if assoc_has(cview, fns_id) {
                let k = choose|k: int| 0 <= k < cview.len() && (#[trigger] cview[k]).0 == fns_id;
                assert(cview[k].0 != fns_id);
            }
        }
        None
    }

    /// Spawns a fresh empty entity and returns its identity, which no live
    /// entity shares.
    pub fn spawn(&mut self) -> (r: Entity)
        requires
            old(self).wf(),
            old(self).spec_next_index() < u32::MAX,
        ensures
            final(self).wf(),
            old(self).spec_entity(r) is None,
            final(self).spec_entity(r) == Some(Seq::<(u64, Seq<u8>)>::empty()),
            forall|x: Entity| x != r
                ==> final(self).spec_entity(x) == old(self).spec_entity(x),
            r.generation == 0,
            final(self).spec_next_index() == old(self).spec_next_index() + 1,
    {
        let e = Entity { index: self.next_index, generation: 0 };
        self.next_index = self.next_index + 1;
        let ghost pre = self.entities_view();
        proof {
            assert(!assoc_has(pre, e)) by {
                if assoc_has(pre, e) {
                    let i = choose|i: int| 0 <= i < pre.len() && (#[trigger] pre[i]).0 == e;
                    assert(pre[i].0.index < e.index);
                }
            }
        }
        self.entities.push((e, Vec::new()));
        proof {
            assert(self.entities_view() =~~= pre.push((e, Seq::<(u64, Seq<u8>)>::empty())));
            lemma_assoc_get_push(pre, e, Seq::<(u64, Seq<u8>)>::empty(), e);
            assert forall|x: Entity| x != e implies
                assoc_get(self.entities_view(), x) == assoc_get(pre, x) by {
                lemma_assoc_get_push(pre, e, Seq::<(u64, Seq<u8>)>::empty(), x);
            }
            assert forall|i: int| 0 <= i < self.entities_view().len() implies
                assoc_unique((#[trigger] self.entities_view()[i]).1)
                    && self.entities_view()[i].0.index < self.spec_next_index() by {
                if i < pre.len() {
                    assert(self.entities_view()[i] == pre[i]);
                    assert(assoc_unique(pre[i].1));
                    assert(pre[i].0.index < old(self).spec_next_index());
                } else {
                    assert(self.entities_view()[i]
                        == (e, Seq::<(u64, Seq<u8>)>::empty()));
                }
            }
        }
        e
    }

    /// Stores `payload` as component `fns_id` of `e`, replacing any
    /// previous payload under that identifier.
    pub fn insert_component(&mut self, e: Entity, fns_id: u64, payload: Vec<u8>)
        requires
            old(self).wf(),
            old(self).spec_entity(e) is Some,
        ensures
            final(self).wf(),
            final(self).spec_entity(e) is Some,
            final(self).spec_component(e, fns_id) == Some(payload@),
            forall|id: u64| id != fns_id
                ==> final(self).spec_component(e, id) == old(self).spec_component(e, id),
            forall|x: Entity| x != e
                ==> final(self).spec_entity(x) == old(self).spec_entity(x),
            final(self).spec_next_index() == old(self).spec_next_index(),
    {
        let i = match self.find(e) {
            Some(i) => i,
            None => {
                proof {
                    if !assoc_has(self.entities_view(), e) {
                        assert(self.spec_entity(e) is None);
                    }
                    assert(false);
                }
                0
            },
        };
        proof {
            lemma_assoc_get_at(self.entities_view(), e, i as int);
        }
        let ghost pre = self.entities_view();
        let ghost cview0 = pre[i as int].1;
        let found = find_component(&self.entities[i].1, fns_id);
        match found {
            Some(j) => {
                let entry = &mut self.entities[i];
                entry.1[j] = (fns_id, payload);
                proof {
                    assert(cview0[j as int].0 == fns_id);
                    assert(components_view(entry.1@)
                        =~= cview0.update(j as int, (fns_id, payload@)));
                    lemma_assoc_get_update(cview0, j as int, payload@, fns_id);
                    assert forall|id: u64| id != fns_id implies
                        assoc_get(components_view(entry.1@), id) == assoc_get(cview0, id) by {
                        lemma_assoc_get_update(cview0, j as int, payload@, id);
                    }
                }
            },
            None => {
                proof {
                    if assoc_has(cview0, fns_id) {
                        lemma_assoc_get_some(cview0, fns_id);
                    }
                }
                let entry = &mut self.entities[i];
                entry.1.push((fns_id, payload));
                proof {
                    assert(components_view(entry.1@) =~= cview0.push((fns_id, payload@)));
                    lemma_assoc_get_push(cview0, fns_id, payload@, fns_id);
                    assert forall|id: u64| id != fns_id implies
                        assoc_get(components_view(entry.1@), id) == assoc_get(cview0, id) by {
                        lemma_assoc_get_push(cview0, fns_id, payload@, id);
                    }
                }
            },
        }
        proof {
            self.finish_entry_update(i as int, e, pre, old(self).spec_next_index());
        }
    }

    /// Drops component `fns_id` from `e`; without the entity or the
    /// component there is nothing to do.
    pub fn remove_component(&mut self, e: Entity, fns_id: u64)
        requires
            old(self).wf(),
        ensures
            final(self).wf(),
            final(self).spec_component(e, fns_id) is None,
            (final(self).spec_entity(e) is Some) == (old(self).spec_entity(e) is Some),
            forall|id: u64| id != fns_id
                ==> final(self).spec_component(e, id) == old(self).spec_component(e, id),
            forall|x: Entity| x != e
                ==> final(self).spec_entity(x) == old(self).spec_entity(x),
            final(self).spec_next_index() == old(self).spec_next_index(),
    {
        let i = match self.find(e) {
            Some(i) => i,
            None => {
                proof {
                    if assoc_has(self.entities_view(), e) {
                        lemma_assoc_get_some(self.entities_view(), e);
                    }
                }
                return;
            },
        };
        proof {
            lemma_assoc_get_at(self.entities_view(), e, i as int);
        }
        let ghost pre = self.entities_view();
        let ghost cview0 = pre[i as int].1;
        match find_component(&self.entities[i].1, fns_id) {
            Some(j) => {
                let entry = &mut self.entities[i];
                entry.1.remove(j);
                proof {
                    assert(cview0[j as int].0 == fns_id);
                    assert(components_view(entry.1@) =~= cview0.remove(j as int));
                    lemma_assoc_get_remove(cview0, j as int, fns_id);
                    assert forall|id: u64| id != fns_id implies
                        assoc_get(components_view(entry.1@), id)
                            == assoc_get(cview0, id) by {
                        lemma_assoc_get_remove(cview0, j as int, id);
                    }
                    self.finish_entry_update(i as int, e, pre, old(self).spec_next_index());
                }
            },
            None => {
                proof {
                    if assoc_has(cview0, fns_id) {
                        lemma_assoc_get_some(cview0, fns_id);
                    }
                    lemma_assoc_get_at(self.entities_view(), e, i as int);
                }
            },
        }
    }

    /// Erases `e` with everything it carries; erasing an absent entity is
    /// a no-op.
    pub fn despawn(&mut self, e: Entity)
        requires
            old(self).wf(),
        ensures
            final(self).wf(),
            final(self).spec_entity(e) is None,
            forall|x: Entity| x != e
                ==> final(self).spec_entity(x) == old(self).spec_entity(x),
            final(self).spec_next_index() == old(self).spec_next_index(),
    {
        let i = match self.find(e) {
            Some(i) => i,
            None => {
                proof {
                    if assoc_has(self.entities_view(), e) {
                        lemma_assoc_get_some(self.entities_view(), e);
                    }
                }
                return;
            },
        };
        proof {
            lemma_assoc_get_at(self.entities_view(), e, i as int);
        }
        let ghost pre = self.entities_view();
        self.entities.remove(i);
        proof {
            assert(self.entities_view() =~= pre.remove(i as int));
            lemma_assoc_get_remove(pre, i as int, e);
            assert forall|x: Entity| x != e implies
                assoc_get(self.entities_view(), x) == assoc_get(pre, x) by {
                lemma_assoc_get_remove(pre, i as int, x);
            }
            assert forall|k: int| 0 <= k < self.entities_view().len() implies
                assoc_unique((#[trigger] self.entities_view()[k]).1)
                    && self.entities_view()[k].0.index < self.spec_next_index() by {
                let pk: int = if k < i { k } else { k + 1 };
                assert(self.entities_view()[k] == pre[pk]);
                assert(assoc_unique(pre[pk].1));
                assert(pre[pk].0.index < old(self).spec_next_index());
            }
        }
    }

    /// Registers an externally chosen identity as live, so a predicted
    /// spawn can be written to before the server confirms it. The index
    /// counter jumps past it. Registering a live identity is a no-op.
    pub fn spawn_at(&mut self, e: Entity)
        requires
            old(self).wf(),
            e.index < u32::MAX,
        ensures
            final(self).wf(),
            old(self).spec_entity(e) is Some ==> *final(self) == *old(self),
            old(self).spec_entity(e) is None
                ==> final(self).spec_entity(e) == Some(Seq::<(u64, Seq<u8>)>::empty())
                    && forall|x: Entity| x != e
                        ==> final(self).spec_entity(x) == old(self).spec_entity(x),
    {
        let i = self.find(e);
        match i {
            Some(i) => {
                proof {
                    lemma_assoc_get_at(self.entities_view(), e, i as int);
                }
            },
            None => {
                proof {
                    if assoc_has(self.entities_view(), e) {
                        lemma_assoc_get_some(self.entities_view(), e);
                    }
                }
                if self.next_index <= e.index {
                    self.next_index = e.index + 1;
                }
                let ghost pre = self.entities_view();
                self.entities.push((e, Vec::new()));
                proof {
                    assert(self.entities_view()
                        =~~= pre.push((e, Seq::<(u64, Seq<u8>)>::empty())));
                    lemma_assoc_get_push(pre, e, Seq::<(u64, Seq<u8>)>::empty(), e);
                    assert forall|x: Entity| x != e implies
                        assoc_get(self.entities_view(), x) == assoc_get(pre, x) by {
                        lemma_assoc_get_push(pre, e, Seq::<(u64, Seq<u8>)>::empty(), x);
                    }
                    assert forall|k: int| 0 <= k < self.entities_view().len() implies
                        assoc_unique((#[trigger] self.entities_view()[k]).1)
                            && self.entities_view()[k].0.index < self.spec_next_index() by {
                        if k < pre.len() {
                            assert(self.entities_view()[k] == pre[k]);
                            assert(assoc_unique(pre[k].1));
                            assert(pre[k].0.index < old(self).spec_next_index());
                        }
                    }
                }
            },
        }
    }

    fn find(&self, e: Entity) -> (r: Option<usize>)
        ensures
            match r {
                Some(i) => i < self.entities_view().len()
                    && self.entities_view()[i as int].0 == e,
                None => !assoc_has(self.entities_view(), e),
            },
    {
        let ghost view = self.entities_view();
        let mut i: usize = 0;
        while i < self.entities.len()
            invariant
                i <= self.entities@.len(),
                view == self.entities_view(),
                view.len() == self.entities@.len(),
                forall|j: int| 0 <= j < i ==> (#[trigger] view[j]).0 != e,
            decreases self.entities@.len() - i,
        {
            if self.entities[i].0 == e {
                proof {
                    assert(view[i as int].0 == e);
                }
                return Some(i);
            }
            proof {
                assert(view[i as int].0 != e);
            }
            i = i + 1;
        }
        proof {
            if assoc_has(view, e) {
                let j = choose|j: int| 0 <= j < view.len() && (#[trigger] view[j]).0 == e;
                assert(view[j].0 != e);
            }
        }
        None
    }

    /// After one entity's component list was rewritten in place, the whole
    /// store is still well formed and every other entity untouched.
    proof fn finish_entry_update(
        &self,
        i: int,
        e: Entity,
        pre: Seq<(Entity, ComponentsView)>,
        bound: u32,
    )
        requires
            0 <= i < pre.len(),
            pre[i].0 == e,
            assoc_unique(pre),
            forall|k: int| 0 <= k < pre.len() ==> assoc_unique((#[trigger] pre[k]).1),
            forall|k: int| 0 <= k < pre.len() ==> (#[trigger] pre[k]).0.index < bound,
            self.spec_next_index() == bound,
            self.entities_view().len() == pre.len(),
            forall|k: int| 0 <= k < pre.len() && k != i
                ==> #[trigger] self.entities_view()[k] == pre[k],
            self.entities_view()[i].0 == e,
            assoc_unique(self.entities_view()[i].1),
        ensures
            self.wf(),
            self.spec_entity(e) == Some(self.entities_view()[i].1),
            forall|x: Entity| x != e
                ==> assoc_get(self.entities_view(), x) == assoc_get(pre, x),
    {
        let cur = self.entities_view();
        assert(cur =~= pre.update(i, (e, cur[i].1)));
        lemma_assoc_get_update(pre, i, cur[i].1, e);
        assert forall|x: Entity| x != e implies
            assoc_get(cur, x) == assoc_get(pre, x) by {
            lemma_assoc_get_update(pre, i, cur[i].1, x);
        }
        assert forall|k: int| 0 <= k < cur.len() implies
            assoc_unique((#[trigger] cur[k]).1) && cur[k].0.index < self.spec_next_index() by {
            if k != i {
                assert(cur[k] == pre[k]);
                assert(assoc_unique(pre[k].1));
            }
            let pk = pre[k];
            assert(pk.0.index < bound);
            if k == i {
                assert(cur[k].0 == e);
            } else {
                assert(cur[k].0 == pk.0);
            }
        }
    }
}

} // verus!
