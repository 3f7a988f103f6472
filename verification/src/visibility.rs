//! Per-client entity visibility.
//!
//! A client only ever receives data for entities visible to it. Losing
//! visibility of a live entity shows up to that one client as a despawn;
//! gaining it back shows up as a spawn with a full component snapshot.

use vstd::prelude::*;
use crate::entity::Entity;

verus! {

broadcast use vstd::seq_lib::lemma_seq_contains_after_push;

/// How a client's visibility set is interpreted.
#[derive(Clone, Copy, Debug, Default, PartialEq, Eq, Structural)]
pub enum VisibilityPolicy {
    /// All entities are visible and visibility cannot be changed.
    #[default]
    All,
    /// All entities are visible unless explicitly hidden.
    Blacklist,
    /// All entities are hidden unless explicitly shown.
    Whitelist,
}

/// Visibility of one entity for one client during the current pass.
#[derive(Clone, Copy, Debug, Default, PartialEq, Eq, Structural)]
pub enum Visibility {
    /// Not visible: the entity must not appear in this client's messages.
    #[default]
    Hidden,
    /// Became visible this tick: the client needs a full snapshot.
    Gained,
    /// Was and stays visible: only changes need to be sent.
    Visible,
}

/// True when `v@` holds `e`.
fn vec_contains_entity(v: &Vec<Entity>, e: Entity) -> (r: bool)
    ensures
        r == v@.contains(e),
{
    let mut i: usize = 0;
    while i < v.len()
        invariant
            i <= v@.len(),
            forall|j: int| 0 <= j < i ==> v@[j] != e,
        decreases v@.len() - i,
    {
        if v[i] == e {
            return true;
        }
        i = i + 1;
    }
    false
}

/// Removes the first occurrence of `e` from `v`, if any.
fn vec_remove_entity(v: &mut Vec<Entity>, e: Entity)
    requires
        forall|i: int, j: int|
            0 <= i < j < old(v)@.len() ==> old(v)@[i] != old(v)@[j],
    ensures
        !final(v)@.contains(e),
        forall|x: Entity| x != e ==> final(v)@.contains(x) == old(v)@.contains(x),
        forall|i: int, j: int|
            0 <= i < j < final(v)@.len() ==> final(v)@[i] != final(v)@[j],
{
    let mut i: usize = 0;
    while i < v.len()
        invariant
            i <= v@.len(),
            v@ == old(v)@,
            forall|j: int| 0 <= j < i ==> v@[j] != e,
            forall|a: int, b: int| 0 <= a < b < old(v)@.len() ==> old(v)@[a] != old(v)@[b],
        decreases v@.len() - i,
    {
        if v[i] == e {
            let ghost pre = v@;
            let ghost n = pre.len() as int;
            v.remove(i);
            proof {
                assert(v@ == pre.remove(i as int));
                assert(forall|j: int| 0 <= j < i ==> v@[j] == pre[j]);
                assert(forall|j: int| i <= j < n - 1 ==> v@[j] == pre[j + 1]);
                assert(!v@.contains(e)) by {
                    assert forall|j: int| 0 <= j < v@.len() implies v@[j] != e by {
                        if j < i {
                        } else {
                            assert(pre[i as int] != pre[j + 1]);
                        }
                    }
                }
                assert forall|x: Entity| x != e implies v@.contains(x) == pre.contains(x) by {
                    if v@.contains(x) {
                        let j = choose|j: int| 0 <= j < v@.len() && v@[j] == x;
                        if j < i {
                            assert(pre[j] == x);
                        } else {
                            assert(pre[j + 1] == x);
                        }
                        assert(pre.contains(x));
                    }
                    if pre.contains(x) {
                        let j = choose|j: int| 0 <= j < pre.len() && pre[j] == x;
                        if j < i {
                            assert(v@[j] == x);
                            assert(v@.contains(x));
                        } else if j > i {
                            assert(v@[j - 1] == x);
                            assert(v@.contains(x));
                        }
                    }
                }
                assert forall|a: int, b: int| 0 <= a < b < v@.len() implies v@[a] != v@[b] by {
                    let pa: int = if a < i { a } else { a + 1 };
                    let pb: int = if b < i { b } else { b + 1 };
                    assert(pre[pa] != pre[pb]);
                    assert(v@[a] == pre[pa] && v@[b] == pre[pb]);
                }
            }
            return;
        }
        i = i + 1;
    }
}

/// A client's visibility configuration: the policy, the explicit list it
/// interprets, and the entities whose visibility flipped during the current
/// tick.
pub struct ClientVisibility {
    policy: VisibilityPolicy,
    /// Hidden entities under `Blacklist`; shown entities under `Whitelist`.
    list: Vec<Entity>,
    /// Entities that became visible this tick.
    gained: Vec<Entity>,
    /// Entities that stopped being visible this tick.
    lost: Vec<Entity>,
}

impl ClientVisibility {
    pub closed spec fn spec_policy(self) -> VisibilityPolicy {
        self.policy
    }

    /// The entity is visible to this client right now.
    pub closed spec fn spec_visible(self, e: Entity) -> bool {
        match self.policy {
            VisibilityPolicy::All => true,
            VisibilityPolicy::Blacklist => !self.list@.contains(e),
            VisibilityPolicy::Whitelist => self.list@.contains(e),
        }
    }

    /// The entity became visible during the current tick.
    pub closed spec fn spec_gained(self, e: Entity) -> bool {
        self.gained@.contains(e)
    }

    /// The entity stopped being visible during the current tick.
    pub closed spec fn spec_lost(self, e: Entity) -> bool {
        self.lost@.contains(e)
    }

    /// The explicit list holds no duplicates.
    pub closed spec fn wf(self) -> bool {
        forall|i: int, j: int|
            0 <= i < j < self.list@.len() ==> self.list@[i] != self.list@[j]
    }

    pub fn new(policy: VisibilityPolicy) -> (r: Self)
        ensures
            r.wf(),
            r.spec_policy() == policy,
            forall|e: Entity| r.spec_visible(e) == (policy != VisibilityPolicy::Whitelist),
            forall|e: Entity| !r.spec_gained(e) && !r.spec_lost(e),
    {
        ClientVisibility { policy, list: Vec::new(), gained: Vec::new(), lost: Vec::new() }
    }

    pub fn policy(&self) -> (r: VisibilityPolicy)
        ensures
            r == self.spec_policy(),
    {
        self.policy
    }

    /// Forgets everything but the policy, for reuse by another client.
    pub fn clear(&mut self)
        ensures
            final(self).wf(),
            final(self).spec_policy() == old(self).spec_policy(),
            forall|e: Entity|
                final(self).spec_visible(e)
                    == (old(self).spec_policy() != VisibilityPolicy::Whitelist),
            forall|e: Entity| !final(self).spec_gained(e) && !final(self).spec_lost(e),
    {
        self.list.clear();
        self.gained.clear();
        self.lost.clear();
    }

    /// Forgets everything and installs the given policy, for reuse by a
    /// client of a possibly different server configuration.
    pub fn reset(&mut self, policy: VisibilityPolicy)
        ensures
            final(self).wf(),
            final(self).spec_policy() == policy,
            forall|e: Entity|
                final(self).spec_visible(e) == (policy != VisibilityPolicy::Whitelist),
            forall|e: Entity| !final(self).spec_gained(e) && !final(self).spec_lost(e),
    {
        self.policy = policy;
        self.list.clear();
        self.gained.clear();
        self.lost.clear();
    }

    /// Is the entity visible to this client right now?
    pub fn is_visible(&self, e: Entity) -> (r: bool)
        ensures
            r == self.spec_visible(e),
    {
        match self.policy {
            VisibilityPolicy::All => true,
            VisibilityPolicy::Blacklist => !vec_contains_entity(&self.list, e),
            VisibilityPolicy::Whitelist => vec_contains_entity(&self.list, e),
        }
    }

    /// Visibility of the entity for the current pass: hidden, just gained,
    /// or plainly visible.
    pub fn state(&self, e: Entity) -> (r: Visibility)
        ensures
            r == (if !self.spec_visible(e) {
                Visibility::Hidden
            } else if self.spec_gained(e) {
                Visibility::Gained
            } else {
                Visibility::Visible
            }),
    {
        if !self.is_visible(e) {
            Visibility::Hidden
        } else if vec_contains_entity(&self.gained, e) {
            Visibility::Gained
        } else {
            Visibility::Visible
        }
    }

    /// Shows or hides one entity for this client.
    ///
    /// Does nothing under [`VisibilityPolicy::All`]. Changes the visibility
    /// of no other entity. A transition away from visible is recorded as
    /// lost; a transition to visible is recorded as gained.
    pub fn set_visibility(&mut self, e: Entity, visible: bool)
        requires
            old(self).wf(),
        ensures
            final(self).wf(),
            final(self).spec_policy() == old(self).spec_policy(),
            final(self).spec_visible(e) == if old(self).spec_policy() == VisibilityPolicy::All {
                true
            } else {
                visible
            },
            forall|x: Entity| x != e ==> final(self).spec_visible(x) == old(self).spec_visible(x),
            forall|x: Entity| x != e ==> final(self).spec_gained(x) == old(self).spec_gained(x),
            forall|x: Entity| x != e ==> final(self).spec_lost(x) == old(self).spec_lost(x),
            old(self).spec_policy() != VisibilityPolicy::All && visible
                && !old(self).spec_visible(e) ==> final(self).spec_gained(e),
            old(self).spec_policy() != VisibilityPolicy::All && !visible
                && old(self).spec_visible(e) ==> final(self).spec_lost(e),
    {
        match self.policy {
            VisibilityPolicy::All => {},
            VisibilityPolicy::Blacklist => {
                if visible {
                    if vec_contains_entity(&self.list, e) {
                        vec_remove_entity(&mut self.list, e);
                        self.gained.push(e);
                    }
                } else {
                    if !vec_contains_entity(&self.list, e) {
                        self.list.push(e);
                        self.lost.push(e);
                        proof {
                            assert(self.list@.contains(e)) by {
                                assert(self.list@[self.list@.len() - 1] == e);
                            }
                            assert(self.lost@[self.lost@.len() - 1] == e);
                        }
                    }
                }
            },
            VisibilityPolicy::Whitelist => {
                if visible {
                    if !vec_contains_entity(&self.list, e) {
                        self.list.push(e);
                        self.gained.push(e);
                        proof {
                            assert(self.list@[self.list@.len() - 1] == e);
                            assert(self.gained@[self.gained@.len() - 1] == e);
                        }
                    }
                } else {
                    if vec_contains_entity(&self.list, e) {
                        vec_remove_entity(&mut self.list, e);
                        self.lost.push(e);
                        proof {
                            assert(self.lost@[self.lost@.len() - 1] == e);
                        }
                    }
                }
            },
        }
        proof {
            if old(self).wf() && self.list@ == old(self).list@.push(e) {
                assert forall|i: int, j: int|
                    0 <= i < j < self.list@.len() implies self.list@[i] != self.list@[j] by {
                    if j < self.list@.len() - 1 {
                        assert(self.list@[i] == old(self).list@[i]);
                        assert(self.list@[j] == old(self).list@[j]);
                    } else {
                        assert(self.list@[j] == e);
                        assert(self.list@[i] == old(self).list@[i]);
                        assert(!old(self).list@.contains(e));
                    }
                }
            }
        }
    }

    /// Removes a despawned entity from the visibility bookkeeping.
    pub fn remove_despawned(&mut self, e: Entity)
        requires
            old(self).wf(),
        ensures
            final(self).wf(),
            final(self).spec_policy() == old(self).spec_policy(),
            final(self).spec_visible(e)
                == (old(self).spec_policy() != VisibilityPolicy::Whitelist),
            forall|x: Entity| x != e ==> final(self).spec_visible(x) == old(self).spec_visible(x),
            final(self).lost_list() == old(self).lost_list(),
    {
        vec_remove_entity(&mut self.list, e);
    }

    /// Hands out the entities that stopped being visible this tick and
    /// forgets them.
    pub fn drain_lost_visibility(&mut self) -> (r: Vec<Entity>)
        requires
            old(self).wf(),
        ensures
            r@ == old(self).lost_list(),
            final(self).lost_list().len() == 0,
            final(self).wf(),
            final(self).spec_policy() == old(self).spec_policy(),
            forall|x: Entity| final(self).spec_visible(x) == old(self).spec_visible(x),
            forall|x: Entity| final(self).spec_gained(x) == old(self).spec_gained(x),
    {
        let mut out: Vec<Entity> = Vec::new();
        core::mem::swap(&mut out, &mut self.lost);
        out
    }

    /// The entities recorded as lost this tick, in recording order.
    pub closed spec fn lost_list(self) -> Seq<Entity> {
        self.lost@
    }

    /// Forgets this tick's transitions once the pass has consumed them.
    pub fn update(&mut self)
        requires
            old(self).wf(),
        ensures
            final(self).wf(),
            final(self).spec_policy() == old(self).spec_policy(),
            forall|x: Entity| final(self).spec_visible(x) == old(self).spec_visible(x),
            forall|x: Entity| !final(self).spec_gained(x) && !final(self).spec_lost(x),
    {
        self.gained.clear();
        self.lost.clear();
    }
}

} // verus!
