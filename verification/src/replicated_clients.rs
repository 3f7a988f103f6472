//! Server-side state for every client enabled for replication.
//!
//! Each client owns its visibility configuration, a floor tick per
//! replicated entity (the point below which the client is assumed caught
//! up), and a registry of in-flight mutate messages awaiting
//! acknowledgment. Client state objects and their entity lists are pooled
//! and reused across connects and disconnects.

use vstd::prelude::*;
use crate::assoc::{
    assoc_get, assoc_has, assoc_unique, lemma_assoc_get_at, lemma_assoc_get_push,
    lemma_assoc_get_remove, lemma_assoc_get_some, lemma_assoc_get_update,
};
use crate::change_tick::Tick;
use crate::entity::Entity;
use crate::tick::RepliconTick;
use crate::visibility::{ClientVisibility, VisibilityPolicy};

verus! {

/// The client identity the server reserves for itself when it also plays.
pub const SERVER_ID: u64 = 0;

/// Identity of one connected client.
#[derive(Clone, Copy, Debug, Default, Hash, PartialEq, Eq, Structural)]
pub struct ClientId {
    value: u64,
}

impl ClientId {
    pub closed spec fn spec_value(self) -> u64 {
        self.value
    }

    pub fn new(value: u64) -> (r: ClientId)
        ensures
            r.spec_value() == value,
    {
        ClientId { value }
    }

    pub fn get(self) -> (r: u64)
        ensures
            r == self.spec_value(),
    {
        self.value
    }

    /// The server acting as its own client.
    pub fn server() -> (r: ClientId)
        ensures
            r.spec_value() == SERVER_ID,
    {
        ClientId { value: SERVER_ID }
    }
}

/// One in-flight mutate message: the tick it was produced at, the
/// wall-clock time it was sent at (milliseconds), and every entity it
/// touched.
pub struct UpdateInfo {
    pub tick: Tick,
    pub timestamp: u64,
    pub entities: Vec<Entity>,
}

/// Spec-level shape of one in-flight record.
pub type UpdateView = (Tick, u64, Seq<Entity>);

/// Spec-level shape of one keyed in-flight record.
pub open spec fn update_pair_view(p: (u16, UpdateInfo)) -> (u16, UpdateView) {
    (p.0, (p.1.tick, p.1.timestamp, p.1.entities@))
}

/// Spec-level shape of a whole record list.
pub open spec fn updates_seq_view(s: Seq<(u16, UpdateInfo)>) -> Seq<(u16, UpdateView)> {
    s.map_values(|p: (u16, UpdateInfo)| update_pair_view(p))
}

/// Per-client replication state.
pub struct ReplicatedClient {
    id: ClientId,
    /// Floor change tick for each replicated entity.
    change_ticks: Vec<(Entity, Tick)>,
    visibility: ClientVisibility,
    /// Latest tick at which this client saw a structural change.
    init_tick: RepliconTick,
    /// In-flight mutate messages by their wrapping index.
    updates: Vec<(u16, UpdateInfo)>,
    /// Index the next mutate message will be registered under.
    next_update_index: u16,
}

impl ReplicatedClient {
    pub closed spec fn spec_id(self) -> ClientId {
        self.id
    }

    pub closed spec fn spec_visibility(self) -> ClientVisibility {
        self.visibility
    }

    pub closed spec fn spec_init_tick(self) -> RepliconTick {
        self.init_tick
    }

    pub closed spec fn spec_next_update_index(self) -> u16 {
        self.next_update_index
    }

    pub closed spec fn change_ticks_view(self) -> Seq<(Entity, Tick)> {
        self.change_ticks@
    }

    pub closed spec fn updates_view(self) -> Seq<(u16, UpdateView)> {
        updates_seq_view(self.updates@)
    }

    /// The floor tick recorded for `e`, if any.
    pub open spec fn spec_floor(self, e: Entity) -> Option<Tick> {
        assoc_get(self.change_ticks_view(), e)
    }

    /// The in-flight record registered under `k`, if any.
    pub open spec fn spec_update(self, k: u16) -> Option<UpdateView> {
        assoc_get(self.updates_view(), k)
    }

    /// Keys are unique and the visibility list well formed.
    pub open spec fn wf(self) -> bool {
        &&& assoc_unique(self.change_ticks_view())
        &&& assoc_unique(self.updates_view())
        &&& self.spec_visibility().wf()
    }

    /// No floor ticks, no in-flight records, index zero, cleared
    /// visibility: the state a client starts replication with.
    pub open spec fn is_fresh(self) -> bool {
        &&& self.change_ticks_view().len() == 0
        &&& self.updates_view().len() == 0
        &&& self.spec_next_update_index() == 0
        &&& forall|e: Entity| !self.spec_visibility().spec_gained(e)
            && !self.spec_visibility().spec_lost(e)
        &&& forall|e: Entity|
            self.spec_visibility().spec_visible(e)
                == (self.spec_visibility().spec_policy() != VisibilityPolicy::Whitelist)
    }

    pub fn new(id: ClientId, policy: VisibilityPolicy) -> (r: Self)
        ensures
            r.wf(),
            r.is_fresh(),
            r.spec_id() == id,
            r.spec_visibility().spec_policy() == policy,
            r.spec_init_tick().spec_value() == 0,
    {
        let r = ReplicatedClient {
            id,
            change_ticks: Vec::new(),
            visibility: ClientVisibility::new(policy),
            init_tick: RepliconTick::new(0),
            updates: Vec::new(),
            next_update_index: 0,
        };
        proof {
            assert(r.updates_view() =~= Seq::<(u16, UpdateView)>::empty());
        }
        r
    }

    pub fn id(&self) -> (r: ClientId)
        ensures
            r == self.spec_id(),
    {
        self.id
    }

    pub fn visibility(&self) -> (r: &ClientVisibility)
        ensures
            *r == self.spec_visibility(),
    {
        &self.visibility
    }

    pub fn visibility_mut(&mut self) -> (r: &mut ClientVisibility)
        ensures
            *r == old(self).spec_visibility(),
            final(self).spec_visibility() == *final(r),
            final(self).spec_id() == old(self).spec_id(),
            final(self).spec_init_tick() == old(self).spec_init_tick(),
            final(self).spec_next_update_index() == old(self).spec_next_update_index(),
            final(self).change_ticks_view() == old(self).change_ticks_view(),
            final(self).updates_view() == old(self).updates_view(),
    {
        &mut self.visibility
    }

    pub fn set_init_tick(&mut self, tick: RepliconTick)
        ensures
            final(self).spec_init_tick() == tick,
            final(self).spec_id() == old(self).spec_id(),
            final(self).spec_visibility() == old(self).spec_visibility(),
            final(self).spec_next_update_index() == old(self).spec_next_update_index(),
            final(self).change_ticks_view() == old(self).change_ticks_view(),
            final(self).updates_view() == old(self).updates_view(),
    {
        self.init_tick = tick;
    }

    /// Latest tick at which a replicated entity changed structurally from
    /// this client's point of view.
    pub fn init_tick(&self) -> (r: RepliconTick)
        ensures
            r == self.spec_init_tick(),
    {
        self.init_tick
    }

    /// Sets the floor tick for an entity replicated to this client.
    pub fn set_change_tick(&mut self, entity: Entity, tick: Tick)
        requires
            old(self).wf(),
        ensures
            final(self).wf(),
            final(self).spec_floor(entity) == Some(tick),
            forall|x: Entity| x != entity
                ==> final(self).spec_floor(x) == old(self).spec_floor(x),
            final(self).spec_id() == old(self).spec_id(),
            final(self).spec_visibility() == old(self).spec_visibility(),
            final(self).spec_init_tick() == old(self).spec_init_tick(),
            final(self).spec_next_update_index() == old(self).spec_next_update_index(),
            final(self).updates_view() == old(self).updates_view(),
    {
        match find_change_tick(&self.change_ticks, entity) {
            Some(i) => {
                let ghost pre = self.change_ticks@;
                self.change_ticks[i] = (entity, tick);
                proof {
                    assert(self.change_ticks@ == pre.update(i as int, (pre[i as int].0, tick)));
                    assert forall|x: Entity| x != entity
                        implies assoc_get(self.change_ticks@, x) == assoc_get(pre, x) by {
                        lemma_assoc_get_update(pre, i as int, tick, x);
                    }
                    lemma_assoc_get_update(pre, i as int, tick, entity);
                }
            },
            None => {
                let ghost pre = self.change_ticks@;
                self.change_ticks.push((entity, tick));
                proof {
                    assert forall|x: Entity| x != entity
                        implies assoc_get(self.change_ticks@, x) == assoc_get(pre, x) by {
                        lemma_assoc_get_push(pre, entity, tick, x);
                    }
                    lemma_assoc_get_push(pre, entity, tick, entity);
                }
            },
        }
    }

    /// The floor tick recorded for an entity replicated to this client.
    pub fn get_change_tick(&self, entity: Entity) -> (r: Option<Tick>)
        requires
            self.wf(),
        ensures
            r == self.spec_floor(entity),
    {
        match find_change_tick(&self.change_ticks, entity) {
            Some(i) => {
                proof {
                    lemma_assoc_get_at(self.change_ticks@, entity, i as int);
                }
                Some(self.change_ticks[i].1)
            },
            None => None,
        }
    }

    /// Opens an in-flight record under the next wrapping index for a mutate
    /// message produced at `tick` and sent at `timestamp`, listing every
    /// entity the message touched. Returns the index the client must echo
    /// back to acknowledge it.
    pub fn register_update(&mut self, tick: Tick, timestamp: u64, entities: Vec<Entity>) -> (r:
        u16)
        requires
            old(self).wf(),
        ensures
            final(self).wf(),
            r == old(self).spec_next_update_index(),
            final(self).spec_next_update_index()
                == (old(self).spec_next_update_index() + 1) % 0x1_0000,
            final(self).spec_update(r) == Some((tick, timestamp, entities@)),
            forall|k: u16| k != r ==> final(self).spec_update(k) == old(self).spec_update(k),
            final(self).spec_id() == old(self).spec_id(),
            final(self).spec_visibility() == old(self).spec_visibility(),
            final(self).spec_init_tick() == old(self).spec_init_tick(),
            final(self).change_ticks_view() == old(self).change_ticks_view(),
    {
        let update_index = self.next_update_index;
        self.next_update_index = self.next_update_index.wrapping_add(1);
        let ghost mid = self.updates@;
        match find_update(&self.updates, update_index) {
            Some(i) => {
                // The wrapping index has come around to a record never
                // acknowledged; the stale record gives way.
                self.updates.remove(i);
                proof {
                    assert(self.updates_view() =~= old(self).updates_view().remove(i as int));
                    lemma_assoc_get_remove(old(self).updates_view(), i as int, update_index);
                    assert forall|k: u16| k != update_index
                        implies assoc_get(self.updates_view(), k)
                            == assoc_get(old(self).updates_view(), k) by {
                        lemma_assoc_get_remove(old(self).updates_view(), i as int, k);
                    }
                }
            },
            None => {},
        }
        let ghost base = self.updates_view();
        let info = UpdateInfo { tick, timestamp, entities };
        self.updates.push((update_index, info));
        proof {
            assert(self.updates_view() =~= base.push(
                (update_index, (tick, timestamp, entities@))));
            assert(!assoc_has(base, update_index));
            lemma_assoc_get_push(base, update_index, (tick, timestamp, entities@), update_index);
            assert forall|k: u16| k != update_index
                implies assoc_get(self.updates_view(), k) == assoc_get(base, k) by {
                lemma_assoc_get_push(base, update_index, (tick, timestamp, entities@), k);
            }
        }
        update_index
    }

    /// Marks the in-flight record under `update_index` as acknowledged at
    /// the current tick `tick`.
    ///
    /// The floor of every entity the record touched rises to the record's
    /// tick, unless a newer acknowledgment already moved it further: out of
    /// order acknowledgments never regress a floor. An unknown index, a
    /// stale duplicate, or an entity despawned meanwhile is skipped, never
    /// fatal. The record's entity list returns to the shared pool.
    pub fn acknowledge(
        &mut self,
        client_buffers: &mut ClientBuffers,
        tick: Tick,
        update_index: u16,
    )
        requires
            old(self).wf(),
        ensures
            final(self).wf(),
            final(self).spec_id() == old(self).spec_id(),
            final(self).spec_visibility() == old(self).spec_visibility(),
            final(self).spec_init_tick() == old(self).spec_init_tick(),
            final(self).spec_next_update_index() == old(self).spec_next_update_index(),
            match old(self).spec_update(update_index) {
                None => {
                    &&& forall|e: Entity|
                        final(self).spec_floor(e) == old(self).spec_floor(e)
                    &&& forall|k: u16| final(self).spec_update(k) == old(self).spec_update(k)
                    &&& *final(client_buffers) == *old(client_buffers)
                },
                Some(u) => {
                    &&& final(self).spec_update(update_index) is None
                    // The record's entity list returns to the shared pool.
                    &&& final(client_buffers).entities@.len()
                        == old(client_buffers).entities@.len() + 1
                    &&& final(client_buffers).clients@ == old(client_buffers).clients@
                    &&& forall|k: u16| k != update_index
                        ==> final(self).spec_update(k) == old(self).spec_update(k)
                    &&& forall|e: Entity|
                        final(self).spec_floor(e) == (
                        if u.2.contains(e) && old(self).spec_floor(e) is Some
                            && !old(self).spec_floor(e).unwrap().spec_is_newer_than(u.0, tick) {
                            Some(u.0)
                        } else {
                            old(self).spec_floor(e)
                        })
                },
            },
            // The floor of an entity never regresses: seen from the
            // current tick, it only ever gets younger.
            forall|e: Entity| old(self).spec_floor(e) is Some ==> {
                &&& final(self).spec_floor(e) is Some
                &&& Tick::spec_age(tick, final(self).spec_floor(e).unwrap())
                    <= Tick::spec_age(tick, old(self).spec_floor(e).unwrap())
            },
    {
        let i = match find_update(&self.updates, update_index) {
            Some(i) => i,
            None => {
                return;
            },
        };
        proof {
            lemma_assoc_get_at(self.updates_view(), update_index, i as int);
        }
        let (_, info) = self.updates.remove(i);
        let ghost orig = old(self).change_ticks_view();
        let ghost uview = old(self).spec_update(update_index).unwrap();
        proof {
            assert(self.updates_view() =~= old(self).updates_view().remove(i as int));
            lemma_assoc_get_remove(old(self).updates_view(), i as int, update_index);
            assert forall|k: u16| k != update_index
                implies assoc_get(self.updates_view(), k)
                    == assoc_get(old(self).updates_view(), k) by {
                lemma_assoc_get_remove(old(self).updates_view(), i as int, k);
            }
        }
        let ghost upd_after = self.updates@;
        let mut j: usize = 0;
        while j < info.entities.len()
            invariant
                j <= info.entities@.len(),
                assoc_unique(self.change_ticks@),
                assoc_unique(orig),
                info.tick == uview.0,
                info.entities@ == uview.2,
                *client_buffers == *old(client_buffers),
                self.updates@ == upd_after,
                self.id == old(self).id,
                self.visibility == old(self).visibility,
                self.init_tick == old(self).init_tick,
                self.next_update_index == old(self).next_update_index,
                old(self).spec_visibility().wf(),
                forall|x: Entity| assoc_get(self.change_ticks@, x) == (
                    if info.entities@.subrange(0, j as int).contains(x)
                        && assoc_get(orig, x) is Some
                        && !assoc_get(orig, x).unwrap().spec_is_newer_than(info.tick, tick) {
                        Some(info.tick)
                    } else {
                        assoc_get(orig, x)
                    }),
            decreases info.entities@.len() - j,
        {
            let e = info.entities[j];
            let ghost prefix = info.entities@.subrange(0, j as int);
            let ghost cur = self.change_ticks@;
            proof {
                assert(prefix.push(e) =~= info.entities@.subrange(0, j + 1));
                broadcast use vstd::seq_lib::lemma_seq_contains_after_push;
            }
            match find_change_tick(&self.change_ticks, e) {
                Some(idx) => {
                    proof {
                        lemma_assoc_get_at(cur, e, idx as int);
                    }
                    let last_tick = self.change_ticks[idx].1;
                    if !last_tick.is_newer_than(info.tick, tick) {
                        self.change_ticks[idx] = (e, info.tick);
                        proof {
                            assert(self.change_ticks@
                                == cur.update(idx as int, (cur[idx as int].0, info.tick)));
                            lemma_assoc_get_update(cur, idx as int, info.tick, e);
                            assert forall|x: Entity| x != e
                                implies assoc_get(self.change_ticks@, x) == assoc_get(cur, x) by {
                                lemma_assoc_get_update(cur, idx as int, info.tick, x);
                            }
                            assert(assoc_get(orig, e) is Some
                                && !assoc_get(orig, e).unwrap().spec_is_newer_than(
                                info.tick, tick)) by {
                                if prefix.contains(e) && assoc_get(orig, e) is Some
                                    && !assoc_get(orig, e).unwrap().spec_is_newer_than(
                                    info.tick, tick) {
                                } else {
                                    assert(assoc_get(cur, e) == assoc_get(orig, e));
                                    assert(assoc_get(orig, e) == Some(last_tick));
                                }
                            }
                        }
                    } else {
                        proof {
                            assert(assoc_get(cur, e)
                                == (if prefix.contains(e) && assoc_get(orig, e) is Some
                                && !assoc_get(orig, e).unwrap().spec_is_newer_than(info.tick, tick) {
                                Some(info.tick)
                            } else {
                                assoc_get(orig, e)
                            }));
                            if prefix.contains(e) && assoc_get(orig, e) is Some
                                && !assoc_get(orig, e).unwrap().spec_is_newer_than(
                                info.tick, tick) {
                                assert(last_tick == info.tick);
                                assert(!last_tick.spec_is_newer_than(info.tick, tick));
                            }
                        }
                    }
                },
                None => {
                    proof {
                        assert(assoc_get(cur, e) is None) by {
                            if assoc_has(cur, e) {
                                lemma_assoc_get_some(cur, e);
                            }
                        }
                        if prefix.contains(e) && assoc_get(orig, e) is Some
                            && !assoc_get(orig, e).unwrap().spec_is_newer_than(info.tick, tick) {
                            assert(assoc_get(cur, e) == Some(info.tick));
                        }
                    }
                },
            }
            proof {
                assert forall|x: Entity| assoc_get(self.change_ticks@, x) == (
                    if info.entities@.subrange(0, j + 1).contains(x)
                        && assoc_get(orig, x) is Some
                        && !assoc_get(orig, x).unwrap().spec_is_newer_than(info.tick, tick) {
                        Some(info.tick)
                    } else {
                        assoc_get(orig, x)
                    }) by {
                    broadcast use vstd::seq_lib::lemma_seq_contains_after_push;
                    assert(info.entities@.subrange(0, j + 1) == prefix.push(e));
                    if x != e {
                        assert(assoc_get(self.change_ticks@, x) == assoc_get(cur, x));
                        assert(prefix.push(e).contains(x) == prefix.contains(x));
                    }
                }
            }
            j = j + 1;
        }
        proof {
            assert(info.entities@.subrange(0, info.entities@.len() as int) =~= info.entities@);
            assert forall|e: Entity| old(self).spec_floor(e) is Some implies {
                &&& final(self).spec_floor(e) is Some
                &&& Tick::spec_age(tick, final(self).spec_floor(e).unwrap())
                    <= Tick::spec_age(tick, old(self).spec_floor(e).unwrap())
            } by {
                if info.entities@.contains(e) && assoc_get(orig, e) is Some
                    && !assoc_get(orig, e).unwrap().spec_is_newer_than(info.tick, tick) {
                    crate::change_tick::lemma_floor_raise_monotonic(
                        assoc_get(orig, e).unwrap(), info.tick, tick);
                }
            }
        }
        client_buffers.entities.push(info.entities);
    }

    /// Forgets a despawned entity's floor tick and visibility bookkeeping.
    /// In-flight records are left alone; [`Self::acknowledge`] skips
    /// entities no longer tracked, so a duplicate despawn is a no-op.
    pub fn remove_despawned(&mut self, entity: Entity)
        requires
            old(self).wf(),
        ensures
            final(self).wf(),
            final(self).spec_floor(entity) is None,
            forall|x: Entity| x != entity
                ==> final(self).spec_floor(x) == old(self).spec_floor(x),
            final(self).spec_visibility().spec_visible(entity)
                == (old(self).spec_visibility().spec_policy() != VisibilityPolicy::Whitelist),
            forall|x: Entity| x != entity
                ==> final(self).spec_visibility().spec_visible(x)
                    == old(self).spec_visibility().spec_visible(x),
            final(self).spec_visibility().spec_policy()
                == old(self).spec_visibility().spec_policy(),
            final(self).spec_visibility().lost_list()
                == old(self).spec_visibility().lost_list(),
            final(self).spec_id() == old(self).spec_id(),
            final(self).spec_init_tick() == old(self).spec_init_tick(),
            final(self).spec_next_update_index() == old(self).spec_next_update_index(),
            final(self).updates_view() == old(self).updates_view(),
    {
        match find_change_tick(&self.change_ticks, entity) {
            Some(i) => {
                let ghost pre = self.change_ticks@;
                self.change_ticks.remove(i);
                proof {
                    assert(self.change_ticks@ =~= pre.remove(i as int));
                    lemma_assoc_get_remove(pre, i as int, entity);
                    assert forall|x: Entity| x != entity
                        implies assoc_get(self.change_ticks@, x) == assoc_get(pre, x) by {
                        lemma_assoc_get_remove(pre, i as int, x);
                    }
                }
            },
            None => {},
        }
        self.visibility.remove_despawned(entity);
    }

    /// Hands out the entities whose visibility this client lost during the
    /// current tick, dropping their floor ticks: each will reach the client
    /// as a synthetic despawn and, if shown again, as a full snapshot.
    pub fn drain_lost_visibility(&mut self) -> (r: Vec<Entity>)
        requires
            old(self).wf(),
        ensures
            final(self).wf(),
            r@ == old(self).spec_visibility().lost_list(),
            final(self).spec_visibility().lost_list().len() == 0,
            forall|e: Entity| r@.contains(e) ==> final(self).spec_floor(e) is None,
            forall|e: Entity| !r@.contains(e)
                ==> final(self).spec_floor(e) == old(self).spec_floor(e),
            final(self).spec_id() == old(self).spec_id(),
            final(self).spec_init_tick() == old(self).spec_init_tick(),
            final(self).spec_next_update_index() == old(self).spec_next_update_index(),
            final(self).updates_view() == old(self).updates_view(),
            forall|x: Entity| final(self).spec_visibility().spec_visible(x)
                == old(self).spec_visibility().spec_visible(x),
            final(self).spec_visibility().spec_policy()
                == old(self).spec_visibility().spec_policy(),
    {
        let lost = self.visibility.drain_lost_visibility();
        let ghost vis_after = self.visibility;
        let mut j: usize = 0;
        while j < lost.len()
            invariant
                j <= lost@.len(),
                assoc_unique(self.change_ticks@),
                self.visibility == vis_after,
                vis_after.wf(),
                self.updates@ == old(self).updates@,
                self.id == old(self).id,
                self.init_tick == old(self).init_tick,
                self.next_update_index == old(self).next_update_index,
                forall|e: Entity| lost@.subrange(0, j as int).contains(e)
                    ==> assoc_get(self.change_ticks@, e) is None,
                forall|e: Entity| !lost@.subrange(0, j as int).contains(e)
                    ==> assoc_get(self.change_ticks@, e)
                        == assoc_get(old(self).change_ticks_view(), e),
            decreases lost@.len() - j,
        {
            let e = lost[j];
            let ghost prefix = lost@.subrange(0, j as int);
            let ghost pre = self.change_ticks@;
            proof {
                assert(prefix.push(e) =~= lost@.subrange(0, j + 1));
                broadcast use vstd::seq_lib::lemma_seq_contains_after_push;
            }
            match find_change_tick(&self.change_ticks, e) {
                Some(i) => {
                    self.change_ticks.remove(i);
                    proof {
                        assert(self.change_ticks@ =~= pre.remove(i as int));
                        lemma_assoc_get_remove(pre, i as int, e);
                        assert forall|x: Entity| x != e
                            implies assoc_get(self.change_ticks@, x) == assoc_get(pre, x) by {
                            lemma_assoc_get_remove(pre, i as int, x);
                        }
                    }
                },
                None => {
                    proof {
                        assert(assoc_get(pre, e) is None) by {
                            if assoc_has(pre, e) {
                                lemma_assoc_get_some(pre, e);
                            }
                        }
                    }
                },
            }
            proof {
                broadcast use vstd::seq_lib::lemma_seq_contains_after_push;
                assert(lost@.subrange(0, j + 1) == prefix.push(e));
                assert forall|x: Entity| lost@.subrange(0, j + 1).contains(x)
                    implies assoc_get(self.change_ticks@, x) is None by {
                    if x != e {
                        assert(prefix.contains(x));
                        assert(assoc_get(self.change_ticks@, x) == assoc_get(pre, x));
                    }
                }
                assert forall|x: Entity| !lost@.subrange(0, j + 1).contains(x)
                    implies assoc_get(self.change_ticks@, x)
                        == assoc_get(old(self).change_ticks_view(), x) by {
                    assert(x != e && !prefix.contains(x));
                    assert(assoc_get(self.change_ticks@, x) == assoc_get(pre, x));
                }
            }
            j = j + 1;
        }
        proof {
            assert(lost@.subrange(0, lost@.len() as int) =~= lost@);
        }
        lost
    }

    /// Evicts in-flight records sent before `min_timestamp`, returning
    /// their entity lists to the pool. An entity whose record is abandoned
    /// keeps its last floor tick: the cost is only that more data is sent
    /// again.
    pub fn remove_older_updates(&mut self, client_buffers: &mut ClientBuffers, min_timestamp: u64)
        requires
            old(self).wf(),
        ensures
            final(self).wf(),
            forall|k: u16| final(self).spec_update(k) == (
                match old(self).spec_update(k) {
                    Some(u) => if u.1 < min_timestamp {
                        None::<UpdateView>
                    } else {
                        Some(u)
                    },
                    None => None::<UpdateView>,
                }),
            final(self).spec_id() == old(self).spec_id(),
            final(self).spec_visibility() == old(self).spec_visibility(),
            final(self).spec_init_tick() == old(self).spec_init_tick(),
            final(self).spec_next_update_index() == old(self).spec_next_update_index(),
            final(self).change_ticks_view() == old(self).change_ticks_view(),
            // Each evicted record's entity list returns to the shared pool.
            final(client_buffers).entities@.len() == old(client_buffers).entities@.len()
                + old(self).updates_view().len() - final(self).updates_view().len(),
            final(client_buffers).clients@ == old(client_buffers).clients@,
    {
        let ghost orig = old(self).updates_view();
        let mut pending: Vec<(u16, UpdateInfo)> = Vec::new();
        core::mem::swap(&mut pending, &mut self.updates);
        let ghost total = orig.len() as int;
        proof {
            vstd::std_specs::vec::axiom_spec_len(&pending);
        }
        let mut processed: usize = 0;
        while pending.len() > 0
            invariant
                processed + pending@.len() == total,
                total == orig.len(),
                total <= usize::MAX,
                client_buffers.entities@.len() == old(client_buffers).entities@.len()
                    + processed - self.updates@.len(),
                client_buffers.clients@ == old(client_buffers).clients@,
                updates_seq_view(pending@) == orig.subrange(processed as int, total),
                assoc_unique(orig),
                assoc_unique(self.updates_view()),
                forall|k: u16| assoc_get(self.updates_view(), k) == (
                    match assoc_get(orig.subrange(0, processed as int), k) {
                        Some(u) => if u.1 < min_timestamp {
                            None::<UpdateView>
                        } else {
                            Some(u)
                        },
                        None => None::<UpdateView>,
                    }),
                self.id == old(self).id,
                self.visibility == old(self).visibility,
                self.init_tick == old(self).init_tick,
                self.next_update_index == old(self).next_update_index,
                self.change_ticks@ == old(self).change_ticks@,
            decreases pending@.len(),
        {
            let ghost pre_pending = pending@;
            let ghost pre_kept = self.updates_view();
            let ghost p = processed as int;
            proof {
                assert(updates_seq_view(pre_pending) == orig.subrange(p, total));
                assert(orig.subrange(p, total)[0] == orig[p]);
                assert(updates_seq_view(pre_pending)[0] == orig[p]);
            }
            let (key, mut info) = pending.remove(0);
            proof {
                assert(pending@ =~= pre_pending.remove(0));
                assert(updates_seq_view(pending@)
                    =~= updates_seq_view(pre_pending).remove(0));
                assert((key, (info.tick, info.timestamp, info.entities@)) == orig[p]);
                assert(updates_seq_view(pending@) =~= orig.subrange(p + 1, total)) by {
                    assert forall|i: int| 0 <= i < updates_seq_view(pending@).len() implies
                        updates_seq_view(pending@)[i] == orig.subrange(p + 1, total)[i] by {
                        assert(updates_seq_view(pending@)[i]
                            == updates_seq_view(pre_pending).remove(0)[i]);
                        assert(updates_seq_view(pre_pending).remove(0)[i]
                            == updates_seq_view(pre_pending)[i + 1]);
                        assert(orig.subrange(p, total)[i + 1] == orig[p + 1 + i]);
                        assert(orig.subrange(p + 1, total)[i] == orig[p + 1 + i]);
                    }
                }
                assert(orig.subrange(0, p).push(orig[p]) =~= orig.subrange(0, p + 1));
                assert(!assoc_has(orig.subrange(0, p), key)) by {
                    if assoc_has(orig.subrange(0, p), key) {
                        let a = choose|a: int|
                            0 <= a < p && (#[trigger] orig.subrange(0, p)[a]).0 == key;
                        assert(orig[a].0 == orig[p].0);
                    }
                }
            }
            if info.timestamp < min_timestamp {
                let mut drained: Vec<Entity> = Vec::new();
                core::mem::swap(&mut drained, &mut info.entities);
                client_buffers.entities.push(drained);
                proof {
                    assert forall|k: u16| assoc_get(self.updates_view(), k) == (
                        match assoc_get(orig.subrange(0, p + 1), k) {
                            Some(u) => if u.1 < min_timestamp {
                                None::<UpdateView>
                            } else {
                                Some(u)
                            },
                            None => None::<UpdateView>,
                        }) by {
                        lemma_assoc_get_push(orig.subrange(0, p), key, orig[p].1, k);
                        if k == key {
                            assert(assoc_get(orig.subrange(0, p + 1), k) == Some(orig[p].1));
                            assert(orig[p].1.1 < min_timestamp);
                            assert(assoc_get(pre_kept, k)
                                == assoc_get(self.updates_view(), k));
                            assert(assoc_get(orig.subrange(0, p), k) is None);
                            assert(assoc_get(self.updates_view(), k) is None);
                        }
                    }
                }
            } else {
                let ghost kept_pre = self.updates_view();
                proof {
                    assert(!assoc_has(kept_pre, key)) by {
                        if assoc_has(kept_pre, key) {
                            assert(assoc_get(kept_pre, key) is Some);
                            lemma_assoc_get_some(kept_pre, key);
                        }
                    }
                }
                self.updates.push((key, info));
                proof {
                    let f = |q: (u16, UpdateInfo)| (q.0, (q.1.tick, q.1.timestamp, q.1.entities@));
                    assert(self.updates_view() =~= kept_pre.push((key, orig[p].1)));
                    assert forall|k: u16| assoc_get(self.updates_view(), k) == (
                        match assoc_get(orig.subrange(0, p + 1), k) {
                            Some(u) => if u.1 < min_timestamp {
                                None::<UpdateView>
                            } else {
                                Some(u)
                            },
                            None => None::<UpdateView>,
                        }) by {
                        lemma_assoc_get_push(orig.subrange(0, p), key, orig[p].1, k);
                        lemma_assoc_get_push(kept_pre, key, orig[p].1, k);
                    }
                }
            }
            processed = processed + 1;
        }
        proof {
            assert(orig.subrange(0, total) =~= orig);
        }
    }

    /// Moves every in-flight record's entity list into the shared pool and
    /// forgets the records.
    pub fn drain_entities(&mut self, client_buffers: &mut ClientBuffers)
        ensures
            final(self).updates_view().len() == 0,
            final(self).spec_id() == old(self).spec_id(),
            final(self).spec_visibility() == old(self).spec_visibility(),
            final(self).spec_init_tick() == old(self).spec_init_tick(),
            final(self).spec_next_update_index() == old(self).spec_next_update_index(),
            final(self).change_ticks_view() == old(self).change_ticks_view(),
            old(self).wf() ==> final(self).wf(),
            final(client_buffers).clients@ == old(client_buffers).clients@,
            // Every record's entity list returns to the shared pool.
            final(client_buffers).entities@.len()
                == old(client_buffers).entities@.len() + old(self).updates_view().len(),
    {
        while self.updates.len() > 0
            invariant
                self.id == old(self).id,
                self.visibility == old(self).visibility,
                self.init_tick == old(self).init_tick,
                self.next_update_index == old(self).next_update_index,
                self.change_ticks@ == old(self).change_ticks@,
                client_buffers.clients@ == old(client_buffers).clients@,
                client_buffers.entities@.len() + self.updates@.len()
                    == old(client_buffers).entities@.len() + old(self).updates@.len(),
            decreases self.updates@.len(),
        {
            let (_, mut info) = self.updates.pop().unwrap();
            let mut drained: Vec<Entity> = Vec::new();
            core::mem::swap(&mut drained, &mut info.entities);
            client_buffers.entities.push(drained);
        }
        proof {
            assert(self.updates_view() =~= Seq::<(u16, UpdateView)>::empty());
        }
    }

    /// Resets the state for reuse by the client `id` under the server's
    /// visibility policy, keeping allocated memory: no floor tick, no
    /// visibility entry and no in-flight record of the previous occupant
    /// survives.
    pub fn reset(&mut self, id: ClientId, policy: VisibilityPolicy)
        ensures
            final(self).wf(),
            final(self).is_fresh(),
            final(self).spec_id() == id,
            final(self).spec_visibility().spec_policy() == policy,
    {
        self.id = id;
        self.visibility.reset(policy);
        self.change_ticks.clear();
        self.updates.clear();
        self.next_update_index = 0;
        proof {
            assert(self.updates_view() =~= Seq::<(u16, UpdateView)>::empty());
        }
    }
}

/// Index of the entry for `e`, scanning from the front.
fn find_change_tick(v: &Vec<(Entity, Tick)>, e: Entity) -> (r: Option<usize>)
    ensures
        match r {
            Some(i) => i < v@.len() && v@[i as int].0 == e,
            None => !assoc_has(v@, e),
        },
{
    let mut i: usize = 0;
    while i < v.len()
        invariant
            i <= v@.len(),
            forall|j: int| 0 <= j < i ==> (#[trigger] v@[j]).0 != e,
        decreases v@.len() - i,
    {
        if v[i].0 == e {
            return Some(i);
        }
        i = i + 1;
    }
    proof {
        if assoc_has(v@, e) {
            let j = choose|j: int| 0 <= j < v@.len() && (#[trigger] v@[j]).0 == e;
            assert(v@[j].0 != e);
        }
    }
    None
}

/// Index of the record registered under `k`, scanning from the front.
fn find_update(v: &Vec<(u16, UpdateInfo)>, k: u16) -> (r: Option<usize>)
    ensures
        match r {
            Some(i) => i < v@.len() && updates_seq_view(v@)[i as int].0 == k,
            None => !assoc_has(updates_seq_view(v@), k),
        },
{
    let ghost view = updates_seq_view(v@);
    let mut i: usize = 0;
    while i < v.len()
        invariant
            i <= v@.len(),
            view == updates_seq_view(v@),
            forall|j: int| 0 <= j < i ==> (#[trigger] view[j]).0 != k,
        decreases v@.len() - i,
    {
        if v[i].0 == k {
            assert(view[i as int].0 == k);
            return Some(i);
        }
        assert(view[i as int].0 != k);
        i = i + 1;
    }
    proof {
        if assoc_has(view, k) {
            let j = choose|j: int| 0 <= j < view.len() && (#[trigger] view[j]).0 == k;
            assert(view[j].0 != k);
        }
    }
    None
}

/// All clients currently enabled for replication.
pub struct ReplicatedClients {
    clients: Vec<ReplicatedClient>,
    policy: VisibilityPolicy,
    replicate_after_connect: bool,
}

impl ReplicatedClients {
    pub closed spec fn spec_clients(self) -> Seq<ReplicatedClient> {
        self.clients@
    }

    pub closed spec fn spec_policy(self) -> VisibilityPolicy {
        self.policy
    }

    pub closed spec fn spec_replicate_after_connect(self) -> bool {
        self.replicate_after_connect
    }

    /// Some client with this identity is replicating.
    pub open spec fn spec_has(self, id: ClientId) -> bool {
        exists|i: int|
            0 <= i < self.spec_clients().len()
                && (#[trigger] self.spec_clients()[i]).spec_id() == id
    }

    /// Index of the client with this identity.
    pub open spec fn spec_index_of(self, id: ClientId) -> int {
        choose|i: int|
            0 <= i < self.spec_clients().len()
                && (#[trigger] self.spec_clients()[i]).spec_id() == id
    }

    /// The client state under this identity.
    pub open spec fn spec_client(self, id: ClientId) -> ReplicatedClient {
        self.spec_clients()[self.spec_index_of(id)]
    }

    /// Identities are unique and every client state well formed.
    pub open spec fn wf(self) -> bool {
        &&& forall|i: int, j: int|
            0 <= i < j < self.spec_clients().len()
                ==> (#[trigger] self.spec_clients()[i]).spec_id()
                    != (#[trigger] self.spec_clients()[j]).spec_id()
        &&& forall|i: int| 0 <= i < self.spec_clients().len()
            ==> (#[trigger] self.spec_clients()[i]).wf()
    }

    pub fn new(policy: VisibilityPolicy, replicate_after_connect: bool) -> (r: Self)
        ensures
            r.wf(),
            r.spec_clients().len() == 0,
            r.spec_policy() == policy,
            r.spec_replicate_after_connect() == replicate_after_connect,
    {
        ReplicatedClients { clients: Vec::new(), policy, replicate_after_connect }
    }

    /// The configured visibility policy.
    pub fn visibility_policy(&self) -> (r: VisibilityPolicy)
        ensures
            r == self.spec_policy(),
    {
        self.policy
    }

    /// Whether replication starts for a client as soon as it connects.
    pub fn replicate_after_connect(&self) -> (r: bool)
        ensures
            r == self.spec_replicate_after_connect(),
    {
        self.replicate_after_connect
    }

    pub fn len(&self) -> (r: usize)
        ensures
            r == self.spec_clients().len(),
    {
        self.clients.len()
    }

    pub fn is_empty(&self) -> (r: bool)
        ensures
            r == (self.spec_clients().len() == 0),
    {
        self.clients.len() == 0
    }

    fn find(&self, id: ClientId) -> (r: Option<usize>)
        ensures
            match r {
                Some(i) => i < self.spec_clients().len()
                    && self.spec_clients()[i as int].spec_id() == id,
                None => !self.spec_has(id),
            },
    {
        let mut i: usize = 0;
        while i < self.clients.len()
            invariant
                i <= self.clients@.len(),
                forall|j: int| 0 <= j < i ==> (#[trigger] self.clients@[j]).spec_id() != id,
            decreases self.clients@.len() - i,
        {
            if self.clients[i].id().get() == id.get() {
                proof {
                    assert(self.clients@[i as int].spec_id().spec_value() == id.spec_value());
                    assert(self.clients@[i as int].spec_id() == id);
                }
                return Some(i);
            }
            proof {
                assert(self.clients@[i as int].spec_id() != id);
            }
            i = i + 1;
        }
        proof {
            if self.spec_has(id) {
                let j = choose|j: int|
                    0 <= j < self.clients@.len()
                        && (#[trigger] self.clients@[j]).spec_id() == id;
                assert(self.clients@[j].spec_id() != id);
            }
        }
        None
    }

    /// With unique identities, the entry at a matching index is the looked
    /// up client.
    proof fn lemma_client_at(self, id: ClientId, i: int)
        requires
            self.wf(),
            0 <= i < self.spec_clients().len(),
            self.spec_clients()[i].spec_id() == id,
        ensures
            self.spec_has(id),
            self.spec_index_of(id) == i,
            self.spec_client(id) == self.spec_clients()[i],
    {
        assert(self.spec_has(id));
        let j = self.spec_index_of(id);
        if i != j {
            if i < j {
                assert(self.spec_clients()[i].spec_id() != self.spec_clients()[j].spec_id());
            } else {
                assert(self.spec_clients()[j].spec_id() != self.spec_clients()[i].spec_id());
            }
        }
    }

    /// The state of the client `id`, if it is replicating.
    pub fn get_client(&self, id: ClientId) -> (r: Option<&ReplicatedClient>)
        requires
            self.wf(),
        ensures
            match r {
                Some(c) => self.spec_has(id) && *c == self.spec_client(id),
                None => !self.spec_has(id),
            },
    {
        match self.find(id) {
            Some(i) => {
                proof {
                    self.lemma_client_at(id, i as int);
                }
                Some(&self.clients[i])
            },
            None => None,
        }
    }

    /// The state of the connected client `id`.
    pub fn client(&self, id: ClientId) -> (r: &ReplicatedClient)
        requires
            self.wf(),
            self.spec_has(id),
        ensures
            *r == self.spec_client(id),
    {
        match self.get_client(id) {
            Some(c) => c,
            None => {
                proof {
                    assert(false);
                }
                &self.clients[0]
            },
        }
    }

    /// Mutable state of the client `id`, if it is replicating.
    pub fn get_client_mut(&mut self, id: ClientId) -> (r: Option<&mut ReplicatedClient>)
        requires
            old(self).wf(),
        ensures
            final(self).spec_policy() == old(self).spec_policy(),
            final(self).spec_replicate_after_connect()
                == old(self).spec_replicate_after_connect(),
            match r {
                Some(c) => {
                    &&& old(self).spec_has(id)
                    &&& *c == old(self).spec_client(id)
                    &&& final(self).spec_clients() == old(self).spec_clients().update(
                        old(self).spec_index_of(id),
                        *final(c),
                    )
                },
                None => {
                    &&& !old(self).spec_has(id)
                    &&& *final(self) == *old(self)
                },
            },
    {
        match self.find(id) {
            Some(i) => {
                proof {
                    old(self).lemma_client_at(id, i as int);
                }
                Some(&mut self.clients[i])
            },
            None => None,
        }
    }

    /// Mutable state of the connected client `id`.
    pub fn client_mut(&mut self, id: ClientId) -> (r: &mut ReplicatedClient)
        requires
            old(self).wf(),
            old(self).spec_has(id),
        ensures
            *r == old(self).spec_client(id),
            final(self).spec_clients() == old(self).spec_clients().update(
                old(self).spec_index_of(id),
                *final(r),
            ),
            final(self).spec_policy() == old(self).spec_policy(),
            final(self).spec_replicate_after_connect()
                == old(self).spec_replicate_after_connect(),
    {
        let i = match self.find(id) {
            Some(i) => i,
            None => {
                proof {
                    assert(false);
                }
                0
            },
        };
        proof {
            old(self).lemma_client_at(id, i as int);
        }
        &mut self.clients[i]
    }

    /// The identities of all replicating clients, in order.
    pub fn iter_client_ids(&self) -> (r: Vec<ClientId>)
        ensures
            r@.len() == self.spec_clients().len(),
            forall|i: int| 0 <= i < r@.len()
                ==> r@[i] == (#[trigger] self.spec_clients()[i]).spec_id(),
    {
        let mut out: Vec<ClientId> = Vec::new();
        let mut i: usize = 0;
        while i < self.clients.len()
            invariant
                i <= self.clients@.len(),
                out@.len() == i,
                forall|j: int| 0 <= j < i
                    ==> out@[j] == (#[trigger] self.clients@[j]).spec_id(),
            decreases self.clients@.len() - i,
        {
            out.push(self.clients[i].id());
            i = i + 1;
        }
        out
    }

    /// All replicating clients, in order.
    pub fn iter(&self) -> (r: &Vec<ReplicatedClient>)
        ensures
            r@ == self.spec_clients(),
    {
        &self.clients
    }

    /// The client in slot `i` of the pass.
    pub fn client_at(&self, i: usize) -> (r: &ReplicatedClient)
        requires
            i < self.spec_clients().len(),
        ensures
            *r == self.spec_clients()[i as int],
    {
        &self.clients[i]
    }

    /// Mutable access to the client in slot `i` of the pass.
    pub fn client_at_mut(&mut self, i: usize) -> (r: &mut ReplicatedClient)
        requires
            i < old(self).spec_clients().len(),
        ensures
            *r == old(self).spec_clients()[i as int],
            final(self).spec_clients()
                == old(self).spec_clients().update(i as int, *final(r)),
            final(self).spec_policy() == old(self).spec_policy(),
            final(self).spec_replicate_after_connect()
                == old(self).spec_replicate_after_connect(),
    {
        &mut self.clients[i]
    }

    /// Starts replication for `id`, reusing a pooled state object when one
    /// is available. The client starts fresh: no floor tick, visibility
    /// entry or in-flight record of any previous occupant survives. A
    /// second start for the same identity is ignored.
    pub fn add(&mut self, client_buffers: &mut ClientBuffers, id: ClientId)
        requires
            old(self).wf(),
        ensures
            final(self).wf(),
            final(self).spec_policy() == old(self).spec_policy(),
            final(self).spec_replicate_after_connect()
                == old(self).spec_replicate_after_connect(),
            old(self).spec_has(id) ==> *final(self) == *old(self),
            !old(self).spec_has(id) ==> {
                &&& final(self).spec_has(id)
                &&& final(self).spec_client(id).is_fresh()
                &&& final(self).spec_client(id).spec_id() == id
                &&& final(self).spec_client(id).spec_visibility().spec_policy()
                    == old(self).spec_policy()
                &&& final(self).spec_clients().drop_last() == old(self).spec_clients()
                &&& forall|x: ClientId| x != id
                    ==> final(self).spec_has(x) == old(self).spec_has(x)
            },
    {
        if self.find(id).is_some() {
            return;
        }
        let client = match client_buffers.clients.pop() {
            Some(mut client) => {
                client.reset(id, self.policy);
                client
            },
            None => ReplicatedClient::new(id, self.policy),
        };
        let ghost pre = self.clients@;
        self.clients.push(client);
        proof {
            let n = pre.len() as int;
            assert(pre == old(self).spec_clients());
            assert(self.spec_clients() == self.clients@);
            assert(self.clients@[n].spec_id() == id);
            assert(self.clients@.drop_last() =~= pre);
            assert forall|i: int, j: int| 0 <= i < j < self.clients@.len() implies
                (#[trigger] self.clients@[i]).spec_id()
                    != (#[trigger] self.clients@[j]).spec_id() by {
                if j < n {
                    assert(self.clients@[i] == pre[i] && self.clients@[j] == pre[j]);
                    assert(old(self).spec_clients()[i].spec_id()
                        != old(self).spec_clients()[j].spec_id());
                } else {
                    assert(self.clients@[i] == pre[i]);
                    if pre[i].spec_id() == id {
                        assert((old(self).spec_clients()[i]).spec_id() == id);
                        assert(old(self).spec_has(id));
                        assert(false);
                    }
                }
            }
            assert forall|i: int| 0 <= i < self.clients@.len() implies
                (#[trigger] self.clients@[i]).wf() by {
                if i < n {
                    assert(self.clients@[i] == pre[i]);
                    assert(old(self).spec_clients()[i].wf());
                }
            }
            self.lemma_client_at(id, n);
            assert forall|x: ClientId| x != id implies
                self.spec_has(x) == old(self).spec_has(x) by {
                if self.spec_has(x) {
                    let i = choose|i: int|
                        0 <= i < self.spec_clients().len()
                            && (#[trigger] self.spec_clients()[i]).spec_id() == x;
                    assert(i < n);
                    assert((old(self).spec_clients()[i]).spec_id() == x);
                    assert(old(self).spec_has(x));
                }
                if old(self).spec_has(x) {
                    let i = choose|i: int|
                        0 <= i < old(self).spec_clients().len()
                            && (#[trigger] old(self).spec_clients()[i]).spec_id() == x;
                    assert((self.spec_clients()[i]).spec_id() == x);
                    assert(self.spec_has(x));
                }
            }
        }
    }

    /// Stops replication for `id`, returning its entity lists and state
    /// object to the pool for reuse. Removing a client that never started
    /// replication is a no-op.
    pub fn remove(&mut self, client_buffers: &mut ClientBuffers, id: ClientId)
        requires
            old(self).wf(),
        ensures
            final(self).wf(),
            final(self).spec_policy() == old(self).spec_policy(),
            final(self).spec_replicate_after_connect()
                == old(self).spec_replicate_after_connect(),
            !final(self).spec_has(id),
            forall|x: ClientId| x != id
                ==> final(self).spec_has(x) == old(self).spec_has(x),
            !old(self).spec_has(id) ==> *final(self) == *old(self),
            old(self).spec_has(id) ==> {
                &&& final(self).spec_clients()
                    == old(self).spec_clients().remove(old(self).spec_index_of(id))
                &&& final(client_buffers).clients@.len()
                    == old(client_buffers).clients@.len() + 1
                // The departing client's entity lists return to the pool.
                &&& final(client_buffers).entities@.len()
                    == old(client_buffers).entities@.len()
                        + old(self).spec_client(id).updates_view().len()
            },
    {
        let i = match self.find(id) {
            Some(i) => i,
            None => {
                return;
            },
        };
        proof {
            old(self).lemma_client_at(id, i as int);
        }
        let ghost pre = self.clients@;
        let mut client = self.clients.remove(i);
        client.drain_entities(client_buffers);
        client_buffers.clients.push(client);
        proof {
            assert(self.clients@ =~= pre.remove(i as int));
            assert(forall|j: int| 0 <= j < i ==> self.clients@[j] == pre[j]);
            assert(forall|j: int| i <= j < self.clients@.len()
                ==> self.clients@[j] == pre[j + 1]);
            assert forall|a: int, b: int| 0 <= a < b < self.clients@.len() implies
                (#[trigger] self.clients@[a]).spec_id()
                    != (#[trigger] self.clients@[b]).spec_id() by {
                let pa: int = if a < i { a } else { a + 1 };
                let pb: int = if b < i { b } else { b + 1 };
                assert(self.clients@[a] == pre[pa] && self.clients@[b] == pre[pb]);
                assert(pre[pa].spec_id() != pre[pb].spec_id());
            }
            assert(pre == old(self).spec_clients());
            assert(self.spec_clients() == self.clients@);
            assert(!self.spec_has(id)) by {
                if self.spec_has(id) {
                    let j = choose|j: int|
                        0 <= j < self.spec_clients().len()
                            && (#[trigger] self.spec_clients()[j]).spec_id() == id;
                    let pj: int = if j < i { j } else { j + 1 };
                    assert(old(self).spec_clients()[pj].spec_id() == id);
                    assert(pj != i);
                    if pj < i {
                        assert(old(self).spec_clients()[pj].spec_id()
                            != old(self).spec_clients()[i as int].spec_id());
                    } else {
                        assert(old(self).spec_clients()[i as int].spec_id()
                            != old(self).spec_clients()[pj].spec_id());
                    }
                }
            }
            assert forall|x: ClientId| x != id implies
                self.spec_has(x) == old(self).spec_has(x) by {
                if self.spec_has(x) {
                    let j = choose|j: int|
                        0 <= j < self.spec_clients().len()
                            && (#[trigger] self.spec_clients()[j]).spec_id() == x;
                    let pj: int = if j < i { j } else { j + 1 };
                    assert((old(self).spec_clients()[pj]).spec_id() == x);
                    assert(old(self).spec_has(x));
                }
                if old(self).spec_has(x) {
                    let j = choose|j: int|
                        0 <= j < old(self).spec_clients().len()
                            && (#[trigger] old(self).spec_clients()[j]).spec_id() == x;
                    assert(j != i);
                    if j < i {
                        assert((self.spec_clients()[j]).spec_id() == x);
                        assert(self.spec_has(x));
                    } else {
                        assert((self.spec_clients()[j - 1]).spec_id() == x);
                        assert(self.spec_has(x));
                    }
                }
            }
        }
    }

    /// Stops replication for every client, pooling all their state.
    pub fn clear(&mut self, client_buffers: &mut ClientBuffers)
        requires
            old(self).wf(),
        ensures
            final(self).wf(),
            final(self).spec_clients().len() == 0,
            final(self).spec_policy() == old(self).spec_policy(),
            final(self).spec_replicate_after_connect()
                == old(self).spec_replicate_after_connect(),
    {
        while self.clients.len() > 0
            invariant
                self.policy == old(self).policy,
                self.replicate_after_connect == old(self).replicate_after_connect,
            decreases self.clients@.len(),
        {
            let mut client = self.clients.pop().unwrap();
            client.drain_entities(client_buffers);
            client_buffers.clients.push(client);
        }
    }
}

/// Rewriting one slot with a well-formed client of the same identity keeps
/// the whole collection well formed.
pub proof fn lemma_clients_update_wf(
    pre: ReplicatedClients,
    post: ReplicatedClients,
    i: int,
    c: ReplicatedClient,
)
    requires
        pre.wf(),
        0 <= i < pre.spec_clients().len(),
        post.spec_clients() == pre.spec_clients().update(i, c),
        c.wf(),
        c.spec_id() == pre.spec_clients()[i].spec_id(),
    ensures
        post.wf(),
{
    assert forall|a: int, b: int| 0 <= a < b < post.spec_clients().len() implies
        (#[trigger] post.spec_clients()[a]).spec_id()
            != (#[trigger] post.spec_clients()[b]).spec_id() by {
        assert(pre.spec_clients()[a].spec_id() != pre.spec_clients()[b].spec_id());
        assert(post.spec_clients()[a].spec_id() == pre.spec_clients()[a].spec_id());
        assert(post.spec_clients()[b].spec_id() == pre.spec_clients()[b].spec_id());
    }
    assert forall|a: int| 0 <= a < post.spec_clients().len() implies
        (#[trigger] post.spec_clients()[a]).wf() by {
        if a != i {
            assert(post.spec_clients()[a] == pre.spec_clients()[a]);
            assert(pre.spec_clients()[a].wf());
        }
    }
}

/// Pooled memory shared by all clients: state objects of disconnected
/// clients and entity lists of acknowledged or evicted records.
pub struct ClientBuffers {
    /// State objects of previously disconnected clients, kept to reuse
    /// their allocations.
    pub clients: Vec<ReplicatedClient>,
    /// Entity lists returned by acknowledged or evicted in-flight records.
    pub entities: Vec<Vec<Entity>>,
}

impl ClientBuffers {
    pub fn new() -> (r: Self)
        ensures
            r.clients@.len() == 0,
            r.entities@.len() == 0,
    {
        ClientBuffers { clients: Vec::new(), entities: Vec::new() }
    }

    /// Takes one pooled entity list, or a new one, always empty.
    pub fn take_entities(&mut self) -> (r: Vec<Entity>)
        ensures
            r@.len() == 0,
            final(self).clients@ == old(self).clients@,
    {
        match self.entities.pop() {
            Some(mut v) => {
                v.clear();
                v
            },
            None => Vec::new(),
        }
    }
}

} // verus!
