//! The host store's replicated state, as the collection pass reads it.
//!
//! The pass consumes the host engine's storage only through this shape: for
//! every entity carrying the replication marker, each replicated
//! component's serialized payload with its two change-detection ticks; plus
//! the removal and despawn trackers' output since the previous pass.

use vstd::prelude::*;
use crate::change_tick::Tick;
use crate::entity::Entity;

verus! {

/// One replicated component of one entity, with the tick it was added at
/// and the tick it last changed at.
pub struct ComponentSnapshot {
    /// Identifier of the registered codec for this component type.
    pub fns_id: u64,
    /// The component value, serialized by its codec.
    pub payload: Vec<u8>,
    pub added: Tick,
    pub changed: Tick,
}

/// One entity of the replicated set with its replicated components.
pub struct EntitySnapshot {
    pub entity: Entity,
    pub components: Vec<ComponentSnapshot>,
}

/// One entity's component removals recorded by the removal tracker.
pub struct RemovalEntry {
    pub entity: Entity,
    pub fn_ids: Vec<u64>,
    pub tick: Tick,
}

/// One despawn of a once-replicated entity recorded by the despawn
/// tracker.
#[derive(Clone, Copy, Debug, PartialEq, Eq, Structural)]
pub struct DespawnEntry {
    pub entity: Entity,
    pub tick: Tick,
}

/// How one component relates to a client's acknowledged state.
#[derive(Clone, Copy, Debug, PartialEq, Eq, Structural)]
pub enum ComponentClass {
    /// Added since the client's floor: goes into the change message.
    Insert,
    /// Only its value changed since the floor: goes into the mutate
    /// message.
    Mutate,
    /// The client is caught up on it: not sent.
    Skip,
}

/// The class of a component for a client whose floor tick is `floor`:
/// an addition newer than the floor is an insertion, else a change newer
/// than the floor is a mutation, else nothing is owed. Without a floor the
/// whole entity is new and every component is an insertion.
pub open spec fn spec_classify(
    added: Tick,
    changed: Tick,
    floor: Option<Tick>,
    system_tick: Tick,
) -> ComponentClass {
    match floor {
        None => ComponentClass::Insert,
        Some(f) => {
            if added.spec_is_newer_than(f, system_tick) {
                ComponentClass::Insert
            } else if changed.spec_is_newer_than(f, system_tick) {
                ComponentClass::Mutate
            } else {
                ComponentClass::Skip
            }
        },
    }
}

/// Decides where one component goes for one client.
pub fn classify(added: Tick, changed: Tick, floor: Option<Tick>, system_tick: Tick) -> (r:
    ComponentClass)
    ensures
        r == spec_classify(added, changed, floor, system_tick),
{
    match floor {
        None => ComponentClass::Insert,
        Some(f) => {
            if added.is_newer_than(f, system_tick) {
                ComponentClass::Insert
            } else if changed.is_newer_than(f, system_tick) {
                ComponentClass::Mutate
            } else {
                ComponentClass::Skip
            }
        },
    }
}

/// The entity is new to the client: it has no floor tick or just became
/// visible, so the client needs its full snapshot.
pub open spec fn spec_new_entity(
    visibility_state: crate::visibility::Visibility,
    floor: Option<Tick>,
) -> bool {
    floor is None || visibility_state == crate::visibility::Visibility::Gained
}

/// Where one component of the entity goes: everything of a new entity is
/// an insertion, else its ticks decide.
pub open spec fn spec_class_of(
    c: ComponentSnapshot,
    new_entity: bool,
    floor: Option<Tick>,
    system_tick: Tick,
) -> ComponentClass {
    if new_entity {
        ComponentClass::Insert
    } else {
        spec_classify(c.added, c.changed, floor, system_tick)
    }
}

/// The (codec identifier, payload) views of the components that classify
/// as `class`, in snapshot order.
pub open spec fn chunks_of_class(
    cs: Seq<ComponentSnapshot>,
    class: ComponentClass,
    new_entity: bool,
    floor: Option<Tick>,
    system_tick: Tick,
) -> Seq<(u64, Seq<u8>)>
    decreases cs.len(),
{
    if cs.len() == 0 {
        Seq::empty()
    } else {
        let rest = chunks_of_class(cs.drop_first(), class, new_entity, floor, system_tick);
        if spec_class_of(cs[0], new_entity, floor, system_tick) == class {
            seq![(cs[0].fns_id, cs[0].payload@)] + rest
        } else {
            rest
        }
    }
}

pub proof fn lemma_chunks_of_class_snoc(
    cs: Seq<ComponentSnapshot>,
    c: ComponentSnapshot,
    class: ComponentClass,
    new_entity: bool,
    floor: Option<Tick>,
    system_tick: Tick,
)
    ensures
        chunks_of_class(cs.push(c), class, new_entity, floor, system_tick)
            == chunks_of_class(cs, class, new_entity, floor, system_tick)
            + (if spec_class_of(c, new_entity, floor, system_tick) == class {
            seq![(c.fns_id, c.payload@)]
        } else {
            Seq::<(u64, Seq<u8>)>::empty()
        }),
    decreases cs.len(),
{
    let tail = if spec_class_of(c, new_entity, floor, system_tick) == class {
        seq![(c.fns_id, c.payload@)]
    } else {
        Seq::<(u64, Seq<u8>)>::empty()
    };
    if cs.len() == 0 {
        let p = cs.push(c);
        assert(p[0] == c);
        assert(p.drop_first() =~= Seq::<ComponentSnapshot>::empty());
        assert(chunks_of_class(p.drop_first(), class, new_entity, floor, system_tick)
            =~= Seq::<(u64, Seq<u8>)>::empty());
        assert(chunks_of_class(p, class, new_entity, floor, system_tick) =~= tail);
        assert(chunks_of_class(cs, class, new_entity, floor, system_tick) + tail =~= tail);
    } else {
        assert(cs.push(c).drop_first() =~= cs.drop_first().push(c));
        assert(cs.push(c)[0] == cs[0]);
        lemma_chunks_of_class_snoc(cs.drop_first(), c, class, new_entity, floor, system_tick);
        assert(chunks_of_class(cs.push(c), class, new_entity, floor, system_tick)
            =~= chunks_of_class(cs, class, new_entity, floor, system_tick) + tail);
    }
}

} // verus!
