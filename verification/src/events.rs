//! Network events: ordered channels beside replication.
//!
//! Events replace remote procedure calls: clients send them to the server
//! and the server sends them to chosen clients, each event type on its own
//! channel with a configurable delivery class. On a listen server the
//! server is its own client: such events never touch the wire and are
//! re-emitted locally instead.

use vstd::prelude::*;
use crate::codec::{parse_tick, read_tick, tick_bytes, write_tick};
use crate::event_queue::ServerEventQueue;
use crate::replicated_clients::{ClientId, SERVER_ID};
use crate::tick::RepliconTick;

verus! {

/// Delivery guarantee of one event channel.
#[derive(Clone, Copy, Debug, PartialEq, Eq, Structural)]
pub enum SendPolicy {
    /// May be lost and may arrive out of order.
    Unreliable,
    /// Always arrives, in any order.
    Unordered,
    /// Always arrives, in sending order.
    Ordered,
}

/// Who a server event is for.
#[derive(Clone, Copy, Debug, PartialEq, Eq, Structural)]
pub enum SendMode {
    Broadcast,
    BroadcastExcept(ClientId),
    Direct(ClientId),
}

/// Whether a server event under `mode` goes over the wire to the client
/// `id`. The server's own identity never receives over the wire; it is
/// re-emitted locally instead.
pub open spec fn spec_is_recipient(mode: SendMode, id: ClientId) -> bool {
    &&& id.spec_value() != SERVER_ID
    &&& match mode {
        SendMode::Broadcast => true,
        SendMode::BroadcastExcept(x) => id != x,
        SendMode::Direct(x) => id == x,
    }
}

/// Whether a server event under `mode` is re-emitted locally on a listen
/// server, as if the server received it as its own client.
pub open spec fn spec_is_local_recipient(mode: SendMode) -> bool {
    match mode {
        SendMode::Broadcast => true,
        SendMode::BroadcastExcept(x) => x.spec_value() != SERVER_ID,
        SendMode::Direct(x) => x.spec_value() == SERVER_ID,
    }
}

/// Decides whether the client `id` receives an event sent under `mode`.
pub fn is_recipient(mode: SendMode, id: ClientId) -> (r: bool)
    ensures
        r == spec_is_recipient(mode, id),
{
    if id.get() == SERVER_ID {
        return false;
    }
    match mode {
        SendMode::Broadcast => true,
        SendMode::BroadcastExcept(x) => id != x,
        SendMode::Direct(x) => id == x,
    }
}

/// One wire message of a server event for one client: the init tick the
/// server last confirmed to that client, then the event payload.
pub open spec fn event_message_bytes(init_tick: RepliconTick, event: Seq<u8>) -> Seq<u8> {
    tick_bytes(init_tick) + event
}

/// The messages a server event produces, in client order: one per
/// recipient, each prefixed with that client's init tick.
pub open spec fn spec_event_messages(
    clients: Seq<(ClientId, RepliconTick)>,
    mode: SendMode,
    event: Seq<u8>,
) -> Seq<(ClientId, Seq<u8>)>
    decreases clients.len(),
{
    if clients.len() == 0 {
        Seq::empty()
    } else {
        let head = if spec_is_recipient(mode, clients[0].0) {
            seq![(clients[0].0, event_message_bytes(clients[0].1, event))]
        } else {
            Seq::<(ClientId, Seq<u8>)>::empty()
        };
        head + spec_event_messages(clients.drop_first(), mode, event)
    }
}

proof fn lemma_event_messages_snoc(
    clients: Seq<(ClientId, RepliconTick)>,
    c: (ClientId, RepliconTick),
    mode: SendMode,
    event: Seq<u8>,
)
    ensures
        spec_event_messages(clients.push(c), mode, event) == spec_event_messages(
            clients, mode, event) + (if spec_is_recipient(mode, c.0) {
            seq![(c.0, event_message_bytes(c.1, event))]
        } else {
            Seq::<(ClientId, Seq<u8>)>::empty()
        }),
    decreases clients.len(),
{
    let tail = if spec_is_recipient(mode, c.0) {
        seq![(c.0, event_message_bytes(c.1, event))]
    } else {
        Seq::<(ClientId, Seq<u8>)>::empty()
    };
    if clients.len() == 0 {
        let p = clients.push(c);
        assert(p[0] == c);
        assert(p.drop_first() =~= Seq::<(ClientId, RepliconTick)>::empty());
        assert(spec_event_messages(p.drop_first(), mode, event)
            =~= Seq::<(ClientId, Seq<u8>)>::empty());
        assert(spec_event_messages(p, mode, event) =~= tail);
        assert(spec_event_messages(clients, mode, event) + tail =~= tail);
    } else {
        assert(clients.push(c).drop_first() =~= clients.drop_first().push(c));
        assert(clients.push(c)[0] == clients[0]);
        lemma_event_messages_snoc(clients.drop_first(), c, mode, event);
        assert(spec_event_messages(clients.push(c), mode, event)
            =~= spec_event_messages(clients, mode, event) + tail);
    }
}

/// Builds the wire messages of one server event: one message per
/// recipient client, each opened by that client's init tick. Consecutive
/// clients on the same tick reuse the previously built message bytes
/// rather than serializing again; the bytes sent are the same either way.
pub fn send_server_event(
    clients: &Vec<(ClientId, RepliconTick)>,
    mode: SendMode,
    event: &Vec<u8>,
) -> (r: Vec<(ClientId, Vec<u8>)>)
    ensures
        r@.map_values(|p: (ClientId, Vec<u8>)| (p.0, p.1@))
            == spec_event_messages(
            clients@.map_values(|p: (ClientId, RepliconTick)| p),
            mode,
            event@,
        ),
{
    let mut out: Vec<(ClientId, Vec<u8>)> = Vec::new();
    let mut previous: Option<(RepliconTick, Vec<u8>)> = None;
    let ghost f = |p: (ClientId, Vec<u8>)| (p.0, p.1@);
    let mut i: usize = 0;
    while i < clients.len()
        invariant
            i <= clients@.len(),
            out@.map_values(|p: (ClientId, Vec<u8>)| (p.0, p.1@))
                == spec_event_messages(clients@.subrange(0, i as int), mode, event@),
            match previous {
                Some(p) => p.1@ == event_message_bytes(p.0, event@),
                None => true,
            },
        decreases clients@.len() - i,
    {
        let (id, init_tick) = clients[i];
        proof {
            lemma_event_messages_snoc(
                clients@.subrange(0, i as int), clients@[i as int], mode, event@);
            assert(clients@.subrange(0, i as int).push(clients@[i as int])
                =~= clients@.subrange(0, i + 1));
        }
        if is_recipient(mode, id) {
            let message: Vec<u8> = match &previous {
                Some(p) => {
                    if p.0 == init_tick {
                        crate::client::clone_payload(&p.1)
                    } else {
                        build_event_message(init_tick, event)
                    }
                },
                None => build_event_message(init_tick, event),
            };
            let ghost pre = out@;
            let reuse = crate::client::clone_payload(&message);
            previous = Some((init_tick, reuse));
            out.push((id, message));
            proof {
                assert(out@.map_values(|p: (ClientId, Vec<u8>)| (p.0, p.1@))
                    =~= pre.map_values(|p: (ClientId, Vec<u8>)| (p.0, p.1@)).push(
                    (id, event_message_bytes(init_tick, event@))));
            }
        }
        i = i + 1;
    }
    proof {
        assert(clients@.subrange(0, clients@.len() as int) =~= clients@);
        assert(clients@.map_values(|p: (ClientId, RepliconTick)| p) =~= clients@);
    }
    out
}

/// Serializes one event message: the client's init tick, then the payload.
fn build_event_message(init_tick: RepliconTick, event: &Vec<u8>) -> (r: Vec<u8>)
    ensures
        r@ == event_message_bytes(init_tick, event@),
{
    let mut out: Vec<u8> = Vec::new();
    write_tick(&mut out, init_tick);
    let mut i: usize = 0;
    let ghost head = tick_bytes(init_tick);
    while i < event.len()
        invariant
            i <= event@.len(),
            out@ == head + event@.subrange(0, i as int),
        decreases event@.len() - i,
    {
        out.push(event[i]);
        i = i + 1;
        proof {
            assert(out@ =~= head + event@.subrange(0, i as int));
        }
    }
    proof {
        assert(out@ =~= event_message_bytes(init_tick, event@));
    }
    out
}

/// What the client does with one received server event message.
pub enum ReceivedServerEvent {
    /// The event is ready: its tick is not ahead of the init tick.
    Deliver(Vec<u8>),
    /// The event ran ahead of replication and went into the queue.
    Queued,
    /// The bytes held no valid message; it is dropped, never fatal.
    Malformed,
}

/// Receives one server event message on the client: the event is delivered
/// when its tick is not ahead of the client's init tick, queued in arrival
/// order when it is, and dropped when malformed.
pub fn receive_server_event(
    queue: &mut ServerEventQueue,
    init_tick: RepliconTick,
    message: &Vec<u8>,
) -> (r: ReceivedServerEvent)
    ensures
        match parse_tick(message@, 0) {
            None => {
                &&& r is Malformed
                &&& *final(queue) == *old(queue)
            },
            Some(p) => {
                let tick = RepliconTick::new_spec(p.0);
                let payload = message@.subrange(p.1, message@.len() as int);
                if RepliconTick::spec_gt(tick, init_tick) {
                    &&& r is Queued
                    &&& final(queue).entries()
                        == old(queue).entries().push((p.0, payload))
                } else {
                    &&& match r {
                        ReceivedServerEvent::Deliver(v) => v@ == payload,
                        _ => false,
                    }
                    &&& *final(queue) == *old(queue)
                }
            },
        },
{
    let (tick_value, pos) = match read_tick(message.as_slice(), 0) {
        Some(p) => p,
        None => {
            return ReceivedServerEvent::Malformed;
        },
    };
    let tick = RepliconTick::new(tick_value);
    let mut payload: Vec<u8> = Vec::new();
    let mut i: usize = pos;
    while i < message.len()
        invariant
            pos <= i <= message@.len(),
            payload@ == message@.subrange(pos as int, i as int),
        decreases message@.len() - i,
    {
        payload.push(message[i]);
        i = i + 1;
        proof {
            assert(payload@ =~= message@.subrange(pos as int, i as int));
        }
    }
    let ahead = {
        let d = tick.diff(init_tick);
        d != 0 && d <= u32::MAX / 2
    };
    if ahead {
        queue.insert(tick, payload);
        ReceivedServerEvent::Queued
    } else {
        ReceivedServerEvent::Deliver(payload)
    }
}

/// An event received from a client, as the server's gameplay code sees it.
pub struct FromClient {
    pub client_id: ClientId,
    pub event: Vec<u8>,
}

/// Re-emits locally sent client events as if the server received them from
/// itself, so a listen server needs no wire round trip: every drained
/// event comes back under the server's own client identity, in order.
pub fn resend_locally(events: Vec<Vec<u8>>) -> (r: Vec<FromClient>)
    ensures
        r@.len() == events@.len(),
        forall|i: int| 0 <= i < r@.len() ==> {
            &&& (#[trigger] r@[i]).client_id.spec_value() == SERVER_ID
            &&& r@[i].event@ == events@[i]@
        },
{
    let mut out: Vec<FromClient> = Vec::new();
    let mut remaining = events;
    let mut i: usize = 0;
    while i < remaining.len()
        invariant
            i <= remaining@.len(),
            out@.len() == i,
            forall|j: int| 0 <= j < i ==> {
                &&& (#[trigger] out@[j]).client_id.spec_value() == SERVER_ID
                &&& out@[j].event@ == remaining@[j]@
            },
        decreases remaining@.len() - i,
    {
        let event = crate::client::clone_payload(&remaining[i]);
        out.push(FromClient { client_id: ClientId::server(), event });
        i = i + 1;
    }
    out
}

/// Which locally sent server events the listen server itself receives:
/// those whose mode includes the server's own client identity.
pub fn resend_server_events_locally(events: Vec<(SendMode, Vec<u8>)>) -> (r: Vec<Vec<u8>>)
    ensures
        r@.map_values(|v: Vec<u8>| v@) == spec_local_events(
            events@.map_values(|p: (SendMode, Vec<u8>)| (p.0, p.1@)),
        ),
{
    let ghost evview = events@.map_values(|p: (SendMode, Vec<u8>)| (p.0, p.1@));
    let mut out: Vec<Vec<u8>> = Vec::new();
    let mut i: usize = 0;
    while i < events.len()
        invariant
            i <= events@.len(),
            evview == events@.map_values(|p: (SendMode, Vec<u8>)| (p.0, p.1@)),
            evview.len() == events@.len(),
            forall|j: int| 0 <= j < evview.len()
                ==> #[trigger] evview[j] == (events@[j].0, events@[j].1@),
            out@.map_values(|v: Vec<u8>| v@)
                == spec_local_events(evview.subrange(0, i as int)),
        decreases events@.len() - i,
    {
        proof {
            lemma_local_events_snoc(evview.subrange(0, i as int), evview[i as int]);
            assert(evview.subrange(0, i as int).push(evview[i as int])
                =~= evview.subrange(0, i + 1));
        }
        let local = match events[i].0 {
            SendMode::Broadcast => true,
            SendMode::BroadcastExcept(x) => x.get() != SERVER_ID,
            SendMode::Direct(x) => x.get() == SERVER_ID,
        };
        if local {
            let ghost pre = out@;
            out.push(crate::client::clone_payload(&events[i].1));
            proof {
                assert(out@.map_values(|v: Vec<u8>| v@)
                    =~= pre.map_values(|v: Vec<u8>| v@).push(evview[i as int].1));
            }
        }
        i = i + 1;
    }
    proof {
        assert(evview.subrange(0, evview.len() as int) =~= evview);
    }
    out
}

/// The events of a drained list that the listen server re-emits to itself.
pub open spec fn spec_local_events(events: Seq<(SendMode, Seq<u8>)>) -> Seq<Seq<u8>>
    decreases events.len(),
{
    if events.len() == 0 {
        Seq::empty()
    } else {
        let head = if spec_is_local_recipient(events[0].0) {
            seq![events[0].1]
        } else {
            Seq::<Seq<u8>>::empty()
        };
        head + spec_local_events(events.drop_first())
    }
}

proof fn lemma_local_events_snoc(events: Seq<(SendMode, Seq<u8>)>, e: (SendMode, Seq<u8>))
    ensures
        spec_local_events(events.push(e)) == spec_local_events(events)
            + (if spec_is_local_recipient(e.0) {
            seq![e.1]
        } else {
            Seq::<Seq<u8>>::empty()
        }),
    decreases events.len(),
{
    let tail = if spec_is_local_recipient(e.0) {
        seq![e.1]
    } else {
        Seq::<Seq<u8>>::empty()
    };
    if events.len() == 0 {
        let p = events.push(e);
        assert(p[0] == e);
        assert(p.drop_first() =~= Seq::<(SendMode, Seq<u8>)>::empty());
        assert(spec_local_events(p.drop_first()) =~= Seq::<Seq<u8>>::empty());
        assert(spec_local_events(p) =~= tail);
        assert(spec_local_events(events) + tail =~= tail);
    } else {
        assert(events.push(e).drop_first() =~= events.drop_first().push(e));
        assert(events.push(e)[0] == events[0]);
        lemma_local_events_snoc(events.drop_first(), e);
        assert(spec_local_events(events.push(e))
            =~= spec_local_events(events) + tail);
    }
}

/// One registered server event type: its channel and whether its dispatch
/// may run independently of replication, skipping the tick queue.
#[derive(Clone, Copy, Debug, PartialEq, Eq, Structural)]
pub struct ServerEventReg {
    pub channel_id: u8,
    pub independent: bool,
}

/// One registered client event type: its channel.
#[derive(Clone, Copy, Debug, PartialEq, Eq, Structural)]
pub struct ClientEventReg {
    pub channel_id: u8,
}

/// Holds a channel identifier for one registered event type.
#[derive(Clone, Copy, Debug, PartialEq, Eq, Structural)]
pub struct EventChannel {
    pub id: u8,
}

/// All registered server and client events, in registration order, which
/// both sides must share.
pub struct EventRegistry {
    server: Vec<ServerEventReg>,
    client: Vec<ClientEventReg>,
}

impl EventRegistry {
    pub closed spec fn server_events(self) -> Seq<ServerEventReg> {
        self.server@
    }

    pub closed spec fn client_events(self) -> Seq<ClientEventReg> {
        self.client@
    }

    pub fn new() -> (r: Self)
        ensures
            r.server_events().len() == 0,
            r.client_events().len() == 0,
    {
        EventRegistry { server: Vec::new(), client: Vec::new() }
    }

    pub fn register_server_event(&mut self, event_data: ServerEventReg)
        ensures
            final(self).server_events() == old(self).server_events().push(event_data),
            final(self).client_events() == old(self).client_events(),
    {
        self.server.push(event_data);
    }

    pub fn register_client_event(&mut self, event_data: ClientEventReg)
        ensures
            final(self).client_events() == old(self).client_events().push(event_data),
            final(self).server_events() == old(self).server_events(),
    {
        self.client.push(event_data);
    }

    /// Marks the server event on `channel_id` as independent of
    /// replication: the client dispatches it at once instead of holding it
    /// for the init tick.
    pub fn make_independent(&mut self, channel_id: u8)
        requires
            exists|i: int| 0 <= i < old(self).server_events().len()
                && (#[trigger] old(self).server_events()[i]).channel_id == channel_id,
        ensures
            final(self).client_events() == old(self).client_events(),
            final(self).server_events().len() == old(self).server_events().len(),
            exists|i: int| {
                &&& 0 <= i < old(self).server_events().len()
                &&& (#[trigger] old(self).server_events()[i]).channel_id == channel_id
                &&& final(self).server_events() == old(self).server_events().update(
                    i,
                    ServerEventReg { channel_id, independent: true },
                )
            },
    {
        let mut i: usize = 0;
        while i < self.server.len()
            invariant
                i <= self.server@.len(),
                self.server@ == old(self).server_events(),
                self.client@ == old(self).client_events(),
                forall|j: int| 0 <= j < i
                    ==> (#[trigger] self.server@[j]).channel_id != channel_id,
                exists|j: int| 0 <= j < self.server@.len()
                    && (#[trigger] self.server@[j]).channel_id == channel_id,
            decreases self.server@.len() - i,
        {
            if self.server[i].channel_id == channel_id {
                self.server[i] = ServerEventReg { channel_id, independent: true };
                proof {
                    assert(self.server@ == old(self).server_events().update(
                        i as int,
                        ServerEventReg { channel_id, independent: true },
                    ));
                }
                return;
            }
            i = i + 1;
        }
        proof {
            let j = choose|j: int| 0 <= j < self.server@.len()
                && (#[trigger] self.server@[j]).channel_id == channel_id;
            assert(self.server@[j].channel_id != channel_id);
        }
    }

    /// All registered server events, in registration order.
    pub fn iter_server_events(&self) -> (r: &Vec<ServerEventReg>)
        ensures
            r@ == self.server_events(),
    {
        &self.server
    }

    /// All registered client events, in registration order.
    pub fn iter_client_events(&self) -> (r: &Vec<ClientEventReg>)
        ensures
            r@ == self.client_events(),
    {
        &self.client
    }
}

} // verus!
