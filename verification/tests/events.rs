//! Event relay tests: queuing, dispatch gating, local resending.

use replicon::codec::read_tick;
use replicon::event_queue::ServerEventQueue;
use replicon::events::{
    receive_server_event, resend_locally, resend_server_events_locally, send_server_event,
    ClientEventReg, EventRegistry, ReceivedServerEvent, SendMode, ServerEventReg,
};
use replicon::replicated_clients::{ClientId, SERVER_ID};
use replicon::tick::RepliconTick;

#[test]
fn local_resending() {
    let sent = vec![vec![1u8, 2, 3]];
    let received = resend_locally(sent);
    assert_eq!(received.len(), 1);
    assert_eq!(received[0].client_id.get(), SERVER_ID);
    assert_eq!(received[0].event, vec![1, 2, 3]);
}

#[test]
fn server_event_recipients() {
    let clients = vec![
        (ClientId::new(1), RepliconTick::new(4)),
        (ClientId::new(2), RepliconTick::new(4)),
        (ClientId::new(3), RepliconTick::new(9)),
    ];
    let event = vec![0xEE];

    let broadcast = send_server_event(&clients, SendMode::Broadcast, &event);
    assert_eq!(broadcast.len(), 3);
    for (_, message) in &broadcast {
        let (tick, pos) = read_tick(message, 0).unwrap();
        assert!(tick == 4 || tick == 9);
        assert_eq!(&message[pos..], &[0xEE]);
    }

    let except = send_server_event(&clients, SendMode::BroadcastExcept(ClientId::new(2)), &event);
    assert_eq!(except.len(), 2);
    assert_eq!(except[0].0, ClientId::new(1));
    assert_eq!(except[1].0, ClientId::new(3));

    let direct = send_server_event(&clients, SendMode::Direct(ClientId::new(3)), &event);
    assert_eq!(direct.len(), 1);
    assert_eq!(direct[0].0, ClientId::new(3));
    let (tick, pos) = read_tick(&direct[0].1, 0).unwrap();
    assert_eq!(tick, 9);
    assert_eq!(&direct[0].1[pos..], &[0xEE]);
}

#[test]
fn server_never_receives_over_the_wire() {
    let clients = vec![
        (ClientId::server(), RepliconTick::new(1)),
        (ClientId::new(7), RepliconTick::new(1)),
    ];
    let event = vec![1u8];
    let messages = send_server_event(&clients, SendMode::Broadcast, &event);
    assert_eq!(messages.len(), 1);
    assert_eq!(messages[0].0, ClientId::new(7));
}

#[test]
fn local_server_event_modes() {
    let events = vec![
        (SendMode::Broadcast, vec![1u8]),
        (SendMode::BroadcastExcept(ClientId::server()), vec![2u8]),
        (SendMode::BroadcastExcept(ClientId::new(5)), vec![3u8]),
        (SendMode::Direct(ClientId::server()), vec![4u8]),
        (SendMode::Direct(ClientId::new(5)), vec![5u8]),
    ];
    let local = resend_server_events_locally(events);
    assert_eq!(local, vec![vec![1u8], vec![3u8], vec![4u8]]);
}

#[test]
fn early_event_waits_for_init_tick() {
    let mut queue = ServerEventQueue::new();
    let init_tick = RepliconTick::new(5);

    // An event from tick 7 runs ahead of the client and waits.
    let mut early = Vec::new();
    replicon::codec::write_tick(&mut early, RepliconTick::new(7));
    early.push(0xAA);
    match receive_server_event(&mut queue, init_tick, &early) {
        ReceivedServerEvent::Queued => {}
        _ => panic!("an event ahead of the init tick must be queued"),
    }
    assert_eq!(queue.len(), 1);

    // An event from tick 5 is ready at once.
    let mut ready = Vec::new();
    replicon::codec::write_tick(&mut ready, RepliconTick::new(5));
    ready.push(0xBB);
    match receive_server_event(&mut queue, init_tick, &ready) {
        ReceivedServerEvent::Deliver(payload) => assert_eq!(payload, vec![0xBB]),
        _ => panic!("an event at the init tick is delivered at once"),
    }

    // The queued event stays until the init tick reaches it.
    assert!(queue.pop_if_le(init_tick).is_none());
    let (tick, payload) = queue.pop_if_le(RepliconTick::new(7)).unwrap();
    assert_eq!(tick.get(), 7);
    assert_eq!(payload, vec![0xAA]);
    assert!(queue.is_empty());
}

#[test]
fn queued_events_drain_in_arrival_order() {
    let mut queue = ServerEventQueue::new();
    queue.insert(RepliconTick::new(3), vec![1]);
    queue.insert(RepliconTick::new(3), vec![2]);
    queue.insert(RepliconTick::new(4), vec![3]);
    assert_eq!(queue.len(), 3);

    let mut drained = Vec::new();
    while let Some((_, payload)) = queue.pop_if_le(RepliconTick::new(4)) {
        drained.push(payload);
    }
    assert_eq!(drained, vec![vec![1], vec![2], vec![3]]);
}

#[test]
fn disconnect_discards_queued_events() {
    let mut queue = ServerEventQueue::new();
    queue.insert(RepliconTick::new(9), vec![1]);
    queue.insert(RepliconTick::new(9), vec![2]);
    queue.clear();
    assert!(queue.is_empty());
    assert!(queue.pop_if_le(RepliconTick::new(100)).is_none());
}

#[test]
fn malformed_event_is_dropped() {
    let mut queue = ServerEventQueue::new();
    let garbage = vec![252u8, 1];
    match receive_server_event(&mut queue, RepliconTick::new(1), &garbage) {
        ReceivedServerEvent::Malformed => {}
        _ => panic!("truncated bytes hold no event"),
    }
    assert!(queue.is_empty());
}

#[test]
fn event_registration() {
    let mut registry = EventRegistry::new();
    registry.register_server_event(ServerEventReg { channel_id: 3, independent: false });
    registry.register_server_event(ServerEventReg { channel_id: 4, independent: false });
    registry.register_client_event(ClientEventReg { channel_id: 5 });

    registry.make_independent(4);
    let server_events = registry.iter_server_events();
    assert_eq!(server_events.len(), 2);
    assert!(!server_events[0].independent);
    assert!(server_events[1].independent);
    assert_eq!(registry.iter_client_events().len(), 1);
}
