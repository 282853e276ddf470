use mesh_node::engine::{EngineEvent, RoutingHandler, SendError};
use mesh_node::packet::{NackCause, Packet, PacketKind};
use mesh_node::topology::{NodeKind, TopologyView};

type Queued = (u8, u8, Packet); // (to, from, packet)

fn drain(nodes: &mut Vec<(u8, RoutingHandler)>, queue: &mut Vec<Queued>) {
    for (id, eng) in nodes.iter_mut() {
        for (to, pkt) in eng.take_outbox() {
            queue.push((to, *id, pkt));
        }
    }
}

/// Shuttles packets between the engines until nothing is in flight,
/// emulating the relays' cursor-advance forwarding for message fragments
/// and acknowledgments. Returns (steps, relay forward events, whether every
/// trace seen was free of repeated nodes).
fn run(nodes: &mut Vec<(u8, RoutingHandler)>) -> (usize, usize, bool) {
    let mut queue: Vec<Queued> = Vec::new();
    drain(nodes, &mut queue);
    let mut steps = 0usize;
    let mut forwards = 0usize;
    let mut traces_simple = true;
    while !queue.is_empty() {
        steps += 1;
        assert!(steps < 10_000, "flood did not terminate");
        let (to, from, mut pkt) = queue.remove(0);
        // collect trace health
        if let PacketKind::FloodRequest { trace, .. } | PacketKind::FloodResponse { trace, .. } =
            &pkt.kind
        {
            for i in 0..trace.len() {
                for j in (i + 1)..trace.len() {
                    if trace[i].0 == trace[j].0 {
                        traces_simple = false;
                    }
                }
            }
        }
        let Some(pos) = nodes.iter().position(|(id, _)| *id == to) else {
            continue; // crashed or unknown node: the packet is lost
        };
        match pkt.kind {
            PacketKind::FloodRequest { flood_id, initiator, ref trace } => {
                let before_is_req = |p: &Packet| {
                    matches!(p.kind, PacketKind::FloodRequest { .. })
                };
                let eng = &mut nodes[pos].1;
                eng.handle_flood_request(flood_id, initiator, trace, from);
                let out = eng.take_outbox();
                if out.iter().any(|(_, p)| before_is_req(p)) {
                    forwards += 1;
                }
                for (t2, p2) in out {
                    queue.push((t2, to, p2));
                }
            }
            PacketKind::FloodResponse { flood_id, initiator, ref trace } => {
                nodes[pos].1.handle_flood_response(flood_id, initiator, trace);
                let out = nodes[pos].1.take_outbox();
                for (t2, p2) in out {
                    queue.push((t2, to, p2));
                }
            }
            PacketKind::MsgFragment(ref frag) => {
                let last = *pkt.header.hops.last().unwrap();
                if last == to {
                    nodes[pos].1.handle_fragment(&pkt.header, pkt.session, frag);
                } else {
                    // play the relay: advance the cursor and pass it on
                    let cur = pkt.header.cursor;
                    if cur + 1 < pkt.header.hops.len() {
                        let next = pkt.header.hops[cur + 1];
                        pkt.header.cursor = cur + 1;
                        queue.push((next, to, pkt));
                        continue;
                    }
                }
                let out = nodes[pos].1.take_outbox();
                for (t2, p2) in out {
                    queue.push((t2, to, p2));
                }
            }
            PacketKind::Ack { index } => {
                let last = *pkt.header.hops.last().unwrap();
                if last == to {
                    nodes[pos].1.handle_ack(pkt.session, index);
                } else {
                    let cur = pkt.header.cursor;
                    if cur + 1 < pkt.header.hops.len() {
                        let next = pkt.header.hops[cur + 1];
                        pkt.header.cursor = cur + 1;
                        queue.push((next, to, pkt));
                    }
                }
            }
            PacketKind::Nack { index, cause } => {
                nodes[pos].1.handle_nack(pkt.session, index, cause);
                let out = nodes[pos].1.take_outbox();
                for (t2, p2) in out {
                    queue.push((t2, to, p2));
                }
            }
        }
    }
    (steps, forwards, traces_simple)
}

fn eng<'a>(nodes: &'a mut Vec<(u8, RoutingHandler)>, id: u8) -> &'a mut RoutingHandler {
    let pos = nodes.iter().position(|(i, _)| *i == id).unwrap();
    &mut nodes[pos].1
}

fn line_topology() -> Vec<(u8, RoutingHandler)> {
    // A(1, client) -- B(2, relay) -- C(3, client)
    let mut a = RoutingHandler::new(1, NodeKind::Client);
    a.add_neighbor(2);
    let mut b = RoutingHandler::new(2, NodeKind::Relay);
    b.add_neighbor(1);
    b.add_neighbor(3);
    let mut c = RoutingHandler::new(3, NodeKind::Client);
    c.add_neighbor(2);
    vec![(1, a), (2, b), (3, c)]
}

#[test]
fn resolve_shortest_and_disconnected() {
    let mut t = TopologyView::new();
    for id in [1u8, 2, 3, 4, 5, 9] {
        t.insert_node(id, if id == 1 || id == 5 { NodeKind::Client } else { NodeKind::Relay });
    }
    // two routes 1->5: 1-2-3-4-5 and 1-6?; make a shortcut 1-2-5 reachable later
    t.add_edge(1, 2);
    t.add_edge(2, 3);
    t.add_edge(3, 4);
    t.add_edge(4, 5);
    assert_eq!(t.resolve(1, 5), Some(vec![1, 2, 3, 4, 5]));
    // a shortcut makes the shorter route win
    t.add_edge(2, 5);
    assert_eq!(t.resolve(1, 5), Some(vec![1, 2, 5]));
    // node 9 is present but disconnected
    assert_eq!(t.resolve(1, 9), None);
    // an absent node is unreachable
    assert_eq!(t.resolve(1, 77), None);
    assert_eq!(t.resolve(1, 1), Some(vec![1]));
}

#[test]
fn remove_node_purges_every_edge() {
    let mut t = TopologyView::new();
    for id in [1u8, 2, 3, 4] {
        t.insert_node(id, NodeKind::Relay);
    }
    t.add_edge(1, 2);
    t.add_edge(2, 3);
    t.add_edge(1, 4);
    t.add_edge(4, 3);
    t.remove_node(2);
    assert!(!t.has_node(2));
    assert!(t.has_node(1) && t.has_node(3) && t.has_node(4));
    // the surviving route avoids 2
    assert_eq!(t.resolve(1, 3), Some(vec![1, 4, 3]));
    assert!(!t.neighbors(1).contains(&2));
    assert!(!t.neighbors(3).contains(&2));
}

#[test]
fn discovery_fills_topology_and_send_delivers() {
    // P6 scenario: A-B-C, A discovers, then sends "hello" to C.
    let mut nodes = line_topology();
    eng(&mut nodes, 1).start_discovery();
    run(&mut nodes);
    {
        let a = eng(&mut nodes, 1);
        let events = a.take_events();
        assert!(events.iter().any(|e| matches!(e, EngineEvent::DiscoveryComplete { .. })));
        let view = a.topology_view();
        assert_eq!(view.get_kind(2), Some(NodeKind::Relay));
        assert_eq!(view.get_kind(3), Some(NodeKind::Client));
        assert!(view.neighbors(1).contains(&2));
        assert!(view.neighbors(2).contains(&3));
    }
    let session = {
        let a = eng(&mut nodes, 1);
        let s = a.send_message(&b"hello".to_vec(), 3, None).expect("path must exist");
        // one chunk: at most two fragments expected, here exactly one
        let out = a.take_outbox();
        assert_eq!(out.len(), 1);
        let (first_hop, pkt) = &out[0];
        assert_eq!(*first_hop, 2);
        assert_eq!(pkt.header.hops, vec![1, 2, 3]);
        match &pkt.kind {
            PacketKind::MsgFragment(f) => {
                assert_eq!(f.total, 1);
                assert_eq!(f.data, b"hello".to_vec());
            }
            _ => panic!("expected a fragment"),
        }
        assert_eq!(a.pending_count(), 1);
        s
    };
    // send it again so the fragment is in flight (the first copy was only
    // inspected), and drive it and the returning acknowledgment through
    let s2 = eng(&mut nodes, 1).send_message(&b"hello".to_vec(), 3, Some(session)).unwrap();
    assert_eq!(s2, session);
    run(&mut nodes);
    let c = eng(&mut nodes, 3);
    let delivered = c.take_events();
    assert!(delivered.iter().any(|e| match e {
        EngineEvent::Delivered { origin, session: s, payload } =>
            *origin == 1 && *s == session && payload == b"hello",
        _ => false,
    }));
    // the acknowledgment came back and cleared the pending fragment
    assert_eq!(eng(&mut nodes, 1).pending_count(), 0);
}

#[test]
fn relay_failure_reroutes_with_one_retransmission() {
    // P5: two disjoint routes 1-2-3 and 1-4-3; kill 2 mid-flight.
    let mut a = RoutingHandler::new(1, NodeKind::Client);
    a.add_neighbor(2);
    a.add_neighbor(4);
    // fold both routes as discovery would
    a.handle_flood_response(0, 1, &vec![(1, NodeKind::Client), (2, NodeKind::Relay), (3, NodeKind::Client)]);
    a.handle_flood_response(0, 1, &vec![(1, NodeKind::Client), (4, NodeKind::Relay), (3, NodeKind::Client)]);
    let session = a.send_message(&b"payload".to_vec(), 3, None).unwrap();
    let out = a.take_outbox();
    assert_eq!(out.len(), 1);
    assert_eq!(out[0].0, 2, "ties break by discovery order");
    assert_eq!(a.pending_count(), 1);
    // the relay 2 crashed: a negative acknowledgment names it
    a.handle_nack(session, 0, NackCause::RelayFailure(2));
    // 2 is gone from the view, and no resolve ever routes through it again
    assert!(!a.topology_view().has_node(2));
    assert_eq!(a.topology_view().resolve(1, 3), Some(vec![1, 4, 3]));
    // exactly one retransmission, along the surviving route
    let out = a.take_outbox();
    let frags: Vec<_> = out
        .iter()
        .filter(|(_, p)| matches!(p.kind, PacketKind::MsgFragment(_)))
        .collect();
    assert_eq!(frags.len(), 1);
    assert_eq!(frags[0].0, 4);
    assert_eq!(frags[0].1.header.hops, vec![1, 4, 3]);
    assert_eq!(a.pending_count(), 1);
    assert_eq!(a.waiting_count(), 0);
    let removed = a.take_events();
    assert!(removed.iter().any(|e| matches!(e, EngineEvent::NodeRemoved { id: 2 })));
}

#[test]
fn relay_failure_without_spare_route_waits_for_discovery() {
    // P7: A-B-C only; B crashes while the fragment is in flight.
    let mut a = RoutingHandler::new(1, NodeKind::Client);
    a.add_neighbor(2);
    a.handle_flood_response(0, 1, &vec![(1, NodeKind::Client), (2, NodeKind::Relay), (3, NodeKind::Client)]);
    let session = a.send_message(&b"data".to_vec(), 3, None).unwrap();
    a.take_outbox();
    a.handle_nack(session, 0, NackCause::RelayFailure(2));
    assert!(!a.topology_view().has_node(2));
    // no route is left: the fragment waits, discovery was triggered
    assert_eq!(a.pending_count(), 0);
    assert_eq!(a.waiting_count(), 1);
    let out = a.take_outbox();
    assert!(out.iter().all(|(_, p)| matches!(p.kind, PacketKind::FloodRequest { .. })));
    // a resend attempt keeps failing while nothing is reachable
    assert_eq!(a.send_message(&b"data".to_vec(), 3, None), Err(SendError::PathNotFound));
    // a fresh discovery round finds a new relay 5 toward 3
    a.handle_flood_response(1, 1, &vec![(1, NodeKind::Client), (5, NodeKind::Relay), (3, NodeKind::Client)]);
    assert!(a.retry_waiting());
    assert_eq!(a.waiting_count(), 0);
    assert_eq!(a.pending_count(), 1);
    let out = a.take_outbox();
    let frags: Vec<_> = out
        .iter()
        .filter(|(_, p)| matches!(p.kind, PacketKind::MsgFragment(_)))
        .collect();
    assert_eq!(frags.len(), 1);
    assert_eq!(frags[0].1.header.hops, vec![1, 5, 3]);
}

#[test]
fn flood_in_cycle_terminates_with_simple_traces() {
    // P3: relays 2,3,4 form a cycle; the probe must terminate, each relay
    // forwarding the round at most once, and no trace repeats a node.
    let mut a = RoutingHandler::new(1, NodeKind::Client);
    a.add_neighbor(2);
    let mut b = RoutingHandler::new(2, NodeKind::Relay);
    b.add_neighbor(1);
    b.add_neighbor(3);
    b.add_neighbor(4);
    let mut c = RoutingHandler::new(3, NodeKind::Relay);
    c.add_neighbor(2);
    c.add_neighbor(4);
    let mut d = RoutingHandler::new(4, NodeKind::Relay);
    d.add_neighbor(2);
    d.add_neighbor(3);
    let mut nodes = vec![(1, a), (2, b), (3, c), (4, d)];
    eng(&mut nodes, 1).start_discovery();
    let (_, forwards, traces_simple) = run(&mut nodes);
    assert!(traces_simple, "a trace repeated a node");
    assert!(forwards <= 3, "more forwarding events than relay nodes");
}

#[test]
fn dropped_packet_is_resent_on_same_topology() {
    let mut a = RoutingHandler::new(1, NodeKind::Client);
    a.add_neighbor(2);
    a.handle_flood_response(0, 1, &vec![(1, NodeKind::Client), (2, NodeKind::Relay), (3, NodeKind::Client)]);
    let session = a.send_message(&b"x".to_vec(), 3, None).unwrap();
    a.take_outbox();
    a.handle_nack(session, 0, NackCause::Dropped);
    // topology untouched, one retransmission along the same route
    assert!(a.topology_view().has_node(2));
    let out = a.take_outbox();
    assert_eq!(out.len(), 1);
    assert_eq!(out[0].1.header.hops, vec![1, 2, 3]);
    assert_eq!(a.pending_count(), 1);
}

#[test]
fn late_or_unknown_ack_is_ignored() {
    let mut a = RoutingHandler::new(1, NodeKind::Client);
    a.add_neighbor(2);
    a.handle_flood_response(0, 1, &vec![(1, NodeKind::Client), (2, NodeKind::Relay), (3, NodeKind::Client)]);
    let session = a.send_message(&b"y".to_vec(), 3, None).unwrap();
    assert_eq!(a.pending_count(), 1);
    a.handle_ack(session + 17, 0);
    a.handle_ack(session, 5);
    assert_eq!(a.pending_count(), 1);
    a.handle_ack(session, 0);
    assert_eq!(a.pending_count(), 0);
    a.handle_ack(session, 0);
    assert_eq!(a.pending_count(), 0);
}

#[test]
fn multi_fragment_message_reassembles_end_to_end() {
    let mut nodes = line_topology();
    eng(&mut nodes, 1).start_discovery();
    run(&mut nodes);
    let payload: Vec<u8> = (0..500u32).map(|i| (i % 256) as u8).collect();
    let session = eng(&mut nodes, 1).send_message(&payload, 3, Some(99)).unwrap();
    assert_eq!(session, 99);
    assert_eq!(eng(&mut nodes, 1).pending_count(), 4, "500 bytes split into 4 chunks");
    run(&mut nodes);
    let events = eng(&mut nodes, 3).take_events();
    assert!(events.iter().any(|e| match e {
        EngineEvent::Delivered { origin, session, payload: p } =>
            *origin == 1 && *session == 99 && *p == payload,
        _ => false,
    }));
    // every fragment was acknowledged
    assert_eq!(eng(&mut nodes, 1).pending_count(), 0);
}

#[test]
fn send_without_path_triggers_discovery() {
    let mut a = RoutingHandler::new(1, NodeKind::Client);
    a.add_neighbor(2);
    assert_eq!(a.send_message(&b"z".to_vec(), 9, None), Err(SendError::PathNotFound));
    let out = a.take_outbox();
    assert_eq!(out.len(), 1);
    assert!(matches!(out[0].1.kind, PacketKind::FloodRequest { .. }));
    assert_eq!(a.pending_count(), 0);
}
