use mesh_node::client::ClientType;
use mesh_node::engine::{EngineEvent, RoutingHandler};
use mesh_node::errors::ClientError;
use mesh_node::packet::PacketKind;
use mesh_node::topology::NodeKind;

#[test]
fn client_type_variants_are_distinct() {
    assert_eq!(ClientType::ChatClient, ClientType::ChatClient);
    assert_ne!(ClientType::ChatClient, ClientType::WebBrowser);
    let copy = ClientType::WebBrowser.clone();
    assert_eq!(copy, ClientType::WebBrowser);
}

#[test]
fn client_error_categories() {
    assert_eq!(ClientError::NetworkError(String::from("x")).category(), "network error");
    assert_eq!(
        ClientError::FragmentationError(String::from("y")).category(),
        "fragmentation error"
    );
    assert_eq!(
        ClientError::SerializationError(String::from("z")).category(),
        "serialization error"
    );
    assert_eq!(ClientError::ProtocolError(String::from("w")).category(), "protocol error");
    assert_eq!(ClientError::TimeoutError.category(), "operation timed out");
    assert_eq!(ClientError::UnknownServer.category(), "unknown server");
    assert_eq!(ClientError::InvalidResponse.category(), "invalid response from server");
}

#[test]
fn remove_neighbor_prunes_and_reports() {
    let mut a = RoutingHandler::new(1, NodeKind::Client);
    a.add_neighbor(2);
    a.add_neighbor(4);
    a.handle_flood_response(
        0,
        1,
        &vec![(1, NodeKind::Client), (2, NodeKind::Relay), (3, NodeKind::Client)],
    );
    a.remove_neighbor(2);
    assert!(!a.topology_view().has_node(2));
    assert_eq!(a.topology_view().resolve(1, 3), None);
    let events = a.take_events();
    assert!(events.iter().any(|e| matches!(e, EngineEvent::NodeRemoved { id: 2 })));
}

#[test]
fn discovery_probe_goes_to_every_neighbor() {
    let mut a = RoutingHandler::new(7, NodeKind::Client);
    a.add_neighbor(2);
    a.add_neighbor(3);
    a.add_neighbor(4);
    a.start_discovery();
    let out = a.take_outbox();
    let targets: Vec<u8> = out.iter().map(|(to, _)| *to).collect();
    assert_eq!(targets, vec![2, 3, 4]);
    for (_, p) in &out {
        match &p.kind {
            PacketKind::FloodRequest { initiator, trace, .. } => {
                assert_eq!(*initiator, 7);
                assert_eq!(trace.as_slice(), &[(7, NodeKind::Client)]);
            }
            _ => panic!("expected a probe"),
        }
    }
    // the outbox was drained
    assert!(a.take_outbox().is_empty());
}

#[test]
fn relay_drops_repeated_round_and_answers_dead_ends() {
    // a relay whose only neighbor is the probe's sender answers with a trace
    // response instead of forwarding
    let mut b = RoutingHandler::new(2, NodeKind::Relay);
    b.add_neighbor(1);
    let trace = vec![(1u8, NodeKind::Client)];
    b.handle_flood_request(0, 1, &trace, 1);
    let out = b.take_outbox();
    assert_eq!(out.len(), 1);
    assert_eq!(out[0].0, 1);
    match &out[0].1.kind {
        PacketKind::FloodResponse { trace, .. } => {
            assert_eq!(trace.as_slice(), &[(1, NodeKind::Client), (2, NodeKind::Relay)]);
        }
        _ => panic!("expected a response"),
    }
    // the same round again: dropped outright
    b.handle_flood_request(0, 1, &trace, 1);
    assert!(b.take_outbox().is_empty());
}

#[test]
fn response_is_relayed_backward_along_the_trace() {
    let mut b = RoutingHandler::new(2, NodeKind::Relay);
    b.add_neighbor(1);
    b.add_neighbor(3);
    let trace = vec![(1u8, NodeKind::Client), (2, NodeKind::Relay), (3, NodeKind::Client)];
    b.handle_flood_response(5, 1, &trace);
    let out = b.take_outbox();
    assert_eq!(out.len(), 1);
    assert_eq!(out[0].0, 1, "one hop backward along the trace");
    match &out[0].1.kind {
        PacketKind::FloodResponse { flood_id, initiator, trace: t } => {
            assert_eq!(*flood_id, 5);
            assert_eq!(*initiator, 1);
            assert_eq!(t, &trace);
        }
        _ => panic!("expected a response"),
    }
}

#[test]
fn fragment_delivery_acks_backward() {
    let mut c = RoutingHandler::new(3, NodeKind::Client);
    c.add_neighbor(2);
    let frags = mesh_node::fragment::fragment(&b"ping".to_vec());
    let header = mesh_node::packet::RoutingHeader { hops: vec![1, 2, 3], cursor: 2 };
    c.handle_fragment(&header, 40, &frags[0]);
    let out = c.take_outbox();
    assert_eq!(out.len(), 1);
    assert_eq!(out[0].0, 2, "the acknowledgment goes to the hop before this node");
    assert_eq!(out[0].1.header.hops, vec![3, 2, 1]);
    match out[0].1.kind {
        PacketKind::Ack { index } => assert_eq!(index, 0),
        _ => panic!("expected an acknowledgment"),
    }
    let events = c.take_events();
    assert!(events.iter().any(|e| match e {
        EngineEvent::Delivered { origin, session, payload } =>
            *origin == 1 && *session == 40 && payload == b"ping",
        _ => false,
    }));
}

#[test]
fn misaddressed_fragment_is_dropped() {
    let mut c = RoutingHandler::new(3, NodeKind::Client);
    let frags = mesh_node::fragment::fragment(&b"stray".to_vec());
    let header = mesh_node::packet::RoutingHeader { hops: vec![1, 2, 9], cursor: 2 };
    c.handle_fragment(&header, 41, &frags[0]);
    assert!(c.take_outbox().is_empty());
    assert!(c.take_events().is_empty());
    let short = mesh_node::packet::RoutingHeader { hops: vec![3], cursor: 0 };
    c.handle_fragment(&short, 41, &frags[0]);
    assert!(c.take_outbox().is_empty());
}
