use protohackers::protocol::{IAmCamera, IAmDispatcher, Message, Plate, Ticket};
use protohackers::server::{Action, ProcessError, Server};

fn camera(server: &mut Server, conn: u64, road: u16, mile: u16, limit: u16) {
    server.connect(conn);
    server.process_message(conn, Message::IAmCamera(IAmCamera { road, mile, limit })).unwrap();
}

fn plate(server: &mut Server, conn: u64, p: &str, timestamp: u32) -> Vec<Action> {
    server.process_message(conn, Message::Plate(Plate { plate: p.to_string(), timestamp })).unwrap()
}

fn sent(actions: &[Action]) -> Vec<(u64, Ticket)> {
    actions
        .iter()
        .filter_map(|a| match a {
            Action::SendTicket { dispatcher, ticket } => Some((*dispatcher, ticket.clone())),
            _ => None,
        })
        .collect()
}

#[test]
fn queued_tickets_reach_a_new_dispatcher() {
    let mut server = Server::new();
    camera(&mut server, 1, 7, 0, 50);
    camera(&mut server, 2, 7, 10, 50);
    plate(&mut server, 1, "AB12", 0);
    plate(&mut server, 2, "AB12", 600);
    assert_eq!(server.queued_tickets(7).len(), 1);
    server.connect(3);
    let actions = server
        .process_message(3, Message::IAmDispatcher(IAmDispatcher { numroads: 2, roads: vec![9, 7] }))
        .unwrap();
    let delivered = sent(&actions);
    assert_eq!(delivered.len(), 1);
    assert_eq!(delivered[0].0, 3);
    assert_eq!(delivered[0].1.speed, 6000);
    assert_eq!(server.queued_tickets(7).len(), 0);
}

#[test]
fn tickets_go_to_a_registered_dispatcher() {
    let mut server = Server::new();
    server.connect(5);
    server.process_message(5, Message::IAmDispatcher(IAmDispatcher { numroads: 1, roads: vec![7] })).unwrap();
    camera(&mut server, 1, 7, 0, 50);
    camera(&mut server, 2, 7, 10, 50);
    assert!(sent(&plate(&mut server, 1, "AB12", 0)).is_empty());
    let delivered = sent(&plate(&mut server, 2, "AB12", 600));
    assert_eq!(delivered.len(), 1);
    assert_eq!(delivered[0].0, 5);
    assert_eq!(
        delivered[0].1,
        Ticket { plate: "AB12".to_string(), road: 7, mile1: 0, timestamp1: 0, mile2: 10, timestamp2: 600, speed: 6000 }
    );
    // The same plate on the same day is not ticketed again.
    camera(&mut server, 4, 7, 30, 50);
    assert!(sent(&plate(&mut server, 4, "AB12", 900)).is_empty());
}

#[test]
fn speed_rounds_half_up() {
    let mut server = Server::new();
    camera(&mut server, 1, 3, 0, 60);
    camera(&mut server, 2, 3, 121, 60);
    plate(&mut server, 1, "HALF", 0);
    // 121 miles in 7200 seconds is 60.5 mph, which rounds to 61.
    plate(&mut server, 2, "HALF", 7200);
    let queued = server.queued_tickets(3);
    assert_eq!(queued.len(), 1);
    assert_eq!(queued[0].speed, 6100);
}

#[test]
fn speed_at_limit_after_rounding_is_not_ticketed() {
    let mut server = Server::new();
    camera(&mut server, 1, 3, 0, 60);
    camera(&mut server, 2, 3, 120, 60);
    plate(&mut server, 1, "EVEN", 0);
    // 120 miles in 7201 seconds is 59.99 mph.
    plate(&mut server, 2, "EVEN", 7201);
    assert!(server.queued_tickets(3).is_empty());
}

#[test]
fn ticket_spans_several_days() {
    let mut server = Server::new();
    camera(&mut server, 1, 3, 0, 10);
    camera(&mut server, 2, 3, 1000, 10);
    plate(&mut server, 1, "LONG", 86000);
    plate(&mut server, 2, "LONG", 86400 + 3600);
    assert_eq!(server.queued_tickets(3).len(), 1);
    // A later pair on day 1 is already covered.
    camera(&mut server, 4, 3, 2000, 10);
    plate(&mut server, 4, "LONG", 86400 + 7200);
    assert_eq!(server.queued_tickets(3).len(), 1);
}

#[test]
fn receive_bytes_reads_frames_and_keeps_the_rest() {
    let mut server = Server::new();
    server.connect(1);
    let mut buffer = vec![0x80, 0x00, 0x07, 0x00, 0x00, 0x00, 0x3c, 0x20, 0x02, b'X'];
    let received = server.receive_bytes(1, &mut buffer);
    assert!(!received.error);
    assert!(received.actions.is_empty());
    assert_eq!(buffer, vec![0x20, 0x02, b'X']);
    assert!(server.client(1).unwrap().is_identified());
    buffer.extend_from_slice(&[b'Y', 0, 0, 0, 9]);
    let received = server.receive_bytes(1, &mut buffer);
    assert!(!received.error);
    assert!(buffer.is_empty());
    assert_eq!(server.observations().len(), 1);
}

#[test]
fn receive_bytes_reports_protocol_errors() {
    let mut server = Server::new();
    server.connect(1);
    // A plate from a client that has not identified itself.
    let mut buffer = vec![0x20, 0x01, b'A', 0, 0, 0, 1];
    assert!(server.receive_bytes(1, &mut buffer).error);
    assert!(buffer.is_empty());
    // An unknown message type.
    let mut buffer = vec![0x33, 0x00];
    assert!(server.receive_bytes(1, &mut buffer).error);
    // Heartbeats asked for twice.
    let mut buffer = vec![0x40, 0, 0, 0, 0, 0x40, 0, 0, 0, 0];
    let received = server.receive_bytes(1, &mut buffer);
    assert!(received.error);
    assert!(received.actions.is_empty());
    assert!(!server.heartbeat_should_continue(1));
}

#[test]
fn errors_change_nothing() {
    let mut server = Server::new();
    server.connect(1);
    let before = server.observations().len();
    let r = server.process_message(1, Message::Plate(Plate { plate: "Q".to_string(), timestamp: 1 }));
    assert!(matches!(r, Err(ProcessError::NotFullyIdentified)));
    assert_eq!(server.observations().len(), before);
    assert!(matches!(
        server.process_message(9, Message::Plate(Plate { plate: "Q".to_string(), timestamp: 1 })),
        Err(ProcessError::ClientStateNotFound)
    ));
    assert_eq!(ProcessError::ClientStateNotFound.describe(), "Client state not found");
}

#[test]
fn disconnect_drops_the_client() {
    let mut server = Server::new();
    server.connect(1);
    server.disconnect(1);
    assert!(server.client(1).is_none());
}

#[test]
fn successive_ids_differ() {
    let mut server = Server::new();
    camera(&mut server, 1, 1, 1, 1);
    camera(&mut server, 2, 1, 2, 1);
    assert_eq!(server.client(1).unwrap().client_id, Some(0));
    assert_eq!(server.client(2).unwrap().client_id, Some(1));
}

#[test]
fn bytes_in_pieces_read_like_bytes_at_once() {
    let stream: Vec<u8> = vec![
        0x80, 0x00, 0x07, 0x00, 0x00, 0x00, 0x32, // camera road 7 mile 0 limit 50
        0x20, 0x02, b'Z', b'Z', 0x00, 0x00, 0x00, 0x00, // ZZ at 0
        0x40, 0x00, 0x00, 0x00, 0x00, // no heartbeats
    ];
    let mut whole = Server::new();
    whole.connect(1);
    let mut buffer = stream.clone();
    let all = whole.receive_bytes(1, &mut buffer);
    assert!(!all.error);
    assert!(buffer.is_empty());

    let mut pieces = Server::new();
    pieces.connect(1);
    let mut buffer = Vec::new();
    for b in stream {
        buffer.push(b);
        assert!(!pieces.receive_bytes(1, &mut buffer).error);
    }
    assert!(buffer.is_empty());
    assert_eq!(pieces.observations().len(), whole.observations().len());
    assert_eq!(pieces.observations()[0].plate, whole.observations()[0].plate);
    assert_eq!(pieces.client(1).unwrap().has_heartbeat, whole.client(1).unwrap().has_heartbeat);
}

#[test]
fn ids_count_up_over_many_registrations() {
    let mut server = Server::new();
    for conn in 0..40u64 {
        server.connect(conn);
        let m = if conn % 2 == 0 {
            Message::IAmCamera(IAmCamera { road: 1, mile: conn as u16, limit: 60 })
        } else {
            Message::IAmDispatcher(IAmDispatcher { numroads: 1, roads: vec![conn as u16] })
        };
        server.process_message(conn, m).unwrap();
    }
    for conn in 0..40u64 {
        assert_eq!(server.client(conn).unwrap().client_id, Some(conn as u32));
    }
}

#[test]
fn overlapping_tickets_go_out_once() {
    let mut server = Server::new();
    server.connect(9);
    server.process_message(9, Message::IAmDispatcher(IAmDispatcher { numroads: 1, roads: vec![5] })).unwrap();
    camera(&mut server, 1, 5, 0, 60);
    camera(&mut server, 2, 5, 10, 60);
    camera(&mut server, 3, 5, 20, 60);
    let mut tickets = Vec::new();
    tickets.extend(sent(&plate(&mut server, 1, "FAST", 0)));
    tickets.extend(sent(&plate(&mut server, 2, "FAST", 300)));
    tickets.extend(sent(&plate(&mut server, 3, "FAST", 600)));
    // Every pair of observations is over the limit, all on day 0: one ticket.
    assert_eq!(tickets.len(), 1);
    assert_eq!(tickets[0].0, 9);
    assert_eq!(tickets[0].1.plate, "FAST");
    // Another road is another matter.
    camera(&mut server, 4, 6, 0, 60);
    camera(&mut server, 5, 6, 10, 60);
    plate(&mut server, 4, "FAST", 0);
    plate(&mut server, 5, "FAST", 300);
    assert_eq!(server.queued_tickets(6).len(), 1);
}
