use protohackers::client::{ClientState, ClientType};
use protohackers::protocol::{IAmCamera, IAmDispatcher, Message, Plate, Ticket, WantHeartbeat};
use protohackers::server::{validate_message, Action, ProtocolError, Server};

fn create_test_addr(port: u16) -> u64 {
    port as u64
}

fn create_test_camera() -> IAmCamera {
    IAmCamera { road: 123, mile: 100, limit: 60 }
}

fn create_test_plate(plate: &str, timestamp: u32) -> Plate {
    Plate { plate: plate.to_string(), timestamp }
}

fn setup_camera_client(server: &mut Server, addr: u64, camera: IAmCamera) -> u32 {
    let mut state = ClientState::new();
    state.set_client_type(ClientType::Camera { road: camera.road, mile: camera.mile, limit: camera.limit });
    let client_id = 42;
    state.client_id = Some(client_id);
    server.insert_client(addr, state);
    client_id
}

fn keys(server: &Server) -> Vec<(String, u32)> {
    server.observations().iter().map(|o| (o.plate.plate.clone(), o.plate.timestamp)).collect()
}

fn has_key(server: &Server, plate: &str, timestamp: u32) -> bool {
    server.observations().iter().any(|o| o.plate.plate == plate && o.plate.timestamp == timestamp)
}

#[test]
fn test_speed_calculation_no_violation() {
    let mut server = Server::new();
    let addr = create_test_addr(8001);
    setup_camera_client(&mut server, addr, IAmCamera { road: 123, mile: 100, limit: 60 });
    let result = server.process_message(addr, Message::Plate(create_test_plate("ABC123", 1000)));
    assert!(result.is_ok());
    let addr2 = create_test_addr(8002);
    setup_camera_client(&mut server, addr2, IAmCamera { road: 123, mile: 110, limit: 60 });
    // 10 miles in 600 seconds: exactly 60 mph, the limit.
    let result = server.process_message(addr2, Message::Plate(create_test_plate("ABC123", 1600)));
    assert!(result.is_ok());
    assert_eq!(server.observations().len(), 2);
    assert_eq!(server.queued_tickets(123).len(), 0);
}

#[test]
fn test_speed_violation_detection() {
    let mut server = Server::new();
    let addr = create_test_addr(8001);
    setup_camera_client(&mut server, addr, IAmCamera { road: 123, mile: 100, limit: 60 });
    let result = server.process_message(addr, Message::Plate(create_test_plate("SPEED123", 1000)));
    assert!(result.is_ok());
    let addr2 = create_test_addr(8002);
    setup_camera_client(&mut server, addr2, IAmCamera { road: 123, mile: 110, limit: 60 });
    // 10 miles in 300 seconds: 120 mph.
    let result = server.process_message(addr2, Message::Plate(create_test_plate("SPEED123", 1300)));
    assert!(result.is_ok());
    assert_eq!(server.observations().len(), 2);
    assert!(has_key(&server, "SPEED123", 1000));
    assert!(has_key(&server, "SPEED123", 1300));
    // No dispatcher for road 123: the ticket waits.
    let queued = server.queued_tickets(123);
    assert_eq!(queued.len(), 1);
    assert_eq!(
        queued[0],
        Ticket {
            plate: "SPEED123".to_string(),
            road: 123,
            mile1: 100,
            timestamp1: 1000,
            mile2: 110,
            timestamp2: 1300,
            speed: 12000,
        }
    );
}

#[test]
fn test_different_roads_no_violation() {
    let mut server = Server::new();
    let addr1 = create_test_addr(8001);
    setup_camera_client(&mut server, addr1, IAmCamera { road: 123, mile: 100, limit: 60 });
    let addr2 = create_test_addr(8002);
    setup_camera_client(&mut server, addr2, IAmCamera { road: 456, mile: 100, limit: 60 });
    let result1 = server.process_message(addr1, Message::Plate(create_test_plate("ABC123", 1000)));
    assert!(result1.is_ok());
    let result2 = server.process_message(addr2, Message::Plate(create_test_plate("ABC123", 1100)));
    assert!(result2.is_ok());
    assert_eq!(server.observations().len(), 2);
    assert_eq!(server.queued_tickets(123).len() + server.queued_tickets(456).len(), 0);
}

#[test]
fn test_same_mile_no_violation() {
    let mut server = Server::new();
    let addr = create_test_addr(8001);
    setup_camera_client(&mut server, addr, IAmCamera { road: 123, mile: 100, limit: 60 });
    let result1 = server.process_message(addr, Message::Plate(create_test_plate("ABC123", 1000)));
    assert!(result1.is_ok());
    let result2 = server.process_message(addr, Message::Plate(create_test_plate("ABC123", 1100)));
    assert!(result2.is_ok());
    assert_eq!(server.observations().len(), 2);
}

#[test]
fn test_client_not_camera_error() {
    let mut server = Server::new();
    let addr = create_test_addr(8001);
    let mut state = ClientState::new();
    state.set_client_type(ClientType::Dispatcher { roads: vec![123] });
    state.client_id = Some(42);
    server.insert_client(addr, state);
    let result = server.process_message(addr, Message::Plate(create_test_plate("ABC123", 1000)));
    assert!(result.is_err());
    assert!(result.unwrap_err().describe().contains("not a camera"));
}

#[test]
fn test_client_not_identified_error() {
    let mut server = Server::new();
    let addr = create_test_addr(8001);
    server.insert_client(addr, ClientState::new());
    let result = server.process_message(addr, Message::Plate(create_test_plate("ABC123", 1000)));
    assert!(result.is_err());
    assert!(result.unwrap_err().describe().contains("not fully identified"));
}

#[test]
fn test_multiple_violations_same_plate() {
    let mut server = Server::new();
    let cameras = vec![
        (create_test_addr(8001), IAmCamera { road: 123, mile: 100, limit: 60 }),
        (create_test_addr(8002), IAmCamera { road: 123, mile: 110, limit: 60 }),
        (create_test_addr(8003), IAmCamera { road: 123, mile: 120, limit: 60 }),
    ];
    for (addr, camera) in &cameras {
        setup_camera_client(&mut server, *addr, *camera);
    }
    let observations = vec![
        (0, create_test_plate("FAST123", 1000)),
        (1, create_test_plate("FAST123", 1200)),
        (2, create_test_plate("FAST123", 1250)),
    ];
    for (camera_idx, plate_msg) in observations {
        let addr = cameras[camera_idx].0;
        let result = server.process_message(addr, Message::Plate(plate_msg));
        assert!(result.is_ok());
    }
    assert_eq!(server.observations().len(), 3);
    // Mile 100 at 1000 to mile 110 at 1200 is already 180 mph; the later
    // pairs fall on the same day, so that is the only ticket.
    let queued = server.queued_tickets(123);
    assert_eq!(queued.len(), 1);
    assert_eq!((queued[0].mile1, queued[0].timestamp1, queued[0].mile2, queued[0].timestamp2), (100, 1000, 110, 1200));
    assert_eq!(queued[0].speed, 18000);
}

#[test]
fn test_btreemap_key_ordering() {
    let mut server = Server::new();
    let addr = create_test_addr(8001);
    setup_camera_client(&mut server, addr, create_test_camera());
    let observations = vec![
        create_test_plate("XYZ789", 2000),
        create_test_plate("ABC123", 1000),
        create_test_plate("XYZ789", 1500),
        create_test_plate("ABC123", 3000),
    ];
    for plate_msg in observations {
        let result = server.process_message(addr, Message::Plate(plate_msg));
        assert!(result.is_ok());
    }
    let expected_order = vec![
        ("ABC123".to_string(), 1000),
        ("ABC123".to_string(), 3000),
        ("XYZ789".to_string(), 1500),
        ("XYZ789".to_string(), 2000),
    ];
    assert_eq!(keys(&server), expected_order);
}

#[test]
fn test_zero_time_diff_no_division_by_zero() {
    let mut server = Server::new();
    let addr = create_test_addr(8001);
    setup_camera_client(&mut server, addr, IAmCamera { road: 123, mile: 100, limit: 60 });
    let result1 = server.process_message(addr, Message::Plate(create_test_plate("ABC123", 1000)));
    assert!(result1.is_ok());
    let result2 = server.process_message(addr, Message::Plate(create_test_plate("ABC123", 1000)));
    assert!(result2.is_ok());
    // The same key: the observation is replaced.
    assert_eq!(server.observations().len(), 1);
}

#[test]
fn test_validate_message_functionality() {
    let camera_state = {
        let mut state = ClientState::new();
        state.set_client_type(ClientType::Camera { road: 123, mile: 100, limit: 60 });
        state.client_id = Some(1);
        state
    };
    let plate_msg = Message::Plate(create_test_plate("ABC123", 1000));
    assert!(validate_message(plate_msg, &camera_state).is_ok());

    let dispatcher_state = {
        let mut state = ClientState::new();
        state.set_client_type(ClientType::Dispatcher { roads: vec![123] });
        state.client_id = Some(2);
        state
    };
    let plate_msg = Message::Plate(create_test_plate("ABC123", 1000));
    let result = validate_message(plate_msg, &dispatcher_state);
    assert!(result.is_err());
    assert!(matches!(result.unwrap_err(), ProtocolError::NotIdentified));

    let unidentified_state = ClientState::new();
    let plate_msg = Message::Plate(create_test_plate("ABC123", 1000));
    let result = validate_message(plate_msg, &unidentified_state);
    assert!(result.is_err());

    let identified_state = camera_state;
    let camera_msg = Message::IAmCamera(IAmCamera { road: 456, mile: 200, limit: 70 });
    let result = validate_message(camera_msg, &identified_state);
    assert!(result.is_err());
    assert!(matches!(result.unwrap_err(), ProtocolError::AlreadyIdentified));

    let mut heartbeat_state = ClientState::new();
    heartbeat_state.has_heartbeat = true;
    let heartbeat_msg = Message::WantHeartbeat(WantHeartbeat { interval: 100 });
    let result = validate_message(heartbeat_msg, &heartbeat_state);
    assert!(result.is_err());
    assert!(matches!(result.unwrap_err(), ProtocolError::DuplicateHeartbeatRequest));
}

#[test]
fn test_camera_registration() {
    let mut server = Server::new();
    let addr = create_test_addr(8001);
    server.connect(addr);
    let camera_msg = Message::IAmCamera(IAmCamera { road: 42, mile: 150, limit: 80 });
    let result = server.process_message(addr, camera_msg);
    assert!(result.is_ok());
    let client_state = server.client(addr).unwrap();
    assert!(client_state.is_identified());
    assert!(client_state.client_id.is_some());
    match &client_state.client_type {
        Some(ClientType::Camera { road, mile, limit }) => {
            assert_eq!(*road, 42);
            assert_eq!(*mile, 150);
            assert_eq!(*limit, 80);
        }
        _ => panic!("Expected camera client type"),
    }
}

#[test]
fn test_dispatcher_registration() {
    let mut server = Server::new();
    let addr = create_test_addr(8001);
    server.connect(addr);
    let dispatcher_msg = Message::IAmDispatcher(IAmDispatcher { numroads: 3, roads: vec![10, 20, 30] });
    let result = server.process_message(addr, dispatcher_msg);
    assert!(result.is_ok());
    let client_state = server.client(addr).unwrap();
    assert!(client_state.is_identified());
    assert!(client_state.client_id.is_some());
    match &client_state.client_type {
        Some(ClientType::Dispatcher { roads }) => {
            assert_eq!(*roads, vec![10, 20, 30]);
        }
        _ => panic!("Expected dispatcher client type"),
    }
}

#[test]
fn test_heartbeat_request() {
    let mut server = Server::new();
    let addr = create_test_addr(8001);
    server.connect(addr);
    let heartbeat_msg = Message::WantHeartbeat(WantHeartbeat { interval: 250 });
    let result = server.process_message(addr, heartbeat_msg);
    assert!(result.is_ok());
    assert!(server.client(addr).unwrap().has_heartbeat);
    assert!(matches!(result.unwrap()[..], [Action::StartHeartbeat { interval: 250 }]));
    assert!(server.heartbeat_should_continue(addr));
}

#[test]
fn test_unsupported_message_type() {
    let mut server = Server::new();
    let addr = create_test_addr(8001);
    server.connect(addr);
    let ticket_msg = Message::Ticket(Ticket {
        plate: "ABC123".to_string(),
        road: 123,
        mile1: 100,
        timestamp1: 1000,
        mile2: 110,
        timestamp2: 1300,
        speed: 12000,
    });
    let result = server.process_message(addr, ticket_msg);
    assert!(result.is_err());
    assert!(result.unwrap_err().describe().contains("Unexpected message type"));
}

#[test]
fn test_speed_calculation_edge_cases() {
    let mut server = Server::new();
    let addr1 = create_test_addr(8001);
    setup_camera_client(&mut server, addr1, IAmCamera { road: 1, mile: 0, limit: 60 });
    let addr2 = create_test_addr(8002);
    setup_camera_client(&mut server, addr2, IAmCamera { road: 1, mile: 100, limit: 60 });
    // 100 miles in 1 second: 360,000 mph.
    server.process_message(addr1, Message::Plate(create_test_plate("ROCKET", 1000))).unwrap();
    server.process_message(addr2, Message::Plate(create_test_plate("ROCKET", 1001))).unwrap();
    assert_eq!(server.observations().len(), 2);
}

#[test]
fn test_concurrent_observations_different_plates() {
    let mut server = Server::new();
    let addr = create_test_addr(8001);
    setup_camera_client(&mut server, addr, create_test_camera());
    let plates_to_test = vec!["CAR001", "CAR002", "CAR003", "TRUCK1", "BIKE99"];
    for (i, plate_str) in plates_to_test.iter().enumerate() {
        let result = server.process_message(addr, Message::Plate(create_test_plate(plate_str, 1000 + i as u32)));
        assert!(result.is_ok());
    }
    assert_eq!(server.observations().len(), 5);
    for (i, plate_str) in plates_to_test.iter().enumerate() {
        assert!(has_key(&server, plate_str, 1000 + i as u32));
    }
}

#[test]
fn test_reverse_direction_speed_calculation() {
    let mut server = Server::new();
    let addr1 = create_test_addr(8001);
    setup_camera_client(&mut server, addr1, IAmCamera { road: 1, mile: 110, limit: 60 });
    let addr2 = create_test_addr(8002);
    setup_camera_client(&mut server, addr2, IAmCamera { road: 1, mile: 100, limit: 60 });
    server.process_message(addr1, Message::Plate(create_test_plate("REVERSE", 1000))).unwrap();
    server.process_message(addr2, Message::Plate(create_test_plate("REVERSE", 1300))).unwrap();
    assert_eq!(server.observations().len(), 2);
    let queued = server.queued_tickets(1);
    assert_eq!(queued.len(), 1);
    assert_eq!((queued[0].mile1, queued[0].mile2, queued[0].speed), (110, 100, 12000));
}

#[test]
fn test_client_id_generation_isolated() {
    let mut server = Server::new();
    let addresses = vec![create_test_addr(8001), create_test_addr(8002), create_test_addr(8003)];
    let mut expected_ids = vec![];
    for addr in addresses.iter() {
        server.connect(*addr);
        server.process_message(*addr, Message::IAmCamera(create_test_camera())).unwrap();
        expected_ids.push(server.client(*addr).unwrap().client_id.unwrap());
    }
    expected_ids.sort();
    for i in 1..expected_ids.len() {
        assert!(expected_ids[i] > expected_ids[i - 1], "IDs should be unique and incrementing");
    }
    assert_eq!(expected_ids.len(), 3);
}

#[test]
fn test_plate_observation_data_integrity() {
    let mut server = Server::new();
    let addr = create_test_addr(8001);
    setup_camera_client(&mut server, addr, IAmCamera { road: 999, mile: 500, limit: 120 });
    server.process_message(addr, Message::Plate(create_test_plate("TEST123", 1234567890))).unwrap();
    let observation = server
        .observations()
        .iter()
        .find(|o| o.plate.plate == "TEST123" && o.plate.timestamp == 1234567890)
        .unwrap();
    assert_eq!(observation.plate.plate, "TEST123");
    assert_eq!(observation.plate.timestamp, 1234567890);
    assert_eq!(observation.camera.road, 999);
    assert_eq!(observation.camera.mile, 500);
    assert_eq!(observation.camera.limit, 120);
    assert_eq!(observation.camera_id, 42);
}

#[test]
fn test_memory_efficiency_large_dataset() {
    let mut server = Server::new();
    let addr = create_test_addr(8001);
    setup_camera_client(&mut server, addr, create_test_camera());
    for i in 0..1000 {
        let plate_msg = create_test_plate(&format!("PLATE{:04}", i % 100), 1000 + i);
        let result = server.process_message(addr, Message::Plate(plate_msg));
        assert!(result.is_ok());
    }
    assert_eq!(server.observations().len(), 1000);
    let keys = keys(&server);
    for i in 1..keys.len() {
        assert!(keys[i - 1] <= keys[i], "BTreeMap ordering violated");
    }
}

#[test]
fn test_realistic_traffic_scenario() {
    let mut server = Server::new();
    let cameras = vec![
        (create_test_addr(8001), IAmCamera { road: 101, mile: 0, limit: 65 }),
        (create_test_addr(8002), IAmCamera { road: 101, mile: 10, limit: 65 }),
        (create_test_addr(8003), IAmCamera { road: 101, mile: 20, limit: 65 }),
        (create_test_addr(8004), IAmCamera { road: 101, mile: 30, limit: 65 }),
        (create_test_addr(8005), IAmCamera { road: 101, mile: 40, limit: 65 }),
    ];
    for (addr, camera) in &cameras {
        setup_camera_client(&mut server, *addr, *camera);
    }
    let vehicles = vec![
        ("LAW001", vec![(0, 0), (1, 553), (2, 1106), (3, 1659)]),
        ("SPEED1", vec![(0, 1000), (1, 1424), (2, 1847)]),
        ("VAR001", vec![(0, 2000), (1, 2400), (3, 3200)]),
    ];
    for (plate, observations) in vehicles {
        for (camera_idx, timestamp) in observations {
            let addr = cameras[camera_idx].0;
            let result = server.process_message(addr, Message::Plate(create_test_plate(plate, timestamp as u32)));
            assert!(result.is_ok());
        }
    }
    let total_observations = 4 + 3 + 3;
    assert_eq!(server.observations().len(), total_observations);
    // LAW001 keeps to 65 mph; SPEED1 goes 85 mph and VAR001 90 mph, each
    // ticketed once for day 0.
    let plates: Vec<String> = server.queued_tickets(101).iter().map(|t| t.plate.clone()).collect();
    assert_eq!(plates, vec!["SPEED1".to_string(), "VAR001".to_string()]);
}

#[test]
fn test_send_error_function() {
    let error_msg = "test error";
    let expected = protohackers::protocol::error_frame(error_msg);
    assert_eq!(expected.len(), 1 + 1 + error_msg.len());
    assert_eq!(expected[0], 0x10);
    assert_eq!(expected[1], error_msg.len() as u8);
}
