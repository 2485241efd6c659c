use protohackers::server::ProtocolError;
use protohackers::utils;
use protohackers::protocol::{
    encode_ticket, error_frame, heartbeat_frame, parse, try_parse_message, IAmCamera, IAmDispatcher, Message,
    ParseError, Plate, Ticket, WantHeartbeat,
};

#[test]
fn parse_plate_message() {
    let data = [0x20, 0x04, b'T', b'E', b'S', b'T', 0x00, 0x00, 0x03, 0xe8];
    assert_eq!(parse(&data), Ok(Message::Plate(Plate { plate: "TEST".to_string(), timestamp: 1000 })));
}

#[test]
fn parse_camera_and_dispatcher() {
    assert_eq!(
        parse(&[0x80, 0x00, 0x42, 0x00, 0x64, 0x00, 0x3c]),
        Ok(Message::IAmCamera(IAmCamera { road: 66, mile: 100, limit: 60 }))
    );
    assert_eq!(
        parse(&[0x81, 0x03, 0x00, 0x42, 0x01, 0x70, 0x13, 0x88]),
        Ok(Message::IAmDispatcher(IAmDispatcher { numroads: 3, roads: vec![66, 368, 5000] }))
    );
    assert_eq!(parse(&[0x40, 0x00, 0x00, 0x00, 0x0a]), Ok(Message::WantHeartbeat(WantHeartbeat { interval: 10 })));
}

#[test]
fn parse_errors() {
    assert_eq!(parse(&[]), Err(ParseError::InsufficientData));
    assert_eq!(parse(&[0x10, 0x00]), Err(ParseError::InvalidMessageType(0x10)));
    assert_eq!(parse(&[0x21]), Err(ParseError::InvalidMessageType(0x21)));
    assert_eq!(parse(&[0x99]), Err(ParseError::InvalidMessageType(0x99)));
    assert_eq!(parse(&[0x20, 0x02, 0xff, 0xfe, 0, 0, 0, 1]), Err(ParseError::InvalidUtf8));
    assert_eq!(parse(&[0x20, 0x02, b'A', b'B', 0, 0]), Err(ParseError::InsufficientData));
    assert_eq!(parse(&[0x81, 0x02, 0x00, 0x01]), Err(ParseError::InsufficientData));
    assert_eq!(parse(&[0x80, 0x00, 0x01, 0x00]), Err(ParseError::InsufficientData));
}

#[test]
fn describe_parse_errors() {
    assert_eq!(ParseError::InvalidMessageType(0x2a).describe(), "Invalid message type: 0x2a");
    assert_eq!(ParseError::InvalidMessageType(0x05).describe(), "Invalid message type: 0x05");
    assert_eq!(ParseError::InsufficientData.describe(), "Insufficient data for parsing");
    assert_eq!(ParseError::InvalidUtf8.describe(), "Invalid UTF-8 in string data");
    assert_eq!(ParseError::InvalidFormat.describe(), "Invalid data format");
}

#[test]
fn framing_takes_one_message_at_a_time() {
    let mut stream = vec![0x40, 0x00, 0x00, 0x00, 0x0a];
    stream.extend_from_slice(&[0x20, 0x02, b'U', b'K', 0x00, 0x00, 0x00, 0x05]);
    let (first, n) = try_parse_message(&stream).unwrap();
    assert_eq!(first, Message::WantHeartbeat(WantHeartbeat { interval: 10 }));
    assert_eq!(n, 5);
    let (second, m) = try_parse_message(&stream[n..]).unwrap();
    assert_eq!(second, Message::Plate(Plate { plate: "UK".to_string(), timestamp: 5 }));
    assert_eq!(m, 8);
    assert_eq!(try_parse_message(&stream[..7]).map(|(_, n)| n), Ok(5));
    assert_eq!(try_parse_message(&stream[5..9]), Err(ParseError::InsufficientData));
    assert_eq!(try_parse_message(&[0x81]), Err(ParseError::InsufficientData));
    assert_eq!(try_parse_message(&[0x81, 0x02, 0x00]), Err(ParseError::InsufficientData));
    assert_eq!(try_parse_message(&[0x21, 0x00]), Err(ParseError::InvalidMessageType(0x21)));
}

#[test]
fn ticket_encoding() {
    let ticket = Ticket {
        plate: "UN1X".to_string(),
        road: 66,
        mile1: 100,
        timestamp1: 123456,
        mile2: 110,
        timestamp2: 123816,
        speed: 10000,
    };
    let expected = vec![
        0x21, 0x04, 0x55, 0x4e, 0x31, 0x58, 0x00, 0x42, 0x00, 0x64, 0x00, 0x01, 0xe2, 0x40, 0x00, 0x6e, 0x00, 0x01,
        0xe3, 0xa8, 0x27, 0x10,
    ];
    assert_eq!(encode_ticket(&ticket), expected);
    assert_eq!(utils::parse(&expected), Some(Message::Ticket(ticket)));
}

#[test]
fn ticket_roundtrip_non_ascii_plate() {
    let ticket = Ticket {
        plate: "ÄÖ-12".to_string(),
        road: 65535,
        mile1: 0,
        timestamp1: 0,
        mile2: 65535,
        timestamp2: u32::MAX,
        speed: 1,
    };
    let bytes = encode_ticket(&ticket);
    assert_eq!(bytes[1] as usize, "ÄÖ-12".len());
    assert_eq!(utils::parse(&bytes), Some(Message::Ticket(ticket)));
}

#[test]
fn error_and_heartbeat_frames() {
    assert_eq!(error_frame("illegal msg"), b"\x10\x0billegal msg".to_vec());
    assert_eq!(heartbeat_frame(), vec![0x41]);
    let long = "x".repeat(200);
    let frame = error_frame(&long);
    assert_eq!(&frame[..2], &[0x10, 200]);
    assert_eq!(frame.len(), 2 + 200);
    assert_eq!(&frame[2..], long.as_bytes());
}

#[test]
fn error_frame_length_is_one_byte() {
    for n in [127usize, 128, 200, 255] {
        let msg = "e".repeat(n);
        let frame = error_frame(&msg);
        assert_eq!(frame.len(), 2 + n);
        assert_eq!(frame[0], 0x10);
        assert_eq!(frame[1] as usize, n);
        assert_eq!(&frame[2..], msg.as_bytes());
    }
    // The length counts bytes, not characters.
    let frame = error_frame("é");
    assert_eq!(frame, vec![0x10, 2, 0xc3, 0xa9]);
}

#[test]
fn utils_parser_reads_every_type() {
    let plate1 = [0x20, 0x04, 0x55, 0x4e, 0x31, 0x58, 0x00, 0x00, 0x03, 0xe8];
    assert_eq!(utils::parse(&plate1), Some(Message::Plate(Plate { plate: "UN1X".to_string(), timestamp: 1000 })));
    let plate2 = [0x20, 0x07, 0x52, 0x45, 0x30, 0x35, 0x42, 0x4b, 0x47, 0x00, 0x01, 0xe2, 0x40];
    assert_eq!(
        utils::parse(&plate2),
        Some(Message::Plate(Plate { plate: "RE05BKG".to_string(), timestamp: 123456 }))
    );
    match utils::parse(&[0x10, 0x03, b'b', b'a', b'd']) {
        Some(Message::Error(e)) => assert_eq!(e.msg, "illegal msg"),
        other => panic!("unexpected {:?}", other),
    }
    // A heartbeat request must be exactly four bytes after the type.
    assert_eq!(utils::parse(&[0x40, 0, 0, 0, 1]), Some(Message::WantHeartbeat(WantHeartbeat { interval: 1 })));
    assert_eq!(utils::parse(&[0x40, 0, 0, 0, 1, 0]), None);
    assert_eq!(utils::parse(&[0x40, 0, 0, 1]), None);
    assert_eq!(utils::parse(&[]), None);
    assert_eq!(utils::parse(&[0x41]), None);
}

#[test]
fn utils_client() {
    let c = utils::Client::new(7, utils::ClientType::Camera);
    assert_eq!(c.get_id(), 7);
}

#[test]
fn protocol_error_texts() {
    let e: ProtocolError = ParseError::InvalidMessageType(0xff).into();
    assert_eq!(e, ProtocolError::ParseError(ParseError::InvalidMessageType(0xff)));
    assert_eq!(e.describe(), "Parse error: Invalid message type: 0xff");
    assert_eq!(ProtocolError::AlreadyIdentified.describe(), "Client already identified");
    assert_eq!(ProtocolError::DuplicateHeartbeatRequest.describe(), "Duplicate heartbeat request");
}

#[test]
fn truncated_messages_need_more_data() {
    let messages: Vec<Vec<u8>> = vec![
        vec![0x20, 0x04, b'T', b'E', b'S', b'T', 0x00, 0x00, 0x03, 0xe8],
        vec![0x20, 0x00, 0x00, 0x00, 0x00, 0x01],
        vec![0x20, 0x02, 0xc3, 0xa9, 0x00, 0x00, 0x00, 0x01],
        vec![0x40, 0x00, 0x00, 0x00, 0x0a],
        vec![0x80, 0x00, 0x42, 0x00, 0x64, 0x00, 0x3c],
        vec![0x81, 0x03, 0x00, 0x42, 0x01, 0x70, 0x13, 0x88],
        vec![0x81, 0x00],
    ];
    for m in messages {
        assert!(parse(&m).is_ok());
        for k in 0..m.len() {
            assert_eq!(parse(&m[..k]), Err(ParseError::InsufficientData), "prefix {} of {:?}", k, m);
        }
    }
}
