//! A parser for every message type of the speed camera protocol, the
//! server's tickets and errors included, that reports failure as `None`;
//! with the client records it goes with.

use vstd::prelude::*;
use vstd::utf8::*;
use vstd::string::*;

use crate::protocol::{
    be16, be32, read_string, read_u16_be, read_u32_be, spec_parse_iamcamera, spec_parse_iamdispatcher,
    spec_parse_plate, spec_read_string, spec_roads, Error, IAmCamera, IAmDispatcher, Message, MessageView,
    Plate, Ticket, TicketView, WantHeartbeat, MSG_ERROR, MSG_IAM_CAMERA, MSG_IAM_DISPATCHER, MSG_PLATE,
    MSG_TICKET, MSG_WANT_HEARTBEAT, spec_encode_ticket,
};

verus! {

/// Conversion of a value into a protocol message.
pub trait Serialize {
    fn serialize(self) -> Message;
}

/// The kind of a connected client.
#[derive(Debug, Clone, Copy, PartialEq, Eq, Structural)]
pub enum ClientType {
    Camera,
    Dispatcher,
    Unknown,
}

/// A client with its assigned id.
#[derive(Debug, PartialEq, Eq, Structural)]
pub struct Client {
    id: u32,
    client_type: ClientType,
}

impl Client {
    /// The id of this client.
    pub closed spec fn id(&self) -> u32 {
        self.id
    }

    /// The kind of this client.
    pub closed spec fn kind(&self) -> ClientType {
        self.client_type
    }

    /// A client with the given id and kind.
    pub fn new(id: u32, client_type: ClientType) -> (c: Client)
        ensures
            c.id() == id,
            c.kind() == client_type,
    {
        Client { id, client_type }
    }

    /// The client's id.
    pub fn get_id(&self) -> (r: u32)
        ensures
            r == self.id(),
    {
        self.id
    }
}

/// The text of the Error message that this parser reports for `MSG_ERROR`.
pub open spec fn illegal_msg() -> Seq<char> {
    seq!['i', 'l', 'l', 'e', 'g', 'a', 'l', ' ', 'm', 's', 'g']
}

/// A Plate body, as an option.
pub open spec fn any_plate(b: Seq<u8>) -> Option<MessageView> {
    match spec_parse_plate(b) {
        Ok(m) => Some(m),
        Err(_) => None,
    }
}

/// A Ticket body: a string, then road, mile1, timestamp1, mile2, timestamp2
/// and speed.
pub open spec fn any_ticket(b: Seq<u8>) -> Option<MessageView> {
    match spec_read_string(b, 0) {
        Err(_) => None,
        Ok((plate, c)) => if c + 16 > b.len() {
            None
        } else {
            Some(MessageView::Ticket(TicketView {
                plate,
                road: be16(b, c),
                mile1: be16(b, c + 2),
                timestamp1: be32(b, c + 4),
                mile2: be16(b, c + 8),
                timestamp2: be32(b, c + 10),
                speed: be16(b, c + 14),
            }))
        },
    }
}

/// A WantHeartbeat body: exactly four bytes.
pub open spec fn any_wantheartbeat(b: Seq<u8>) -> Option<MessageView> {
    if b.len() != 4 {
        None
    } else {
        Some(MessageView::WantHeartbeat(WantHeartbeat { interval: be32(b, 0) }))
    }
}

/// What this parser gives for a whole message, type byte included.
pub open spec fn spec_parse_any(d: Seq<u8>) -> Option<MessageView> {
    if d.len() < 1 {
        None
    } else if d[0] == MSG_ERROR {
        Some(MessageView::Error(illegal_msg()))
    } else if d[0] == MSG_PLATE {
        any_plate(d.skip(1))
    } else if d[0] == MSG_TICKET {
        any_ticket(d.skip(1))
    } else if d[0] == MSG_WANT_HEARTBEAT {
        any_wantheartbeat(d.skip(1))
    } else if d[0] == MSG_IAM_CAMERA {
        match spec_parse_iamcamera(d.skip(1)) {
            Ok(m) => Some(m),
            Err(_) => None,
        }
    } else if d[0] == MSG_IAM_DISPATCHER {
        match spec_parse_iamdispatcher(d.skip(1)) {
            Ok(m) => Some(m),
            Err(_) => None,
        }
    } else {
        None
    }
}

/// The view of an optional message.
pub open spec fn option_view(r: Option<Message>) -> Option<MessageView> {
    match r {
        Some(m) => Some(m@),
        None => None,
    }
}

fn parse_plate(data: &[u8]) -> (r: Option<Message>)
    ensures
        option_view(r) == any_plate(data@),
{
    let mut cursor: usize = 0;
    let plate = match read_string(data, &mut cursor) {
        Ok(s) => s,
        Err(_) => return None,
    };
    let timestamp = match read_u32_be(data, &mut cursor) {
        Ok(t) => t,
        Err(_) => return None,
    };
    Some(Message::Plate(Plate { plate, timestamp }))
}

fn parse_ticket(data: &[u8]) -> (r: Option<Message>)
    ensures
        option_view(r) == any_ticket(data@),
{
    let mut cursor: usize = 0;
    let plate = match read_string(data, &mut cursor) {
        Ok(s) => s,
        Err(_) => return None,
    };
    let ghost c = cursor as int;
    if cursor > data.len() || data.len() - cursor < 16 {
        return None;
    }
    let road = match read_u16_be(data, &mut cursor) {
        Ok(v) => v,
        Err(_) => return None,
    };
    let mile1 = match read_u16_be(data, &mut cursor) {
        Ok(v) => v,
        Err(_) => return None,
    };
    let timestamp1 = match read_u32_be(data, &mut cursor) {
        Ok(v) => v,
        Err(_) => return None,
    };
    let mile2 = match read_u16_be(data, &mut cursor) {
        Ok(v) => v,
        Err(_) => return None,
    };
    let timestamp2 = match read_u32_be(data, &mut cursor) {
        Ok(v) => v,
        Err(_) => return None,
    };
    let speed = match read_u16_be(data, &mut cursor) {
        Ok(v) => v,
        Err(_) => return None,
    };
    Some(Message::Ticket(Ticket { plate, road, mile1, timestamp1, mile2, timestamp2, speed }))
}

fn parse_wantheartbeat(data: &[u8]) -> (r: Option<Message>)
    ensures
        option_view(r) == any_wantheartbeat(data@),
{
    if data.len() != 4 {
        return None;
    }
    let mut cursor: usize = 0;
    let interval = match read_u32_be(data, &mut cursor) {
        Ok(v) => v,
        Err(_) => return None,
    };
    Some(Message::WantHeartbeat(WantHeartbeat { interval }))
}

fn parse_iamcamera(data: &[u8]) -> (r: Option<Message>)
    ensures
        option_view(r) == (match spec_parse_iamcamera(data@) {
            Ok(m) => Some(m),
            Err(_) => None::<MessageView>,
        }),
{
    let mut cursor: usize = 0;
    let road = match read_u16_be(data, &mut cursor) {
        Ok(v) => v,
        Err(_) => return None,
    };
    let mile = match read_u16_be(data, &mut cursor) {
        Ok(v) => v,
        Err(_) => return None,
    };
    let limit = match read_u16_be(data, &mut cursor) {
        Ok(v) => v,
        Err(_) => return None,
    };
    Some(Message::IAmCamera(IAmCamera { road, mile, limit }))
}

fn parse_iamdispatcher(data: &[u8]) -> (r: Option<Message>)
    ensures
        option_view(r) == (match spec_parse_iamdispatcher(data@) {
            Ok(m) => Some(m),
            Err(_) => None::<MessageView>,
        }),
{
    let mut roads: Vec<u16> = Vec::new();
    if data.len() < 1 {
        return None;
    }
    let numroads = data[0];
    let mut cursor: usize = 1;
    let mut i: u8 = 0;
    while i < numroads
        invariant
            i <= numroads,
            numroads == data@[0],
            data@.len() >= 1,
            cursor == 1 + 2 * i,
            cursor <= data@.len(),
            roads@ == spec_roads(data@, i as nat),
        decreases numroads - i,
    {
        let road = match read_u16_be(data, &mut cursor) {
            Ok(v) => v,
            Err(_) => return None,
        };
        roads.push(road);
        i = i + 1;
        assert(roads@ =~= spec_roads(data@, i as nat));
    }
    Some(Message::IAmDispatcher(IAmDispatcher { numroads, roads }))
}

/// Parse any protocol message, including server-to-client ones.
///
/// An Error message is read as the fixed text "illegal msg". Returns `None`
/// for an empty input, an unknown type or a malformed body.
pub fn parse(data: &[u8]) -> (r: Option<Message>)
    ensures
        option_view(r) == spec_parse_any(data@),
{
    if data.len() < 1 {
        return None;
    }
    let body = &data[1..data.len()];
    assert(body@ == data@.skip(1));
    let t = data[0];
    if t == MSG_ERROR {
        let msg = String::from_str("illegal msg");
        proof {
            reveal_strlit("illegal msg");
        }
        assert(msg@ =~= illegal_msg());
        Some(Message::Error(Error { msg }))
    } else if t == MSG_PLATE {
        parse_plate(body)
    } else if t == MSG_TICKET {
        parse_ticket(body)
    } else if t == MSG_WANT_HEARTBEAT {
        parse_wantheartbeat(body)
    } else if t == MSG_IAM_CAMERA {
        parse_iamcamera(body)
    } else if t == MSG_IAM_DISPATCHER {
        parse_iamdispatcher(body)
    } else {
        None
    }
}

/// Reading back the bytes of an encoded ticket gives the same ticket, for
/// plates whose UTF-8 form is shorter than 256 bytes.
pub proof fn lemma_ticket_roundtrip(t: TicketView)
    requires
        encode_utf8(t.plate).len() < 256,
    ensures
        spec_parse_any(spec_encode_ticket(t)) == Some(MessageView::Ticket(t)),
{
    let d = spec_encode_ticket(t);
    let b = d.skip(1);
    let p = encode_utf8(t.plate);
    let n: int = p.len() as int;
    assert(b[0] == n);
    assert(b.subrange(1, 1 + n) =~= p);
    encode_utf8_valid_utf8(t.plate);
    encode_utf8_decode_utf8(t.plate);
    let c: int = 1 + n;
    assert(b.len() == c + 16);
    assert(be16(b, c) == t.road);
    assert(be16(b, c + 2) == t.mile1);
    assert(be32(b, c + 4) == t.timestamp1);
    assert(be16(b, c + 8) == t.mile2);
    assert(be32(b, c + 10) == t.timestamp2);
    assert(be16(b, c + 14) == t.speed);
}

} // verus!
