//! Binary protocol of the speed camera system: message types, parsing of
//! client messages, framing of a byte stream, and encoding of server messages.
//!
//! All integers are big-endian. Strings are a length byte followed by that
//! many bytes of UTF-8.

use vstd::prelude::*;
use vstd::utf8::*;

use vstd::string::*;

use crate::text::{push_char, str_bytes, string_from_utf8};

verus! {

/// Error message sent by the server (server to client).
pub const MSG_ERROR: u8 = 0x10;
/// Plate observation (client to server).
pub const MSG_PLATE: u8 = 0x20;
/// Speeding ticket (server to client).
pub const MSG_TICKET: u8 = 0x21;
/// Heartbeat request (client to server).
pub const MSG_WANT_HEARTBEAT: u8 = 0x40;
/// Heartbeat (server to client).
pub const MSG_HEARTBEAT: u8 = 0x41;
/// Camera identification (client to server).
pub const MSG_IAM_CAMERA: u8 = 0x80;
/// Dispatcher identification (client to server).
pub const MSG_IAM_DISPATCHER: u8 = 0x81;

/// Errors that can occur when parsing binary protocol data.
#[derive(Debug, Clone, Copy, PartialEq, Eq, Structural)]
pub enum ParseError {
    /// Unknown or invalid message type byte.
    InvalidMessageType(u8),
    /// Not enough bytes available to complete parsing.
    InsufficientData,
    /// String data contains invalid UTF-8 sequences.
    InvalidUtf8,
    /// Data format doesn't match expected structure.
    InvalidFormat,
}

/// The lower-case hexadecimal digit of `v` (below 16).
pub open spec fn hex_digit(v: u8) -> char {
    if v < 10 {
        ((v + 48) as u8) as char
    } else {
        ((v + 87) as u8) as char
    }
}

/// The text that describes a parse error.
pub open spec fn parse_error_text(e: ParseError) -> Seq<char> {
    match e {
        ParseError::InvalidMessageType(t) => "Invalid message type: 0x"@ + seq![hex_digit(t / 16), hex_digit(t % 16)],
        ParseError::InsufficientData => "Insufficient data for parsing"@,
        ParseError::InvalidUtf8 => "Invalid UTF-8 in string data"@,
        ParseError::InvalidFormat => "Invalid data format"@,
    }
}

fn hex_char(v: u8) -> (c: char)
    requires
        v < 16,
    ensures
        c == hex_digit(v),
{
    if v < 10 {
        (v + 48) as char
    } else {
        (v + 87) as char
    }
}

impl ParseError {
    /// A description of the error for people, the type byte in hexadecimal.
    pub fn describe(&self) -> (r: String)
        ensures
            r@ == parse_error_text(*self),
    {
        match self {
            ParseError::InvalidMessageType(t) => {
                let mut s = String::from_str("Invalid message type: 0x");
                push_char(&mut s, hex_char(*t / 16));
                push_char(&mut s, hex_char(*t % 16));
                assert(s@ =~= parse_error_text(*self));
                s
            },
            ParseError::InsufficientData => String::from_str("Insufficient data for parsing"),
            ParseError::InvalidUtf8 => String::from_str("Invalid UTF-8 in string data"),
            ParseError::InvalidFormat => String::from_str("Invalid data format"),
        }
    }
}

/// An error message carried by `MSG_ERROR`.
#[derive(Debug, Clone, PartialEq, Eq)]
pub struct Error {
    pub msg: String,
}

/// A plate observed by a camera at a timestamp (seconds).
#[derive(Debug, Clone, PartialEq, Eq)]
pub struct Plate {
    pub plate: String,
    pub timestamp: u32,
}

/// A speeding ticket; `speed` is in hundredths of a mile per hour.
#[derive(Debug, Clone, PartialEq, Eq)]
pub struct Ticket {
    pub plate: String,
    pub road: u16,
    pub mile1: u16,
    pub timestamp1: u32,
    pub mile2: u16,
    pub timestamp2: u32,
    pub speed: u16,
}

impl Ticket {
    /// A copy of this ticket.
    pub fn duplicate(&self) -> (r: Ticket)
        ensures
            r@ == self@,
    {
        Ticket {
            plate: self.plate.clone(),
            road: self.road,
            mile1: self.mile1,
            timestamp1: self.timestamp1,
            mile2: self.mile2,
            timestamp2: self.timestamp2,
            speed: self.speed,
        }
    }
}

/// A request for heartbeats every `interval` deciseconds.
#[derive(Debug, Clone, Copy, PartialEq, Eq, Structural)]
pub struct WantHeartbeat {
    pub interval: u32,
}

/// A heartbeat.
#[derive(Debug, Clone, Copy, PartialEq, Eq, Structural)]
pub struct Heartbeat {}

/// A camera identifying itself: its road, its position and the speed limit.
#[derive(Debug, Clone, Copy, PartialEq, Eq, Structural)]
pub struct IAmCamera {
    pub road: u16,
    pub mile: u16,
    pub limit: u16,
}

/// A dispatcher identifying itself with the roads it handles.
#[derive(Debug, Clone, PartialEq, Eq)]
pub struct IAmDispatcher {
    pub numroads: u8,
    pub roads: Vec<u16>,
}

/// A protocol message.
#[derive(Debug, Clone, PartialEq, Eq)]
pub enum Message {
    Error(Error),
    Plate(Plate),
    Ticket(Ticket),
    WantHeartbeat(WantHeartbeat),
    IAmCamera(IAmCamera),
    IAmDispatcher(IAmDispatcher),
}

/// Mathematical value of a `Plate`.
pub struct PlateView {
    pub plate: Seq<char>,
    pub timestamp: u32,
}

/// Mathematical value of a `Ticket`.
pub struct TicketView {
    pub plate: Seq<char>,
    pub road: u16,
    pub mile1: u16,
    pub timestamp1: u32,
    pub mile2: u16,
    pub timestamp2: u32,
    pub speed: u16,
}

/// Mathematical value of an `IAmDispatcher`.
pub struct DispatcherView {
    pub numroads: u8,
    pub roads: Seq<u16>,
}

/// Mathematical value of a `Message`.
pub enum MessageView {
    Error(Seq<char>),
    Plate(PlateView),
    Ticket(TicketView),
    WantHeartbeat(WantHeartbeat),
    IAmCamera(IAmCamera),
    IAmDispatcher(DispatcherView),
}

impl View for Plate {
    type V = PlateView;

    open spec fn view(&self) -> PlateView {
        PlateView { plate: self.plate@, timestamp: self.timestamp }
    }
}

impl View for Ticket {
    type V = TicketView;

    open spec fn view(&self) -> TicketView {
        TicketView {
            plate: self.plate@,
            road: self.road,
            mile1: self.mile1,
            timestamp1: self.timestamp1,
            mile2: self.mile2,
            timestamp2: self.timestamp2,
            speed: self.speed,
        }
    }
}

impl View for IAmDispatcher {
    type V = DispatcherView;

    open spec fn view(&self) -> DispatcherView {
        DispatcherView { numroads: self.numroads, roads: self.roads@ }
    }
}

impl View for Message {
    type V = MessageView;

    open spec fn view(&self) -> MessageView {
        match self {
            Message::Error(e) => MessageView::Error(e.msg@),
            Message::Plate(p) => MessageView::Plate(p@),
            Message::Ticket(t) => MessageView::Ticket(t@),
            Message::WantHeartbeat(w) => MessageView::WantHeartbeat(*w),
            Message::IAmCamera(c) => MessageView::IAmCamera(*c),
            Message::IAmDispatcher(d) => MessageView::IAmDispatcher(d@),
        }
    }
}

/// The view of a parse result.
pub open spec fn result_view(r: Result<Message, ParseError>) -> Result<MessageView, ParseError> {
    match r {
        Ok(m) => Ok(m@),
        Err(e) => Err(e),
    }
}

/// Big-endian `u16` at `i`.
pub open spec fn be16(b: Seq<u8>, i: int) -> u16 {
    (b[i] as int * 256 + b[i + 1] as int) as u16
}

/// Big-endian `u32` at `i`.
pub open spec fn be32(b: Seq<u8>, i: int) -> u32 {
    (((b[i] as int * 256 + b[i + 1] as int) * 256 + b[i + 2] as int) * 256 + b[i + 3] as int) as u32
}

/// Reading a length-prefixed string at `c`: the string and the position after it.
pub open spec fn spec_read_string(b: Seq<u8>, c: int) -> Result<(Seq<char>, int), ParseError> {
    if c >= b.len() {
        Err(ParseError::InsufficientData)
    } else if c + 1 + b[c] > b.len() {
        Err(ParseError::InsufficientData)
    } else if !valid_utf8(b.subrange(c + 1, c + 1 + b[c])) {
        Err(ParseError::InvalidUtf8)
    } else {
        Ok((decode_utf8(b.subrange(c + 1, c + 1 + b[c])), c + 1 + b[c]))
    }
}

/// The body of a Plate message: a string, then a `u32` timestamp.
pub open spec fn spec_parse_plate(b: Seq<u8>) -> Result<MessageView, ParseError> {
    match spec_read_string(b, 0) {
        Err(e) => Err(e),
        Ok((plate, c)) => if c + 4 > b.len() {
            Err(ParseError::InsufficientData)
        } else {
            Ok(MessageView::Plate(PlateView { plate, timestamp: be32(b, c) }))
        },
    }
}

/// The body of a WantHeartbeat message: a `u32` interval.
pub open spec fn spec_parse_wantheartbeat(b: Seq<u8>) -> Result<MessageView, ParseError> {
    if b.len() < 4 {
        Err(ParseError::InsufficientData)
    } else {
        Ok(MessageView::WantHeartbeat(WantHeartbeat { interval: be32(b, 0) }))
    }
}

/// The body of an IAmCamera message: road, mile and limit as `u16`.
pub open spec fn spec_parse_iamcamera(b: Seq<u8>) -> Result<MessageView, ParseError> {
    if b.len() < 6 {
        Err(ParseError::InsufficientData)
    } else {
        Ok(MessageView::IAmCamera(IAmCamera { road: be16(b, 0), mile: be16(b, 2), limit: be16(b, 4) }))
    }
}

/// The roads of an IAmDispatcher body: `n` big-endian `u16` after the count byte.
pub open spec fn spec_roads(b: Seq<u8>, n: nat) -> Seq<u16> {
    Seq::new(n, |i: int| be16(b, 1 + 2 * i))
}

/// The body of an IAmDispatcher message: a count byte, then that many roads.
pub open spec fn spec_parse_iamdispatcher(b: Seq<u8>) -> Result<MessageView, ParseError> {
    if b.len() < 1 {
        Err(ParseError::InsufficientData)
    } else if b.len() < 1 + 2 * b[0] {
        Err(ParseError::InsufficientData)
    } else {
        Ok(MessageView::IAmDispatcher(DispatcherView { numroads: b[0], roads: spec_roads(b, b[0] as nat) }))
    }
}

/// What `parse` gives for a whole message, type byte included.
pub open spec fn spec_parse(d: Seq<u8>) -> Result<MessageView, ParseError> {
    if d.len() == 0 {
        Err(ParseError::InsufficientData)
    } else if d[0] == MSG_PLATE {
        spec_parse_plate(d.skip(1))
    } else if d[0] == MSG_WANT_HEARTBEAT {
        spec_parse_wantheartbeat(d.skip(1))
    } else if d[0] == MSG_IAM_CAMERA {
        spec_parse_iamcamera(d.skip(1))
    } else if d[0] == MSG_IAM_DISPATCHER {
        spec_parse_iamdispatcher(d.skip(1))
    } else {
        Err(ParseError::InvalidMessageType(d[0]))
    }
}

/// Read a big-endian `u16` at the cursor, advancing it by 2 bytes on success.
pub(crate) fn read_u16_be(data: &[u8], cursor: &mut usize) -> (r: Result<u16, ParseError>)
    ensures
        *old(cursor) + 2 <= data@.len() ==> r == Ok::<u16, ParseError>(be16(data@, *old(cursor) as int))
            && *final(cursor) == *old(cursor) + 2,
        *old(cursor) + 2 > data@.len() ==> r == Err::<u16, ParseError>(ParseError::InsufficientData),
{
    if *cursor > data.len() || data.len() - *cursor < 2 {
        return Err(ParseError::InsufficientData);
    }
    let c = *cursor;
    let v = (data[c] as u16) * 256 + (data[c + 1] as u16);
    *cursor = c + 2;
    Ok(v)
}

/// Read a big-endian `u32` at the cursor, advancing it by 4 bytes on success.
pub(crate) fn read_u32_be(data: &[u8], cursor: &mut usize) -> (r: Result<u32, ParseError>)
    ensures
        *old(cursor) + 4 <= data@.len() ==> r == Ok::<u32, ParseError>(be32(data@, *old(cursor) as int))
            && *final(cursor) == *old(cursor) + 4,
        *old(cursor) + 4 > data@.len() ==> r == Err::<u32, ParseError>(ParseError::InsufficientData),
{
    if *cursor > data.len() || data.len() - *cursor < 4 {
        return Err(ParseError::InsufficientData);
    }
    let c = *cursor;
    let v = (((data[c] as u32) * 256 + (data[c + 1] as u32)) * 256 + (data[c + 2] as u32)) * 256
        + (data[c + 3] as u32);
    *cursor = c + 4;
    Ok(v)
}

/// Read a length-prefixed string (`[length: u8][bytes; length]`) at the cursor,
/// advancing it by `1 + length` bytes on success.
pub(crate) fn read_string(data: &[u8], cursor: &mut usize) -> (r: Result<String, ParseError>)
    ensures
        match spec_read_string(data@, *old(cursor) as int) {
            Ok((s, c)) => r matches Ok(v) && v@ == s && *final(cursor) == c,
            Err(e) => r == Err::<String, ParseError>(e),
        },
{
    if *cursor >= data.len() {
        return Err(ParseError::InsufficientData);
    }
    let len = data[*cursor] as usize;
    let start = *cursor + 1;
    if len > data.len() - start {
        return Err(ParseError::InsufficientData);
    }
    let bytes = vstd::slice::slice_to_vec(&data[start..start + len]);
    *cursor = start + len;
    match string_from_utf8(bytes) {
        Some(s) => Ok(s),
        None => Err(ParseError::InvalidUtf8),
    }
}

/// Parse a Plate message body.
fn parse_plate(data: &[u8]) -> (r: Result<Message, ParseError>)
    ensures
        result_view(r) == spec_parse_plate(data@),
{
    let mut cursor: usize = 0;
    let plate = match read_string(data, &mut cursor) {
        Ok(s) => s,
        Err(e) => return Err(e),
    };
    let timestamp = match read_u32_be(data, &mut cursor) {
        Ok(t) => t,
        Err(e) => return Err(e),
    };
    Ok(Message::Plate(Plate { plate, timestamp }))
}

/// Parse a WantHeartbeat message body.
fn parse_wantheartbeat(data: &[u8]) -> (r: Result<Message, ParseError>)
    ensures
        result_view(r) == spec_parse_wantheartbeat(data@),
{
    let mut cursor: usize = 0;
    let interval = match read_u32_be(data, &mut cursor) {
        Ok(t) => t,
        Err(e) => return Err(e),
    };
    Ok(Message::WantHeartbeat(WantHeartbeat { interval }))
}

/// Parse an IAmCamera message body.
fn parse_iamcamera(data: &[u8]) -> (r: Result<Message, ParseError>)
    ensures
        result_view(r) == spec_parse_iamcamera(data@),
{
    let mut cursor: usize = 0;
    let road = match read_u16_be(data, &mut cursor) {
        Ok(v) => v,
        Err(e) => return Err(e),
    };
    let mile = match read_u16_be(data, &mut cursor) {
        Ok(v) => v,
        Err(e) => return Err(e),
    };
    let limit = match read_u16_be(data, &mut cursor) {
        Ok(v) => v,
        Err(e) => return Err(e),
    };
    Ok(Message::IAmCamera(IAmCamera { road, mile, limit }))
}

/// Parse an IAmDispatcher message body.
fn parse_iamdispatcher(data: &[u8]) -> (r: Result<Message, ParseError>)
    ensures
        result_view(r) == spec_parse_iamdispatcher(data@),
{
    let mut roads: Vec<u16> = Vec::new();
    if data.len() < 1 {
        return Err(ParseError::InsufficientData);
    }
    let numroads = data[0];
    let mut cursor: usize = 1;
    let mut i: u8 = 0;
    while i < numroads
        invariant
            i <= numroads,
            numroads == data@[0],
            data@.len() >= 1,
            cursor == 1 + 2 * i,
            cursor <= data@.len(),
            roads@ == spec_roads(data@, i as nat),
        decreases numroads - i,
    {
        let road = match read_u16_be(data, &mut cursor) {
            Ok(v) => v,
            Err(e) => return Err(e),
        };
        roads.push(road);
        i = i + 1;
        assert(roads@ =~= spec_roads(data@, i as nat));
    }
    Ok(Message::IAmDispatcher(IAmDispatcher { numroads, roads }))
}

/// Parse a complete message from binary data, type byte included.
///
/// Clients may not send Error or Ticket messages: those types, and any
/// unknown type, give `InvalidMessageType`.
pub fn parse(data: &[u8]) -> (r: Result<Message, ParseError>)
    ensures
        result_view(r) == spec_parse(data@),
{
    if data.len() == 0 {
        return Err(ParseError::InsufficientData);
    }
    let body = &data[1..data.len()];
    assert(body@ == data@.skip(1));
    let t = data[0];
    if t == MSG_ERROR {
        Err(ParseError::InvalidMessageType(MSG_ERROR))
    } else if t == MSG_PLATE {
        parse_plate(body)
    } else if t == MSG_TICKET {
        Err(ParseError::InvalidMessageType(MSG_TICKET))
    } else if t == MSG_WANT_HEARTBEAT {
        parse_wantheartbeat(body)
    } else if t == MSG_IAM_CAMERA {
        parse_iamcamera(body)
    } else if t == MSG_IAM_DISPATCHER {
        parse_iamdispatcher(body)
    } else {
        Err(ParseError::InvalidMessageType(t))
    }
}

/// The view of a framing result.
pub open spec fn frame_view(r: Result<(Message, usize), ParseError>) -> Result<(MessageView, nat), ParseError> {
    match r {
        Ok((m, n)) => Ok((m@, n as nat)),
        Err(e) => Err(e),
    }
}

/// Parses `d` as a message of `n` bytes.
pub open spec fn spec_frame_of(d: Seq<u8>, n: nat) -> Result<(MessageView, nat), ParseError> {
    match spec_parse(d) {
        Ok(m) => Ok((m, n)),
        Err(e) => Err(e),
    }
}

/// The number of bytes that the message at the front of `d` needs, where its
/// type byte (and, for variable-length messages, its length byte) is there.
pub open spec fn spec_frame_len(d: Seq<u8>) -> nat
    recommends
        d.len() >= 1,
{
    if d[0] == MSG_PLATE {
        (1 + 1 + d[1] + 4) as nat
    } else if d[0] == MSG_WANT_HEARTBEAT {
        5
    } else if d[0] == MSG_IAM_CAMERA {
        7
    } else if d[0] == MSG_IAM_DISPATCHER {
        (1 + 1 + 2 * d[1]) as nat
    } else {
        1
    }
}

/// What `try_parse_message` gives: the first message of a byte stream and how
/// many bytes it takes, or `InsufficientData` while the message is incomplete.
pub open spec fn spec_try_parse(d: Seq<u8>) -> Result<(MessageView, nat), ParseError> {
    if d.len() == 0 {
        Err(ParseError::InsufficientData)
    } else if (d[0] == MSG_PLATE || d[0] == MSG_IAM_DISPATCHER) && d.len() < 2 {
        Err(ParseError::InsufficientData)
    } else if (d[0] == MSG_PLATE || d[0] == MSG_WANT_HEARTBEAT || d[0] == MSG_IAM_CAMERA
        || d[0] == MSG_IAM_DISPATCHER) && d.len() < spec_frame_len(d) {
        Err(ParseError::InsufficientData)
    } else {
        spec_frame_of(d, spec_frame_len(d))
    }
}

/// Split the next message off the front of a byte stream.
///
/// Returns the message and the number of bytes it occupies, or
/// `InsufficientData` when more bytes are needed, or the parse error.
pub fn try_parse_message(data: &[u8]) -> (r: Result<(Message, usize), ParseError>)
    ensures
        frame_view(r) == spec_try_parse(data@),
{
    if data.len() == 0 {
        return Err(ParseError::InsufficientData);
    }
    let message_type = data[0];
    if message_type == MSG_PLATE {
        if data.len() < 2 {
            return Err(ParseError::InsufficientData);
        }
        let required_len = 1 + 1 + data[1] as usize + 4;
        if data.len() < required_len {
            return Err(ParseError::InsufficientData);
        }
        match parse(data) {
            Ok(m) => Ok((m, required_len)),
            Err(e) => Err(e),
        }
    } else if message_type == MSG_WANT_HEARTBEAT {
        let required_len: usize = 1 + 4;
        if data.len() < required_len {
            return Err(ParseError::InsufficientData);
        }
        match parse(data) {
            Ok(m) => Ok((m, required_len)),
            Err(e) => Err(e),
        }
    } else if message_type == MSG_IAM_CAMERA {
        let required_len: usize = 1 + 2 + 2 + 2;
        if data.len() < required_len {
            return Err(ParseError::InsufficientData);
        }
        match parse(data) {
            Ok(m) => Ok((m, required_len)),
            Err(e) => Err(e),
        }
    } else if message_type == MSG_IAM_DISPATCHER {
        if data.len() < 2 {
            return Err(ParseError::InsufficientData);
        }
        let required_len = 1 + 1 + 2 * (data[1] as usize);
        if data.len() < required_len {
            return Err(ParseError::InsufficientData);
        }
        match parse(data) {
            Ok(m) => Ok((m, required_len)),
            Err(e) => Err(e),
        }
    } else {
        match parse(data) {
            Ok(m) => Ok((m, 1)),
            Err(e) => Err(e),
        }
    }
}

/// A message that is complete at the front of a byte stream is read the same,
/// with the same length, whatever bytes follow it; only `InsufficientData`
/// depends on what is still to come. A message takes at least one byte and
/// no more than the stream holds.
pub proof fn lemma_try_parse_prefix_stable(d: Seq<u8>, e: Seq<u8>)
    requires
        spec_try_parse(d) != Err::<(MessageView, nat), ParseError>(ParseError::InsufficientData),
    ensures
        spec_try_parse(d + e) == spec_try_parse(d),
        spec_try_parse(d) matches Ok((_, n)) ==> 1 <= n <= d.len(),
{
    let de = d + e;
    assert(d.len() > 0);
    assert(de[0] == d[0]);
    if d.len() >= 2 {
        assert(de[1] == d[1]);
    }
    let b = d.skip(1);
    let b2 = de.skip(1);
    assert forall|i: int| 0 <= i < b.len() implies b2[i] == b[i] by {
        assert(b2[i] == de[i + 1]);
        assert(de[i + 1] == d[i + 1]);
    }
    if d[0] == MSG_PLATE {
        assert(b2[0] == b[0]);
        assert(b.subrange(1, 1 + b[0]) =~= b2.subrange(1, 1 + b2[0]));
        let c = 1 + b[0];
        assert(b2[c] == b[c] && b2[c + 1] == b[c + 1] && b2[c + 2] == b[c + 2] && b2[c + 3] == b[c + 3]);
        assert(spec_parse_plate(b2) == spec_parse_plate(b));
    } else if d[0] == MSG_WANT_HEARTBEAT {
        assert(b2[0] == b[0] && b2[1] == b[1] && b2[2] == b[2] && b2[3] == b[3]);
    } else if d[0] == MSG_IAM_CAMERA {
        assert(b2[0] == b[0] && b2[1] == b[1] && b2[2] == b[2] && b2[3] == b[3]);
        assert(b2[4] == b[4] && b2[5] == b[5]);
    } else if d[0] == MSG_IAM_DISPATCHER {
        assert(b2[0] == b[0]);
        assert(spec_roads(b2, b[0] as nat) =~= spec_roads(b, b[0] as nat)) by {
            assert forall|i: int| 0 <= i < b[0] implies #[trigger] be16(b2, 1 + 2 * i) == be16(b, 1 + 2 * i) by {
                assert(b2[1 + 2 * i] == b[1 + 2 * i]);
                assert(b2[2 + 2 * i] == b[2 + 2 * i]);
            }
        }
        assert(spec_parse_iamdispatcher(b2) == spec_parse_iamdispatcher(b));
    }
}

/// Big-endian bytes of a `u16`.
pub open spec fn be16_bytes(v: u16) -> Seq<u8> {
    seq![(v / 256) as u8, (v % 256) as u8]
}

/// Big-endian bytes of a `u32`.
pub open spec fn be32_bytes(v: u32) -> Seq<u8> {
    seq![(v / 0x100_0000) as u8, ((v / 0x1_0000) % 256) as u8, ((v / 256) % 256) as u8, (v % 256) as u8]
}

/// The wire form of a ticket. The plate's length byte is its UTF-8 length
/// modulo 256.
pub open spec fn spec_encode_ticket(t: TicketView) -> Seq<u8> {
    seq![MSG_TICKET, (encode_utf8(t.plate).len() % 256) as u8] + encode_utf8(t.plate)
        + be16_bytes(t.road) + be16_bytes(t.mile1) + be32_bytes(t.timestamp1)
        + be16_bytes(t.mile2) + be32_bytes(t.timestamp2) + be16_bytes(t.speed)
}

fn push_be16(out: &mut Vec<u8>, v: u16)
    ensures
        final(out)@ == old(out)@ + be16_bytes(v),
{
    out.push((v / 256) as u8);
    out.push((v % 256) as u8);
}

fn push_be32(out: &mut Vec<u8>, v: u32)
    ensures
        final(out)@ == old(out)@ + be32_bytes(v),
{
    out.push((v / 0x100_0000) as u8);
    out.push(((v / 0x1_0000) % 256) as u8);
    out.push(((v / 256) % 256) as u8);
    out.push((v % 256) as u8);
}

fn push_all(out: &mut Vec<u8>, bytes: &Vec<u8>)
    ensures
        final(out)@ == old(out)@ + bytes@,
{
    let ghost start = out@;
    let mut i: usize = 0;
    while i < bytes.len()
        invariant
            i <= bytes@.len(),
            out@ == start + bytes@.subrange(0, i as int),
        decreases bytes@.len() - i,
    {
        out.push(bytes[i]);
        i = i + 1;
        assert(out@ =~= start + bytes@.subrange(0, i as int));
    }
    assert(bytes@.subrange(0, i as int) =~= bytes@);
}

/// Serialize a ticket into the binary protocol format, as sent to a dispatcher.
pub fn encode_ticket(ticket: &Ticket) -> (r: Vec<u8>)
    ensures
        r@ == spec_encode_ticket(ticket@),
{
    let plate = str_bytes(ticket.plate.as_str());
    let mut data: Vec<u8> = Vec::new();
    data.push(MSG_TICKET);
    data.push((plate.len() % 256) as u8);
    push_all(&mut data, &plate);
    push_be16(&mut data, ticket.road);
    push_be16(&mut data, ticket.mile1);
    push_be32(&mut data, ticket.timestamp1);
    push_be16(&mut data, ticket.mile2);
    push_be32(&mut data, ticket.timestamp2);
    push_be16(&mut data, ticket.speed);
    assert(data@ =~= spec_encode_ticket(ticket@));
    data
}

/// The wire form of an error message: the type byte, one byte holding the
/// message's UTF-8 length modulo 256, then the message's UTF-8 bytes.
pub open spec fn spec_error_frame(msg: Seq<char>) -> Seq<u8> {
    seq![MSG_ERROR, (encode_utf8(msg).len() % 256) as u8] + encode_utf8(msg)
}

/// The bytes of an Error message carrying `msg`.
pub fn error_frame(msg: &str) -> (r: Vec<u8>)
    ensures
        r@ == spec_error_frame(msg@),
{
    let text = str_bytes(msg);
    let mut data: Vec<u8> = Vec::new();
    data.push(MSG_ERROR);
    data.push((text.len() % 256) as u8);
    push_all(&mut data, &text);
    assert(data@ =~= spec_error_frame(msg@));
    data
}

/// The bytes of a Heartbeat message.
pub fn heartbeat_frame() -> (r: Vec<u8>)
    ensures
        r@ == seq![MSG_HEARTBEAT],
{
    let mut v: Vec<u8> = Vec::new();
    v.push(MSG_HEARTBEAT);
    v
}

/// The number of bytes a message takes on the wire, type byte included.
pub open spec fn encoded_len(m: MessageView) -> nat {
    match m {
        MessageView::Error(msg) => spec_error_frame(msg).len(),
        MessageView::Plate(p) => 6 + encode_utf8(p.plate).len(),
        MessageView::Ticket(t) => spec_encode_ticket(t).len(),
        MessageView::WantHeartbeat(_) => 5,
        MessageView::IAmCamera(_) => 7,
        MessageView::IAmDispatcher(d) => 2 + 2 * d.roads.len(),
    }
}

/// A message is only read once all of it is there: when `d` parses as a
/// message, the message fits in `d`, and every shorter prefix of its
/// encoding gives `InsufficientData`.
pub proof fn lemma_parse_needs_whole_message(d: Seq<u8>, k: int)
    requires
        spec_parse(d) is Ok,
        0 <= k < encoded_len(spec_parse(d)->Ok_0),
    ensures
        encoded_len(spec_parse(d)->Ok_0) <= d.len(),
        spec_parse(d.take(k)) == Err::<MessageView, ParseError>(ParseError::InsufficientData),
{
    let t = d.take(k);
    let bb = d.skip(1);
    if d[0] == MSG_PLATE {
        let raw = bb.subrange(1, 1 + bb[0]);
        vstd::utf8::decode_utf8_encode_utf8(raw);
        assert(encode_utf8(decode_utf8(raw)).len() == bb[0]);
    }
    assert(encoded_len(spec_parse(d)->Ok_0) <= d.len());
    if k > 0 {
        let b = t.skip(1);
        assert(t[0] == d[0]);
        assert forall|i: int| 0 <= i < b.len() implies b[i] == bb[i] by {
            assert(b[i] == t[i + 1]);
        }
        assert(b.len() == k - 1);
        if d[0] == MSG_PLATE {
            let l = bb[0];
            let raw = bb.subrange(1, 1 + l);
            if b.len() > 0 {
                assert(b[0] == l);
                if 1 + l <= b.len() {
                    assert(b.subrange(1, 1 + l) =~= raw);
                }
            }
        } else if d[0] == MSG_IAM_DISPATCHER {
            if b.len() > 0 {
                assert(b[0] == bb[0]);
            }
        }
    }
}

} // verus!
