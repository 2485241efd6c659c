//! Speed Camera System server logic.
//!
//! Coordinates speed limit enforcement: cameras report plate observations,
//! the server detects drivers that went over the limit between two cameras
//! on the same road, and tickets go to a dispatcher for that road (or wait
//! in a queue until one connects). The server state is held here; a network
//! driver feeds it connections and messages and carries out the actions it
//! returns.

use std::collections::{HashMap, HashSet};

use vstd::prelude::*;
use vstd::utf8::*;
use vstd::string::*;

use crate::client::{
    fresh_client_state, ClientState, ClientStateView, ClientType, ClientTypeView,
};
use crate::db::{ObservationView, PlateObservation};
use crate::order::{bytes_lt, lemma_lex_irreflexive, lemma_lex_total, lemma_lex_transitive, lex_lt};
use crate::protocol::{
    lemma_try_parse_prefix_stable, parse_error_text, spec_try_parse, try_parse_message, DispatcherView, IAmCamera, Message,
    MessageView, ParseError,
    Plate, PlateView, Ticket, TicketView,
};
use crate::text::str_bytes;

verus! {

broadcast use vstd::std_specs::hash::group_hash_axioms;

/// Violations of the protocol by a client.
#[derive(Debug, Clone, Copy, PartialEq, Eq, Structural)]
pub enum ProtocolError {
    ParseError(ParseError),
    IllegalMessage,
    AlreadyIdentified,
    NotIdentified,
    DuplicateHeartbeatRequest,
}

impl From<ParseError> for ProtocolError {
    fn from(err: ParseError) -> (r: ProtocolError) {
        ProtocolError::ParseError(err)
    }
}

impl vstd::std_specs::convert::FromSpecImpl<ParseError> for ProtocolError {
    open spec fn obeys_from_spec() -> bool {
        true
    }

    open spec fn from_spec(err: ParseError) -> ProtocolError {
        ProtocolError::ParseError(err)
    }
}

/// The text that describes a protocol error.
pub open spec fn protocol_error_text(e: ProtocolError) -> Seq<char> {
    match e {
        ProtocolError::ParseError(p) => "Parse error: "@ + parse_error_text(p),
        ProtocolError::IllegalMessage => "Illegal message"@,
        ProtocolError::AlreadyIdentified => "Client already identified"@,
        ProtocolError::NotIdentified => "Client not identified"@,
        ProtocolError::DuplicateHeartbeatRequest => "Duplicate heartbeat request"@,
    }
}

impl ProtocolError {
    /// A description of the error for people.
    pub fn describe(&self) -> (r: String)
        ensures
            r@ == protocol_error_text(*self),
    {
        match self {
            ProtocolError::ParseError(p) => {
                let mut s = String::from_str("Parse error: ");
                let d = p.describe();
                s.append(d.as_str());
                s
            },
            ProtocolError::IllegalMessage => String::from_str("Illegal message"),
            ProtocolError::AlreadyIdentified => String::from_str("Client already identified"),
            ProtocolError::NotIdentified => String::from_str("Client not identified"),
            ProtocolError::DuplicateHeartbeatRequest => String::from_str("Duplicate heartbeat request"),
        }
    }
}

/// Whether a client in state `st` may send `m`, and if not, why.
pub open spec fn spec_validate(m: MessageView, st: ClientStateView) -> Option<ProtocolError> {
    match m {
        MessageView::Plate(_) => match st.client_type {
            Some(ClientTypeView::Camera { .. }) => None,
            _ => Some(ProtocolError::NotIdentified),
        },
        MessageView::IAmCamera(_) | MessageView::IAmDispatcher(_) => if st.client_type is Some {
            Some(ProtocolError::AlreadyIdentified)
        } else {
            None
        },
        MessageView::WantHeartbeat(_) => if st.has_heartbeat {
            Some(ProtocolError::DuplicateHeartbeatRequest)
        } else {
            None
        },
        _ => None,
    }
}

/// Check a message against the sender's state: only cameras send plates,
/// a client identifies itself once, and asks for heartbeats once.
/// An accepted message is handed back unchanged.
pub fn validate_message(message: Message, client_state: &ClientState) -> (r: Result<Message, ProtocolError>)
    ensures
        match spec_validate(message@, client_state@) {
            None => r matches Ok(m) && m@ == message@,
            Some(e) => r == Err::<Message, ProtocolError>(e),
        },
{
    match &message {
        Message::Plate(_) => match &client_state.client_type {
            Some(ClientType::Camera { .. }) => Ok(message),
            _ => Err(ProtocolError::NotIdentified),
        },
        Message::IAmCamera(_) | Message::IAmDispatcher(_) => if client_state.client_type.is_some() {
            Err(ProtocolError::AlreadyIdentified)
        } else {
            Ok(message)
        },
        Message::WantHeartbeat(_) => if client_state.has_heartbeat {
            Err(ProtocolError::DuplicateHeartbeatRequest)
        } else {
            Ok(message)
        },
        _ => Ok(message),
    }
}

/// Errors from processing an accepted message.
#[derive(Debug, Clone, Copy, PartialEq, Eq, Structural)]
pub enum ProcessError {
    /// The connection is not known to the server.
    ClientStateNotFound,
    /// A plate came from a client that has no id yet.
    NotFullyIdentified,
    /// A plate came from a client that is not a camera.
    NotACamera,
    /// Heartbeats were requested twice.
    DuplicateHeartbeatRequest,
    /// A message that clients do not send (Error, Ticket).
    UnexpectedMessageType,
}

/// The text that describes a processing error.
pub open spec fn process_error_text(e: ProcessError) -> Seq<char> {
    match e {
        ProcessError::ClientStateNotFound => "Client state not found"@,
        ProcessError::NotFullyIdentified => "Client not fully identified"@,
        ProcessError::NotACamera => "Client is not a camera"@,
        ProcessError::DuplicateHeartbeatRequest => "Duplicate heartbeat request"@,
        ProcessError::UnexpectedMessageType => "Unexpected message type"@,
    }
}

impl ProcessError {
    /// A description of the error for people.
    pub fn describe(&self) -> (r: String)
        ensures
            r@ == process_error_text(*self),
    {
        match self {
            ProcessError::ClientStateNotFound => String::from_str("Client state not found"),
            ProcessError::NotFullyIdentified => String::from_str("Client not fully identified"),
            ProcessError::NotACamera => String::from_str("Client is not a camera"),
            ProcessError::DuplicateHeartbeatRequest => String::from_str("Duplicate heartbeat request"),
            ProcessError::UnexpectedMessageType => String::from_str("Unexpected message type"),
        }
    }
}

/// What the network driver must do after a message was processed.
#[derive(Debug)]
pub enum Action {
    /// Send the ticket to the dispatcher on this connection.
    SendTicket { dispatcher: u64, ticket: Ticket },
    /// Start sending heartbeats to the sender every `interval` deciseconds.
    StartHeartbeat { interval: u32 },
}

/// Mathematical value of an `Action`.
pub enum ActionView {
    SendTicket { dispatcher: u64, ticket: TicketView },
    StartHeartbeat { interval: u32 },
}

impl View for Action {
    type V = ActionView;

    open spec fn view(&self) -> ActionView {
        match self {
            Action::SendTicket { dispatcher, ticket } => ActionView::SendTicket {
                dispatcher: *dispatcher,
                ticket: ticket@,
            },
            Action::StartHeartbeat { interval } => ActionView::StartHeartbeat { interval: *interval },
        }
    }
}

/// The views of a list of actions.
pub open spec fn actions_view(a: Seq<Action>) -> Seq<ActionView> {
    a.map_values(|x: Action| x@)
}

/// One day on one road on which a plate has been ticketed.
pub struct IssuedDay {
    plate: String,
    road: u16,
    day: u32,
}

/// A ticketed (plate, road, day).
pub type IssuedKey = (Seq<char>, u16, u32);

/// The state of the speed camera server.
///
/// Connections are named by a number that the network driver chooses.
pub struct Server {
    clients: HashMap<u64, ClientState>,
    plates: Vec<PlateObservation>,
    dispatchers: HashMap<u16, Vec<u64>>,
    dispatcher_streams: HashSet<u64>,
    ticket_queue: HashMap<u16, Vec<Ticket>>,
    issued_tickets: Vec<IssuedDay>,
    next_id: u32,
}

/// Mathematical value of a `Server`.
pub struct ServerView {
    /// The state of each open connection.
    pub clients: Map<u64, ClientStateView>,
    /// All observations, in increasing (plate, timestamp) order, one per key.
    pub plates: Seq<ObservationView>,
    /// The dispatchers registered for each road, in registration order.
    pub dispatchers: Map<u16, Seq<u64>>,
    /// The connections that are registered as dispatchers.
    pub dispatcher_streams: Set<u64>,
    /// Tickets waiting for a dispatcher, per road.
    pub ticket_queue: Map<u16, Seq<TicketView>>,
    /// The days already covered by a ticket, in the order they were recorded.
    pub issued: Seq<IssuedKey>,
    /// The id that the next client to identify itself gets.
    pub next_id: u32,
}

impl View for Server {
    type V = ServerView;

    closed spec fn view(&self) -> ServerView {
        ServerView {
            clients: self.clients@.map_values(|c: ClientState| c@),
            plates: self.plates@.map_values(|o: PlateObservation| o@),
            dispatchers: self.dispatchers@.map_values(|v: Vec<u64>| v@),
            dispatcher_streams: self.dispatcher_streams@,
            ticket_queue: self.ticket_queue@.map_values(|v: Vec<Ticket>| v@.map_values(|t: Ticket| t@)),
            issued: self.issued_tickets@.map_values(|d: IssuedDay| (d.plate@, d.road, d.day)),
            next_id: self.next_id,
        }
    }
}

/// `a` comes before `b` in (plate, timestamp) order, plates compared as
/// UTF-8 bytes.
pub open spec fn plate_key_lt(a: PlateView, b: PlateView) -> bool {
    lex_lt(encode_utf8(a.plate), encode_utf8(b.plate)) || (a.plate == b.plate && a.timestamp < b.timestamp)
}

/// `a` and `b` have the same (plate, timestamp) key.
pub open spec fn same_key(a: PlateView, b: PlateView) -> bool {
    a.plate == b.plate && a.timestamp == b.timestamp
}

/// Observations in strictly increasing key order.
pub open spec fn sorted_observations(s: Seq<ObservationView>) -> bool {
    forall|i: int, j: int| 0 <= i < j < s.len() ==> plate_key_lt(#[trigger] s[i].plate, #[trigger] s[j].plate)
}

/// The number of leading observations whose key comes before `p`.
pub open spec fn insert_position(s: Seq<ObservationView>, p: PlateView) -> nat
    decreases s.len(),
{
    if s.len() == 0 {
        0
    } else if plate_key_lt(s[0].plate, p) {
        1 + insert_position(s.drop_first(), p)
    } else {
        0
    }
}

/// The observations after recording `o`: it replaces the observation with the
/// same key, or is inserted in key order.
pub open spec fn insert_observation(s: Seq<ObservationView>, o: ObservationView) -> Seq<ObservationView> {
    let i = insert_position(s, o.plate);
    if i < s.len() && same_key(s[i as int].plate, o.plate) {
        s.update(i as int, o)
    } else {
        s.insert(i as int, o)
    }
}

/// Well-formedness of the server state.
pub open spec fn server_wf(v: ServerView) -> bool {
    &&& sorted_observations(v.plates)
    &&& v.issued.no_duplicates()
}

proof fn lemma_plate_key_transitive(a: PlateView, b: PlateView, c: PlateView)
    requires
        plate_key_lt(a, b),
        plate_key_lt(b, c),
    ensures
        plate_key_lt(a, c),
{
    let (ea, eb, ec) = (encode_utf8(a.plate), encode_utf8(b.plate), encode_utf8(c.plate));
    if lex_lt(ea, eb) && lex_lt(eb, ec) {
        lemma_lex_transitive(ea, eb, ec);
    }
}

proof fn lemma_plate_key_total(a: PlateView, b: PlateView)
    ensures
        plate_key_lt(a, b) || plate_key_lt(b, a) || same_key(a, b),
{
    let (ea, eb) = (encode_utf8(a.plate), encode_utf8(b.plate));
    lemma_lex_total(ea, eb);
    if ea =~= eb {
        encode_utf8_decode_utf8(a.plate);
        encode_utf8_decode_utf8(b.plate);
        assert(a.plate == b.plate);
    }
}

proof fn lemma_plate_key_irreflexive(a: PlateView, b: PlateView)
    requires
        same_key(a, b),
    ensures
        !plate_key_lt(a, b),
        !plate_key_lt(b, a),
{
    lemma_lex_irreflexive(encode_utf8(a.plate));
}

proof fn lemma_insert_position(s: Seq<ObservationView>, p: PlateView)
    requires
        sorted_observations(s),
    ensures
        insert_position(s, p) <= s.len(),
        forall|j: int| 0 <= j < insert_position(s, p) ==> plate_key_lt(#[trigger] s[j].plate, p),
        insert_position(s, p) < s.len() ==> !plate_key_lt(s[insert_position(s, p) as int].plate, p),
    decreases s.len(),
{
    if s.len() > 0 && plate_key_lt(s[0].plate, p) {
        let t = s.drop_first();
        assert(sorted_observations(t)) by {
            assert forall|i: int, j: int| 0 <= i < j < t.len() implies plate_key_lt(#[trigger] t[i].plate, #[trigger] t[j].plate) by {
                assert(t[i] == s[i + 1] && t[j] == s[j + 1]);
            }
        }
        lemma_insert_position(t, p);
        assert forall|j: int| 0 <= j < insert_position(s, p) implies plate_key_lt(#[trigger] s[j].plate, p) by {
            if j > 0 {
                assert(s[j] == t[j - 1]);
            }
        }
    }
}

/// Recording an observation keeps the observations in strictly increasing
/// key order.
proof fn lemma_insert_observation_sorted(s: Seq<ObservationView>, o: ObservationView)
    requires
        sorted_observations(s),
    ensures
        sorted_observations(insert_observation(s, o)),
{
    lemma_insert_position(s, o.plate);
    let i = insert_position(s, o.plate) as int;
    let r = insert_observation(s, o);
    if i < s.len() && same_key(s[i].plate, o.plate) {
        assert forall|a: int, b: int| 0 <= a < b < r.len() implies plate_key_lt(#[trigger] r[a].plate, #[trigger] r[b].plate) by {
            if a == i {
                assert(plate_key_lt(s[i].plate, s[b].plate));
            } else if b == i {
                assert(plate_key_lt(s[a].plate, s[i].plate));
            }
        }
    } else {
        if i < s.len() {
            lemma_plate_key_total(s[i].plate, o.plate);
        }
        assert forall|a: int, b: int| 0 <= a < b < r.len() implies plate_key_lt(#[trigger] r[a].plate, #[trigger] r[b].plate) by {
            if a < i && b == i {
            } else if a < i && b > i {
                assert(r[b] == s[b - 1]);
                if b - 1 >= i {
                    assert(plate_key_lt(s[i].plate, s[b - 1].plate) || b - 1 == i);
                    if b - 1 > i {
                        lemma_plate_key_transitive(o.plate, s[i].plate, s[b - 1].plate);
                    }
                    lemma_plate_key_transitive(s[a].plate, o.plate, s[b - 1].plate);
                }
            } else if a == i {
                assert(r[b] == s[b - 1]);
                if b - 1 > i {
                    lemma_plate_key_transitive(o.plate, s[i].plate, s[b - 1].plate);
                }
            } else if a > i {
                assert(r[a] == s[a - 1] && r[b] == s[b - 1]);
            }
        }
    }
}

/// The absolute difference of two integers.
pub open spec fn abs_diff(a: int, b: int) -> nat {
    if a >= b {
        (a - b) as nat
    } else {
        (b - a) as nat
    }
}

/// `miles` over `seconds`, in miles per hour, rounded to the nearest integer
/// (halves up).
pub open spec fn rounded_speed(miles: nat, seconds: nat) -> nat
    recommends
        seconds > 0,
{
    ((2 * miles * 3600 + seconds) / (2 * seconds)) as nat
}

/// The speed between a stored observation and a new one.
pub open spec fn speed_between(stored: ObservationView, o: ObservationView) -> nat {
    rounded_speed(
        abs_diff(o.camera.mile as int, stored.camera.mile as int),
        abs_diff(o.plate.timestamp as int, stored.plate.timestamp as int),
    )
}

/// The lower of the two cameras' limits.
pub open spec fn limit_between(stored: ObservationView, o: ObservationView) -> u16 {
    if stored.camera.limit <= o.camera.limit {
        stored.camera.limit
    } else {
        o.camera.limit
    }
}

/// The stored observation and the new one show the same plate on the same
/// road, at different times, at a rounded speed above the lower limit.
pub open spec fn is_speeding(stored: ObservationView, o: ObservationView) -> bool {
    &&& stored.plate.plate == o.plate.plate
    &&& stored.camera.road == o.camera.road
    &&& stored.plate.timestamp != o.plate.timestamp
    &&& speed_between(stored, o) > limit_between(stored, o)
}

/// The ticket for a speeding pair: earlier position first, the speed in
/// hundredths of a mile per hour, truncated to 16 bits.
pub open spec fn ticket_for(stored: ObservationView, o: ObservationView) -> TicketView {
    let speed = ((speed_between(stored, o) * 100) % 65536) as u16;
    if stored.plate.timestamp <= o.plate.timestamp {
        TicketView {
            plate: o.plate.plate,
            road: o.camera.road,
            mile1: stored.camera.mile,
            timestamp1: stored.plate.timestamp,
            mile2: o.camera.mile,
            timestamp2: o.plate.timestamp,
            speed,
        }
    } else {
        TicketView {
            plate: o.plate.plate,
            road: o.camera.road,
            mile1: o.camera.mile,
            timestamp1: o.plate.timestamp,
            mile2: stored.camera.mile,
            timestamp2: stored.plate.timestamp,
            speed,
        }
    }
}

/// The tickets that a new observation gives against the stored ones, in the
/// stored order.
pub open spec fn potential_tickets(s: Seq<ObservationView>, o: ObservationView) -> Seq<TicketView>
    decreases s.len(),
{
    if s.len() == 0 {
        seq![]
    } else {
        let rest = potential_tickets(s.drop_last(), o);
        if is_speeding(s.last(), o) {
            rest.push(ticket_for(s.last(), o))
        } else {
            rest
        }
    }
}

/// The day of a timestamp.
pub open spec fn day_of(ts: u32) -> u32 {
    ts / 86400
}

/// Some day of the ticket's span is already ticketed for its plate and road.
pub open spec fn already_issued(issued: Seq<IssuedKey>, t: TicketView) -> bool {
    exists|d: u32| day_of(t.timestamp1) <= d <= day_of(t.timestamp2) && issued.contains((t.plate, t.road, d))
}

/// The days of the ticket's span, for its plate and road.
pub open spec fn days_of(t: TicketView) -> Seq<IssuedKey> {
    let (d1, d2) = (day_of(t.timestamp1), day_of(t.timestamp2));
    Seq::new(if d1 <= d2 { (d2 - d1 + 1) as nat } else { 0 }, |i: int| (t.plate, t.road, (d1 + i) as u32))
}

/// The tickets queued for a road.
pub open spec fn queued(q: Map<u16, Seq<TicketView>>, road: u16) -> Seq<TicketView> {
    if q.contains_key(road) {
        q[road]
    } else {
        seq![]
    }
}

/// What issuing tickets changes.
pub struct IssueView {
    pub issued: Seq<IssuedKey>,
    pub queue: Map<u16, Seq<TicketView>>,
    pub actions: Seq<ActionView>,
}

/// Issue one ticket: skipped when a day of its span is already ticketed;
/// otherwise its days are recorded and it goes to the first dispatcher of its
/// road, if that one is registered, or is dropped when it is not; when the
/// road has no dispatcher it waits in the road's queue.
pub open spec fn issue(st: IssueView, dispatchers: Map<u16, Seq<u64>>, streams: Set<u64>, t: TicketView) -> IssueView {
    if already_issued(st.issued, t) {
        st
    } else {
        let issued = st.issued + days_of(t);
        if dispatchers.contains_key(t.road) {
            let list = dispatchers[t.road];
            if list.len() > 0 && streams.contains(list[0]) {
                IssueView {
                    issued,
                    queue: st.queue,
                    actions: st.actions.push(ActionView::SendTicket { dispatcher: list[0], ticket: t }),
                }
            } else {
                IssueView { issued, queue: st.queue, actions: st.actions }
            }
        } else {
            IssueView { issued, queue: st.queue.insert(t.road, queued(st.queue, t.road).push(t)), actions: st.actions }
        }
    }
}

/// Issue tickets in order.
pub open spec fn issue_all(
    st: IssueView,
    dispatchers: Map<u16, Seq<u64>>,
    streams: Set<u64>,
    ts: Seq<TicketView>,
) -> IssueView
    decreases ts.len(),
{
    if ts.len() == 0 {
        st
    } else {
        issue(issue_all(st, dispatchers, streams, ts.drop_last()), dispatchers, streams, ts.last())
    }
}

/// The dispatchers after `conn` registers for `roads`, in order.
pub open spec fn add_dispatcher(d: Map<u16, Seq<u64>>, roads: Seq<u16>, conn: u64) -> Map<u16, Seq<u64>>
    decreases roads.len(),
{
    if roads.len() == 0 {
        d
    } else {
        let d0 = add_dispatcher(d, roads.drop_last(), conn);
        let r = roads.last();
        d0.insert(r, (if d0.contains_key(r) { d0[r] } else { seq![] }).push(conn))
    }
}

/// Hand the queued tickets of `roads` to `conn`, road by road.
pub open spec fn flush_queue(q: Map<u16, Seq<TicketView>>, roads: Seq<u16>, conn: u64) -> (
    Map<u16, Seq<TicketView>>,
    Seq<ActionView>,
)
    decreases roads.len(),
{
    if roads.len() == 0 {
        (q, seq![])
    } else {
        let (q0, a0) = flush_queue(q, roads.drop_last(), conn);
        let r = roads.last();
        if q0.contains_key(r) {
            (q0.remove(r), a0 + q0[r].map_values(|t: TicketView| ActionView::SendTicket { dispatcher: conn, ticket: t }))
        } else {
            (q0, a0)
        }
    }
}

/// The id after `id`, wrapping around.
pub open spec fn successor_id(id: u32) -> u32 {
    if id == u32::MAX {
        0
    } else {
        (id + 1) as u32
    }
}

/// A ticket is only issued when none of its days is ticketed yet, so no
/// (plate, road, day) is ever recorded twice: issuing keeps the record free
/// of repeats.
pub proof fn lemma_issue_no_repeats(st: IssueView, dispatchers: Map<u16, Seq<u64>>, streams: Set<u64>, t: TicketView)
    requires
        st.issued.no_duplicates(),
    ensures
        issue(st, dispatchers, streams, t).issued.no_duplicates(),
{
    if !already_issued(st.issued, t) {
        let days = days_of(t);
        let all = st.issued + days;
        assert forall|i: int, j: int| 0 <= i < j < all.len() implies all[i] != all[j] by {
            if j >= st.issued.len() {
                let dj = (day_of(t.timestamp1) + (j - st.issued.len())) as u32;
                assert(all[j] == (t.plate, t.road, dj));
                if i < st.issued.len() {
                    if all[i] == all[j] {
                        assert(st.issued.contains((t.plate, t.road, dj)));
                        assert(day_of(t.timestamp1) <= dj <= day_of(t.timestamp2));
                    }
                } else {
                    assert(all[i] == (t.plate, t.road, (day_of(t.timestamp1) + (i - st.issued.len())) as u32));
                }
            }
        }
    }
}

/// Issuing several tickets keeps the record of ticketed days free of repeats.
pub proof fn lemma_issue_all_no_repeats(
    st: IssueView,
    dispatchers: Map<u16, Seq<u64>>,
    streams: Set<u64>,
    ts: Seq<TicketView>,
)
    requires
        st.issued.no_duplicates(),
    ensures
        issue_all(st, dispatchers, streams, ts).issued.no_duplicates(),
    decreases ts.len(),
{
    if ts.len() > 0 {
        lemma_issue_all_no_repeats(st, dispatchers, streams, ts.drop_last());
        lemma_issue_no_repeats(issue_all(st, dispatchers, streams, ts.drop_last()), dispatchers, streams, ts.last());
    }
}

/// The rounded speed is the integer nearest to the exact speed
/// `miles * 3600 / seconds`, halves rounding up:
/// `speed - 1/2 <= miles * 3600 / seconds < speed + 1/2`.
pub proof fn lemma_rounded_speed_nearest(miles: nat, seconds: nat)
    requires
        seconds > 0,
    ensures
        2 * seconds * rounded_speed(miles, seconds) <= 2 * miles * 3600 + seconds,
        2 * miles * 3600 + seconds < 2 * seconds * (rounded_speed(miles, seconds) + 1),
{
    let n = 2 * miles * 3600 + seconds;
    let d = 2 * seconds;
    let q = n / d;
    assert(d * q <= n < d * (q + 1)) by (nonlinear_arith)
        requires
            d > 0,
            q == n / d,
            n >= 0,
    {
        vstd::arithmetic::div_mod::lemma_fundamental_div_mod(n as int, d as int);
    }
}

/// A ticket names the later observation's plate and road, and lists the two
/// positions in time order.
pub proof fn lemma_ticket_chronological(stored: ObservationView, o: ObservationView)
    ensures
        ticket_for(stored, o).timestamp1 <= ticket_for(stored, o).timestamp2,
        ticket_for(stored, o).plate == o.plate.plate,
        ticket_for(stored, o).road == o.camera.road,
        (ticket_for(stored, o).mile1, ticket_for(stored, o).timestamp1) == (stored.camera.mile, stored.plate.timestamp)
            || (ticket_for(stored, o).mile1, ticket_for(stored, o).timestamp1) == (o.camera.mile, o.plate.timestamp),
        (ticket_for(stored, o).mile2, ticket_for(stored, o).timestamp2) == (stored.camera.mile, stored.plate.timestamp)
            || (ticket_for(stored, o).mile2, ticket_for(stored, o).timestamp2) == (o.camera.mile, o.plate.timestamp),
{
}

/// Handing out the queues of some roads leaves the queue of any other road
/// as it was.
proof fn lemma_flush_untouched(q: Map<u16, Seq<TicketView>>, roads: Seq<u16>, conn: u64, r: u16)
    requires
        !roads.contains(r),
    ensures
        flush_queue(q, roads, conn).0.contains_key(r) == q.contains_key(r),
        q.contains_key(r) ==> flush_queue(q, roads, conn).0[r] == q[r],
    decreases roads.len(),
{
    if roads.len() > 0 {
        assert(!roads.drop_last().contains(r)) by {
            if roads.drop_last().contains(r) {
                let i = choose|i: int| 0 <= i < roads.drop_last().len() && roads.drop_last()[i] == r;
                assert(roads[i] == r);
            }
        }
        assert(roads.last() != r) by {
            assert(roads[roads.len() - 1] == roads.last());
        }
        lemma_flush_untouched(q, roads.drop_last(), conn, r);
    }
}

/// When a dispatcher registers for a road, every ticket waiting for that road
/// is sent to it, and nothing is left waiting for that road.
pub proof fn lemma_registration_delivers_queue(q: Map<u16, Seq<TicketView>>, roads: Seq<u16>, conn: u64, r: u16)
    requires
        roads.contains(r),
    ensures
        !flush_queue(q, roads, conn).0.contains_key(r),
        q.contains_key(r) ==> forall|i: int| 0 <= i < q[r].len() ==> flush_queue(q, roads, conn).1.contains(
            ActionView::SendTicket { dispatcher: conn, ticket: #[trigger] q[r][i] },
        ),
    decreases roads.len(),
{
    let pre = roads.drop_last();
    let x = roads.last();
    let (q0, a0) = flush_queue(q, pre, conn);
    if pre.contains(r) {
        lemma_registration_delivers_queue(q, pre, conn, r);
        if q.contains_key(r) {
            assert forall|i: int| 0 <= i < q[r].len() implies flush_queue(q, roads, conn).1.contains(
                ActionView::SendTicket { dispatcher: conn, ticket: #[trigger] q[r][i] },
            ) by {
                let a = ActionView::SendTicket { dispatcher: conn, ticket: q[r][i] };
                assert(a0.contains(a));
                let k = choose|k: int| 0 <= k < a0.len() && a0[k] == a;
                if q0.contains_key(x) {
                    let full = a0 + q0[x].map_values(|t: TicketView| ActionView::SendTicket { dispatcher: conn, ticket: t });
                    assert(full[k] == a);
                }
            }
        }
    } else {
        assert(x == r) by {
            let i = choose|i: int| 0 <= i < roads.len() && roads[i] == r;
            if i < roads.len() - 1 {
                assert(pre[i] == r);
            }
        }
        lemma_flush_untouched(q, pre, conn, r);
        if q.contains_key(r) {
            let sent = q0[r].map_values(|t: TicketView| ActionView::SendTicket { dispatcher: conn, ticket: t });
            let full = a0 + sent;
            assert forall|i: int| 0 <= i < q[r].len() implies flush_queue(q, roads, conn).1.contains(
                ActionView::SendTicket { dispatcher: conn, ticket: #[trigger] q[r][i] },
            ) by {
                assert(full[a0.len() + i] == sent[i]);
            }
        }
    }
}

/// What processing an accepted message from `conn` does to the server, and
/// the actions that it asks for.
pub open spec fn spec_process(s: ServerView, conn: u64, m: MessageView) -> Result<
    (ServerView, Seq<ActionView>),
    ProcessError,
> {
    match m {
        MessageView::IAmCamera(c) => {
            let st = s.clients[conn];
            let st2 = ClientStateView {
                client_type: Some(ClientTypeView::Camera { road: c.road, mile: c.mile, limit: c.limit }),
                client_id: Some(s.next_id),
                ..st
            };
            Ok((ServerView { clients: s.clients.insert(conn, st2), next_id: successor_id(s.next_id), ..s }, seq![]))
        },
        MessageView::IAmDispatcher(d) => {
            let st = s.clients[conn];
            let st2 = ClientStateView {
                client_type: Some(ClientTypeView::Dispatcher { roads: d.roads }),
                client_id: Some(s.next_id),
                ..st
            };
            let (q, acts) = flush_queue(s.ticket_queue, d.roads, conn);
            Ok((ServerView {
                clients: s.clients.insert(conn, st2),
                dispatchers: add_dispatcher(s.dispatchers, d.roads, conn),
                dispatcher_streams: s.dispatcher_streams.insert(conn),
                ticket_queue: q,
                next_id: successor_id(s.next_id),
                ..s
            }, acts))
        },
        MessageView::Plate(p) => {
            if !s.clients.contains_key(conn) {
                Err(ProcessError::ClientStateNotFound)
            } else {
                let st = s.clients[conn];
                match st.client_id {
                    None => Err(ProcessError::NotFullyIdentified),
                    Some(id) => match st.client_type {
                        Some(ClientTypeView::Camera { road, mile, limit }) => {
                            let o = ObservationView { plate: p, camera: IAmCamera { road, mile, limit }, camera_id: id };
                            let r = issue_all(
                                IssueView { issued: s.issued, queue: s.ticket_queue, actions: seq![] },
                                s.dispatchers,
                                s.dispatcher_streams,
                                potential_tickets(s.plates, o),
                            );
                            Ok((ServerView {
                                plates: insert_observation(s.plates, o),
                                issued: r.issued,
                                ticket_queue: r.queue,
                                ..s
                            }, r.actions))
                        },
                        _ => Err(ProcessError::NotACamera),
                    },
                }
            }
        },
        MessageView::WantHeartbeat(w) => {
            let st = s.clients[conn];
            if st.has_heartbeat {
                Err(ProcessError::DuplicateHeartbeatRequest)
            } else {
                let st2 = ClientStateView { has_heartbeat: true, heartbeat_interval: Some(w.interval), ..st };
                Ok((
                    ServerView { clients: s.clients.insert(conn, st2), ..s },
                    if w.interval > 0 { seq![ActionView::StartHeartbeat { interval: w.interval }] } else { seq![] },
                ))
            }
        },
        _ => Err(ProcessError::UnexpectedMessageType),
    }
}

/// Two connections that identify themselves one after the other get
/// different ids.
pub proof fn lemma_successive_ids_differ(s: ServerView, c1: u64, m1: MessageView, c2: u64, m2: MessageView)
    requires
        c1 != c2,
        m1 is IAmCamera || m1 is IAmDispatcher,
        m2 is IAmCamera || m2 is IAmDispatcher,
    ensures
        ({
            let s1 = spec_process(s, c1, m1)->Ok_0.0;
            let s2 = spec_process(s1, c2, m2)->Ok_0.0;
            &&& s2.clients[c1].client_id == Some(s.next_id)
            &&& s2.clients[c2].client_id == Some(successor_id(s.next_id))
            &&& s.next_id != successor_id(s.next_id)
        }),
{
}

/// The record of ticketed days after issuing `ts` in order: a ticket adds
/// its days unless one of them is already there.
pub open spec fn record_all(issued: Seq<IssuedKey>, ts: Seq<TicketView>) -> Seq<IssuedKey>
    decreases ts.len(),
{
    if ts.len() == 0 {
        issued
    } else {
        let prev = record_all(issued, ts.drop_last());
        if already_issued(prev, ts.last()) {
            prev
        } else {
            prev + days_of(ts.last())
        }
    }
}

/// The tickets among `ts` that are issued (sent, queued or, with no
/// registered dispatcher connection, dropped) rather than skipped.
pub open spec fn accepted(issued: Seq<IssuedKey>, ts: Seq<TicketView>) -> Seq<TicketView>
    decreases ts.len(),
{
    if ts.len() == 0 {
        seq![]
    } else {
        let rest = accepted(issued, ts.drop_last());
        if already_issued(record_all(issued, ts.drop_last()), ts.last()) {
            rest
        } else {
            rest.push(ts.last())
        }
    }
}

/// Every day of the ticket's span is recorded for its plate and road.
pub open spec fn covered(issued: Seq<IssuedKey>, t: TicketView) -> bool {
    forall|d: u32| day_of(t.timestamp1) <= d <= day_of(t.timestamp2) ==> #[trigger] issued.contains((t.plate, t.road, d))
}

/// Day `d` lies in the ticket's span.
pub open spec fn in_span(t: TicketView, d: u32) -> bool {
    day_of(t.timestamp1) <= d <= day_of(t.timestamp2)
}

/// The spans of two tickets share a day.
pub open spec fn days_overlap(a: TicketView, b: TicketView) -> bool {
    exists|d: u32| #[trigger] in_span(a, d) && #[trigger] in_span(b, d)
}

/// The issued tickets have all their days recorded, and no two of them for
/// the same plate and road share a day.
pub open spec fn tickets_consistent(issued: Seq<IssuedKey>, ts: Seq<TicketView>) -> bool {
    &&& forall|i: int| 0 <= i < ts.len() ==> covered(issued, #[trigger] ts[i])
    &&& forall|i: int, j: int|
        0 <= i < j < ts.len() && ts[i].plate == ts[j].plate && ts[i].road == ts[j].road
            ==> !days_overlap(#[trigger] ts[i], #[trigger] ts[j])
}

/// A run of the server seen from outside: its state, the tickets issued so
/// far, and the ids handed out so far, in order.
pub struct History {
    pub server: ServerView,
    pub tickets: Seq<TicketView>,
    pub ids: Seq<u32>,
}

/// The observation that a plate report from `conn` records.
pub open spec fn reported_observation(s: ServerView, conn: u64, p: PlateView) -> ObservationView {
    let st = s.clients[conn];
    match st.client_type {
        Some(ClientTypeView::Camera { road, mile, limit }) => ObservationView {
            plate: p,
            camera: IAmCamera { road, mile, limit },
            camera_id: st.client_id->Some_0,
        },
        _ => ObservationView { plate: p, camera: IAmCamera { road: 0, mile: 0, limit: 0 }, camera_id: 0 },
    }
}

/// One processed message in a run: on success the state moves on, a plate
/// report adds the tickets it issues, and an identification adds the id it
/// got; on error nothing changes.
pub open spec fn history_step(h: History, conn: u64, m: MessageView) -> History {
    match spec_process(h.server, conn, m) {
        Ok((s2, _)) => History {
            server: s2,
            tickets: match m {
                MessageView::Plate(p) => h.tickets + accepted(
                    h.server.issued,
                    potential_tickets(h.server.plates, reported_observation(h.server, conn, p)),
                ),
                _ => h.tickets,
            },
            ids: if m is IAmCamera || m is IAmDispatcher {
                h.ids.push(h.server.next_id)
            } else {
                h.ids
            },
        },
        Err(_) => h,
    }
}

/// A run of messages, processed in order.
pub open spec fn run_history(h: History, events: Seq<(u64, MessageView)>) -> History
    decreases events.len(),
{
    if events.len() == 0 {
        h
    } else {
        let h0 = run_history(h, events.drop_last());
        history_step(h0, events.last().0, events.last().1)
    }
}

proof fn lemma_contains_append(a: Seq<IssuedKey>, b: Seq<IssuedKey>, x: IssuedKey)
    requires
        a.contains(x),
    ensures
        (a + b).contains(x),
{
    let k = choose|k: int| 0 <= k < a.len() && a[k] == x;
    assert((a + b)[k] == x);
}

proof fn lemma_issue_all_records(st: IssueView, dispatchers: Map<u16, Seq<u64>>, streams: Set<u64>, ts: Seq<TicketView>)
    ensures
        issue_all(st, dispatchers, streams, ts).issued == record_all(st.issued, ts),
    decreases ts.len(),
{
    if ts.len() > 0 {
        lemma_issue_all_records(st, dispatchers, streams, ts.drop_last());
    }
}

proof fn lemma_accept_one(issued: Seq<IssuedKey>, tickets: Seq<TicketView>, t: TicketView)
    requires
        tickets_consistent(issued, tickets),
        !already_issued(issued, t),
    ensures
        tickets_consistent(issued + days_of(t), tickets.push(t)),
{
    let issued2 = issued + days_of(t);
    let all = tickets.push(t);
    assert forall|i: int| 0 <= i < all.len() implies covered(issued2, #[trigger] all[i]) by {
        let u = all[i];
        assert forall|d: u32| day_of(u.timestamp1) <= d <= day_of(u.timestamp2) implies #[trigger] issued2.contains(
            (u.plate, u.road, d),
        ) by {
            if i < tickets.len() {
                assert(covered(issued, tickets[i]));
                lemma_contains_append(issued, days_of(t), (u.plate, u.road, d));
            } else {
                let k = issued.len() + (d - day_of(t.timestamp1));
                assert(issued2[k] == (u.plate, u.road, d));
            }
        }
    }
    assert forall|i: int, j: int|
        0 <= i < j < all.len() && all[i].plate == all[j].plate && all[i].road == all[j].road
            implies !days_overlap(#[trigger] all[i], #[trigger] all[j]) by {
        if j == tickets.len() && days_overlap(all[i], all[j]) {
            let u = all[i];
            let d = choose|d: u32| in_span(u, d) && in_span(t, d);
            assert(covered(issued, tickets[i]));
            assert(issued.contains((u.plate, u.road, d)));
            assert(already_issued(issued, t));
        }
    }
}

proof fn lemma_accept_all(issued: Seq<IssuedKey>, tickets: Seq<TicketView>, ts: Seq<TicketView>)
    requires
        tickets_consistent(issued, tickets),
    ensures
        tickets_consistent(record_all(issued, ts), tickets + accepted(issued, ts)),
    decreases ts.len(),
{
    if ts.len() > 0 {
        lemma_accept_all(issued, tickets, ts.drop_last());
        let prev = record_all(issued, ts.drop_last());
        let all0 = tickets + accepted(issued, ts.drop_last());
        if already_issued(prev, ts.last()) {
            assert(tickets + accepted(issued, ts) =~= all0);
        } else {
            lemma_accept_one(prev, all0, ts.last());
            assert(tickets + accepted(issued, ts) =~= all0.push(ts.last()));
        }
    }
}

/// Every ticket that issuing sends to a dispatcher or puts in a road's queue
/// is one of the issued (not skipped) tickets: the earlier actions and queue
/// entries stay in front, and each one added after them carries an accepted
/// ticket.
pub proof fn lemma_sent_and_queued_are_accepted(
    st: IssueView,
    dispatchers: Map<u16, Seq<u64>>,
    streams: Set<u64>,
    ts: Seq<TicketView>,
)
    ensures
        ({
            let r = issue_all(st, dispatchers, streams, ts);
            &&& st.actions.is_prefix_of(r.actions)
            &&& forall|i: int|
                st.actions.len() <= i < r.actions.len() ==> (#[trigger] r.actions[i] matches ActionView::SendTicket {
                    ticket,
                    ..
                } && accepted(st.issued, ts).contains(ticket))
            &&& forall|road: u16| queued(st.queue, road).is_prefix_of(#[trigger] queued(r.queue, road))
            &&& forall|road: u16, i: int|
                queued(st.queue, road).len() <= i < queued(r.queue, road).len() ==> accepted(st.issued, ts).contains(
                    #[trigger] queued(r.queue, road)[i],
                )
        }),
    decreases ts.len(),
{
    if ts.len() > 0 {
        let pre = ts.drop_last();
        let t = ts.last();
        lemma_sent_and_queued_are_accepted(st, dispatchers, streams, pre);
        lemma_issue_all_records(st, dispatchers, streams, pre);
        let r0 = issue_all(st, dispatchers, streams, pre);
        let r = issue_all(st, dispatchers, streams, ts);
        let a0 = accepted(st.issued, pre);
        let a = accepted(st.issued, ts);
        assert forall|x: TicketView| a0.contains(x) implies a.contains(x) by {
            let k = choose|k: int| 0 <= k < a0.len() && a0[k] == x;
            if !already_issued(r0.issued, t) {
                assert(a[k] == x);
            }
        }
        if !already_issued(r0.issued, t) {
            assert(a[a.len() - 1] == t);
        }
        assert forall|i: int| st.actions.len() <= i < r.actions.len() implies (#[trigger] r.actions[i] matches ActionView::SendTicket {
            ticket,
            ..
        } && a.contains(ticket)) by {
            if i < r0.actions.len() {
                assert(r.actions[i] == r0.actions[i]);
            }
        }
        assert forall|road: u16| queued(st.queue, road).is_prefix_of(#[trigger] queued(r.queue, road)) by {
            assert(queued(st.queue, road).is_prefix_of(queued(r0.queue, road)));
        }
        assert forall|road: u16, i: int|
            queued(st.queue, road).len() <= i < queued(r.queue, road).len() implies a.contains(
                #[trigger] queued(r.queue, road)[i],
            ) by {
            assert(queued(st.queue, road).is_prefix_of(queued(r0.queue, road)));
            if i < queued(r0.queue, road).len() {
                assert(queued(r.queue, road)[i] == queued(r0.queue, road)[i]);
                assert(a0.contains(queued(r0.queue, road)[i]));
            }
        }
    }
}

/// Processing one message keeps the issued tickets consistent with the
/// record of ticketed days.
pub proof fn lemma_step_keeps_tickets_consistent(h: History, conn: u64, m: MessageView)
    requires
        tickets_consistent(h.server.issued, h.tickets),
    ensures
        tickets_consistent(history_step(h, conn, m).server.issued, history_step(h, conn, m).tickets),
{
    let s = h.server;
    if let MessageView::Plate(p) = m {
        if spec_process(s, conn, m) is Ok {
            let o = reported_observation(s, conn, p);
            let ts = potential_tickets(s.plates, o);
            let st = IssueView { issued: s.issued, queue: s.ticket_queue, actions: seq![] };
            lemma_issue_all_records(st, s.dispatchers, s.dispatcher_streams, ts);
            lemma_accept_all(s.issued, h.tickets, ts);
        }
    }
}

/// Tickets go out at most once per plate, road and day: over any run of
/// processed messages that starts from a consistent record (such as a new
/// server with no tickets), no two issued tickets for the same plate and
/// road cover a common day, and every day of every issued ticket stays
/// recorded.
pub proof fn lemma_tickets_once_per_day(h: History, events: Seq<(u64, MessageView)>)
    requires
        tickets_consistent(h.server.issued, h.tickets),
    ensures
        tickets_consistent(run_history(h, events).server.issued, run_history(h, events).tickets),
    decreases events.len(),
{
    if events.len() > 0 {
        lemma_tickets_once_per_day(h, events.drop_last());
        lemma_step_keeps_tickets_consistent(run_history(h, events.drop_last()), events.last().0, events.last().1);
    }
}

proof fn lemma_successor_id_mod(n: int, k: int)
    requires
        n >= 0,
        k >= 0,
    ensures
        successor_id(((n + k) % 0x1_0000_0000) as u32) as int == (n + k + 1) % 0x1_0000_0000,
{
    let m: int = 0x1_0000_0000;
    let x = (n + k) % m;
    vstd::arithmetic::div_mod::lemma_add_mod_noop(n + k, 1, m);
    assert(1int % m == 1);
    if x + 1 < m {
        assert((x + 1) % m == x + 1);
    } else {
        assert((x + 1) % m == 0);
    }
}

proof fn lemma_mod_distinct(n: int, i: int, j: int)
    requires
        n >= 0,
        0 <= i < j < 0x1_0000_0000,
    ensures
        (n + i) % 0x1_0000_0000 != (n + j) % 0x1_0000_0000,
{
    let m: int = 0x1_0000_0000;
    vstd::arithmetic::div_mod::lemma_fundamental_div_mod(n + i, m);
    vstd::arithmetic::div_mod::lemma_fundamental_div_mod(n + j, m);
    let (q1, q2) = ((n + i) / m, (n + j) / m);
    if (n + i) % m == (n + j) % m {
        assert(j - i == m * (q2 - q1));
        assert(false) by (nonlinear_arith)
            requires
                j - i == m * (q2 - q1),
                0 < j - i < m,
                m > 0,
        ;
    }
}

/// Client ids over a run: counting from the next id `n` at the start, the
/// `k`-th identification of the run gets `(n + k) mod 2^32`, and the next id
/// afterwards is `n` plus the number of identifications, mod 2^32. So as
/// long as there are at most 2^32 of them, every identification gets an id
/// of its own.
pub proof fn lemma_ids_count_up(h: History, events: Seq<(u64, MessageView)>)
    requires
        h.ids.len() == 0,
    ensures
        ({
            let r = run_history(h, events);
            &&& forall|k: int| 0 <= k < r.ids.len() ==> #[trigger] r.ids[k] as int == (h.server.next_id + k) % 0x1_0000_0000
            &&& r.server.next_id as int == (h.server.next_id + r.ids.len()) % 0x1_0000_0000
            &&& r.ids.len() <= 0x1_0000_0000 ==> r.ids.no_duplicates()
        }),
    decreases events.len(),
{
    let n = h.server.next_id as int;
    let r = run_history(h, events);
    if events.len() == 0 {
        assert(n % 0x1_0000_0000 == n);
    } else {
        lemma_ids_count_up(h, events.drop_last());
        let r0 = run_history(h, events.drop_last());
        let (conn, m) = events.last();
        let k = r0.ids.len() as int;
        if spec_process(r0.server, conn, m) is Ok && (m is IAmCamera || m is IAmDispatcher) {
            assert(r.ids == r0.ids.push(r0.server.next_id));
            assert(r0.server.next_id == ((n + k) % 0x1_0000_0000) as u32);
            lemma_successor_id_mod(n, k);
        } else {
            assert(r.ids == r0.ids);
        }
    }
    assert forall|i: int, j: int| 0 <= i < j < r.ids.len() && r.ids.len() <= 0x1_0000_0000 implies r.ids[i] != r.ids[j] by {
        lemma_mod_distinct(n, i, j);
    }
}

/// Ticket `t` records two observations `a` and `b` of its plate, both on its
/// road, at different times, the earlier one first.
pub open spec fn records_pair(t: TicketView, a: ObservationView, b: ObservationView) -> bool {
    &&& t.plate == a.plate.plate
    &&& t.plate == b.plate.plate
    &&& t.road == a.camera.road
    &&& t.road == b.camera.road
    &&& t.timestamp1 < t.timestamp2
    &&& {
        ||| (t.timestamp1 == a.plate.timestamp && t.mile1 == a.camera.mile && t.timestamp2 == b.plate.timestamp
            && t.mile2 == b.camera.mile)
        ||| (t.timestamp1 == b.plate.timestamp && t.mile1 == b.camera.mile && t.timestamp2 == a.plate.timestamp
            && t.mile2 == a.camera.mile)
    }
}

/// The speed between two observations is over the lower of their cameras'
/// limits.
pub open spec fn over_lower_limit(a: ObservationView, b: ObservationView) -> bool {
    speed_between(a, b) > a.camera.limit || speed_between(a, b) > b.camera.limit
}

/// Ticket `t` is on `o`'s road and records `o` with a stored observation on
/// that road, between which the speed was over the lower of the two limits;
/// its speed is that speed in hundredths of a mile per hour (modulo 2^16).
pub open spec fn from_speeding_on_road(s: Seq<ObservationView>, o: ObservationView, t: TicketView) -> bool {
    &&& t.road == o.camera.road
    &&& exists|j: int|
        0 <= j < s.len() && s[j].camera.road == o.camera.road && over_lower_limit(s[j], o)
            && t.speed as int == (speed_between(s[j], o) * 100) % 65536
            && #[trigger] records_pair(t, s[j], o)
}

/// Tickets only come from speeding between two observations of one plate on
/// one road: each ticket that a new observation `o` gives records `o` and a
/// stored observation of the same plate on `o`'s road, between which the
/// speed was over the lower limit; observations on other roads give none.
/// Conversely, every such stored observation gives a ticket.
pub proof fn lemma_tickets_pair_observations_on_one_road(s: Seq<ObservationView>, o: ObservationView)
    ensures
        potential_tickets(s, o).len() <= s.len(),
        forall|k: int| 0 <= k < potential_tickets(s, o).len() ==> from_speeding_on_road(s, o, #[trigger] potential_tickets(s, o)[k]),
        forall|j: int|
            0 <= j < s.len() && s[j].plate.plate == o.plate.plate && s[j].camera.road == o.camera.road
                && s[j].plate.timestamp != o.plate.timestamp && over_lower_limit(s[j], o)
                ==> exists|k: int| 0 <= k < potential_tickets(s, o).len() && #[trigger] records_pair(potential_tickets(s, o)[k], s[j], o),
    decreases s.len(),
{
    let pt = potential_tickets(s, o);
    if s.len() > 0 {
        let s0 = s.drop_last();
        let rest = potential_tickets(s0, o);
        lemma_tickets_pair_observations_on_one_road(s0, o);
        let last = s.len() - 1;
        assert(s[last] == s.last());
        if is_speeding(s.last(), o) {
            assert(records_pair(pt[rest.len() as int], s[last], o));
        }
        assert forall|k: int| 0 <= k < pt.len() implies from_speeding_on_road(s, o, #[trigger] pt[k]) by {
            if k < rest.len() {
                assert(pt[k] == rest[k]);
                assert(from_speeding_on_road(s0, o, rest[k]));
                let j = choose|j: int|
                    0 <= j < s0.len() && s0[j].camera.road == o.camera.road && over_lower_limit(s0[j], o)
                        && rest[k].speed as int == (speed_between(s0[j], o) * 100) % 65536
                        && #[trigger] records_pair(rest[k], s0[j], o);
                assert(s0[j] == s[j]);
                assert(records_pair(pt[k], s[j], o));
            } else {
                assert(records_pair(pt[k], s[last], o));
            }
        }
        assert forall|j: int|
            0 <= j < s.len() && s[j].plate.plate == o.plate.plate && s[j].camera.road == o.camera.road
                && s[j].plate.timestamp != o.plate.timestamp && over_lower_limit(s[j], o)
                implies exists|k: int| 0 <= k < pt.len() && #[trigger] records_pair(pt[k], s[j], o) by {
            if j < last {
                assert(s0[j] == s[j]);
                let k = choose|k: int| 0 <= k < rest.len() && #[trigger] records_pair(rest[k], s0[j], o);
                assert(pt[k] == rest[k]);
            } else {
                assert(records_pair(pt[rest.len() as int], s[j], o));
            }
        }
    }
}

/// The list of a road's dispatchers before registrations.
pub open spec fn old_list(d: Map<u16, Seq<u64>>, r: u16) -> Seq<u64> {
    if d.contains_key(r) {
        d[r]
    } else {
        seq![]
    }
}

/// Registering `conn` for `roads` puts it at the end of the list of each of
/// those roads, after the dispatchers already there, and leaves the other
/// roads alone.
pub proof fn lemma_add_dispatcher_registers(d: Map<u16, Seq<u64>>, roads: Seq<u16>, conn: u64)
    ensures
        forall|r: u16| #[trigger]
            add_dispatcher(d, roads, conn).contains_key(r) <==> d.contains_key(r) || roads.contains(r),
        forall|r: u16|
            roads.contains(r) ==> #[trigger] add_dispatcher(d, roads, conn)[r].len() > old_list(d, r).len()
                && add_dispatcher(d, roads, conn)[r].last() == conn,
        forall|r: u16|
            #![trigger add_dispatcher(d, roads, conn)[r]]
            add_dispatcher(d, roads, conn).contains_key(r) ==> old_list(d, r).is_prefix_of(add_dispatcher(d, roads, conn)[r])
                && forall|i: int|
                old_list(d, r).len() <= i < add_dispatcher(d, roads, conn)[r].len() ==> add_dispatcher(d, roads, conn)[r][i]
                    == conn,
        forall|r: u16| !roads.contains(r) && d.contains_key(r) ==> #[trigger] add_dispatcher(d, roads, conn)[r] == d[r],
    decreases roads.len(),
{
    if roads.len() > 0 {
        let pre = roads.drop_last();
        let x = roads.last();
        lemma_add_dispatcher_registers(d, pre, conn);
        let d0 = add_dispatcher(d, pre, conn);
        let a = add_dispatcher(d, roads, conn);
        assert forall|r: u16| roads.contains(r) <==> pre.contains(r) || r == x by {
            if roads.contains(r) {
                let i = choose|i: int| 0 <= i < roads.len() && roads[i] == r;
                if i < roads.len() - 1 {
                    assert(pre[i] == r);
                }
            }
            if pre.contains(r) {
                let i = choose|i: int| 0 <= i < pre.len() && pre[i] == r;
                assert(roads[i] == r);
            }
            if r == x {
                assert(roads[roads.len() - 1] == r);
            }
        }
        assert forall|r: u16| #[trigger] a.contains_key(r) <==> d.contains_key(r) || roads.contains(r) by {}
        assert forall|r: u16| roads.contains(r) implies #[trigger] a[r].len() > old_list(d, r).len() && a[r].last() == conn by {
            if r != x {
                assert(pre.contains(r));
            } else if !pre.contains(r) && d.contains_key(r) {
                assert(d0[r] == d[r]);
            }
        }
        assert forall|r: u16| #![trigger a[r]] a.contains_key(r) implies old_list(d, r).is_prefix_of(a[r]) && forall|i: int|
            old_list(d, r).len() <= i < a[r].len() ==> a[r][i] == conn by {
            if r == x {
                if d0.contains_key(r) {
                    assert(old_list(d, r).is_prefix_of(d0[r]));
                    assert forall|i: int| old_list(d, r).len() <= i < a[r].len() implies a[r][i] == conn by {
                        if i < d0[r].len() {
                            assert(a[r][i] == d0[r][i]);
                        }
                    }
                } else {
                    assert(!d.contains_key(r));
                }
            }
        }
    }
}

/// An identification from a connection that has already identified itself,
/// as a camera or as a dispatcher, is refused; a plate is accepted only from
/// a camera; a second heartbeat request is refused.
pub proof fn lemma_validate_refusals(m: MessageView, st: ClientStateView)
    ensures
        (m is IAmCamera || m is IAmDispatcher) && st.client_type is Some ==> spec_validate(m, st) == Some(
            ProtocolError::AlreadyIdentified,
        ),
        (m is IAmCamera || m is IAmDispatcher) && st.client_type is None ==> spec_validate(m, st) is None,
        m is Plate ==> (spec_validate(m, st) is None <==> st.client_type matches Some(ClientTypeView::Camera { .. })),
        m is Plate && spec_validate(m, st) is Some ==> spec_validate(m, st) == Some(ProtocolError::NotIdentified),
        m is WantHeartbeat && st.has_heartbeat ==> spec_validate(m, st) == Some(ProtocolError::DuplicateHeartbeatRequest),
        m is WantHeartbeat && !st.has_heartbeat ==> spec_validate(m, st) is None,
{
}

/// Where issuing sends the issued tickets: each new action sends a ticket
/// to the first dispatcher registered for its road, and each new queue entry
/// is a ticket of a road that has no dispatcher; a road with dispatchers
/// keeps its queue. Every issued ticket goes one of these ways: to the first
/// dispatcher of its road when that one is a registered connection, or to
/// its road's queue when the road has no dispatcher.
pub proof fn lemma_issue_routes(st: IssueView, dispatchers: Map<u16, Seq<u64>>, streams: Set<u64>, ts: Seq<TicketView>)
    ensures
        ({
            let r = issue_all(st, dispatchers, streams, ts);
            let a = accepted(st.issued, ts);
            &&& forall|i: int|
                st.actions.len() <= i < r.actions.len() ==> (#[trigger] r.actions[i] matches ActionView::SendTicket {
                    dispatcher,
                    ticket,
                } && dispatchers.contains_key(ticket.road) && dispatchers[ticket.road].len() > 0
                    && dispatchers[ticket.road][0] == dispatcher && streams.contains(dispatcher))
            &&& forall|road: u16, i: int|
                queued(st.queue, road).len() <= i < queued(r.queue, road).len() ==> !dispatchers.contains_key(road)
                    && (#[trigger] queued(r.queue, road)[i]).road == road
            &&& forall|road: u16| dispatchers.contains_key(road) ==> #[trigger] queued(r.queue, road) == queued(st.queue, road)
            &&& forall|k: int|
                0 <= k < a.len() && dispatchers.contains_key(a[k].road) && dispatchers[a[k].road].len() > 0
                    && streams.contains(dispatchers[a[k].road][0]) ==> r.actions.contains(
                    ActionView::SendTicket { dispatcher: dispatchers[a[k].road][0], ticket: #[trigger] a[k] },
                )
            &&& forall|k: int|
                0 <= k < a.len() && !dispatchers.contains_key(a[k].road) ==> queued(r.queue, a[k].road).contains(
                    #[trigger] a[k],
                )
        }),
    decreases ts.len(),
{
    if ts.len() > 0 {
        let pre = ts.drop_last();
        let t = ts.last();
        lemma_issue_routes(st, dispatchers, streams, pre);
        lemma_issue_all_records(st, dispatchers, streams, pre);
        let r0 = issue_all(st, dispatchers, streams, pre);
        let r = issue_all(st, dispatchers, streams, ts);
        let a0 = accepted(st.issued, pre);
        let a = accepted(st.issued, ts);
        lemma_sent_and_queued_are_accepted(st, dispatchers, streams, pre);
        assert forall|i: int| st.actions.len() <= i < r.actions.len() implies (#[trigger] r.actions[i] matches ActionView::SendTicket {
            dispatcher,
            ticket,
        } && dispatchers.contains_key(ticket.road) && dispatchers[ticket.road].len() > 0
            && dispatchers[ticket.road][0] == dispatcher && streams.contains(dispatcher)) by {
            if i < r0.actions.len() {
                assert(r.actions[i] == r0.actions[i]);
            }
        }
        assert forall|road: u16, i: int|
            queued(st.queue, road).len() <= i < queued(r.queue, road).len() implies !dispatchers.contains_key(road)
                && (#[trigger] queued(r.queue, road)[i]).road == road by {
            if i < queued(r0.queue, road).len() {
                assert(queued(r.queue, road)[i] == queued(r0.queue, road)[i]);
            }
        }
        assert forall|road: u16| dispatchers.contains_key(road) implies #[trigger] queued(r.queue, road) == queued(st.queue, road) by {
            assert(queued(r0.queue, road) == queued(st.queue, road));
        }
        assert forall|k: int|
            0 <= k < a.len() && dispatchers.contains_key(a[k].road) && dispatchers[a[k].road].len() > 0
                && streams.contains(dispatchers[a[k].road][0]) implies r.actions.contains(
                ActionView::SendTicket { dispatcher: dispatchers[a[k].road][0], ticket: #[trigger] a[k] },
            ) by {
            let x = ActionView::SendTicket { dispatcher: dispatchers[a[k].road][0], ticket: a[k] };
            if k < a0.len() {
                assert(a[k] == a0[k]);
                assert(r0.actions.contains(x));
                let i = choose|i: int| 0 <= i < r0.actions.len() && r0.actions[i] == x;
                assert(r.actions[i] == x);
            } else {
                assert(a[k] == t);
                assert(r.actions[r.actions.len() - 1] == x);
            }
        }
        assert forall|k: int| 0 <= k < a.len() && !dispatchers.contains_key(a[k].road) implies queued(
            r.queue,
            a[k].road,
        ).contains(#[trigger] a[k]) by {
            let road = a[k].road;
            if k < a0.len() {
                assert(a[k] == a0[k]);
                assert(queued(r0.queue, road).contains(a[k]));
                let i = choose|i: int| 0 <= i < queued(r0.queue, road).len() && queued(r0.queue, road)[i] == a[k];
                if road == t.road && !already_issued(r0.issued, t) {
                    assert(queued(r.queue, road)[i] == a[k]);
                } else {
                    assert(queued(r.queue, road) == queued(r0.queue, road));
                }
            } else {
                assert(a[k] == t);
                assert(queued(r.queue, road)[queued(r.queue, road).len() - 1] == t);
            }
        }
    }
}

/// The issued tickets are among the candidates.
pub proof fn lemma_accepted_among(issued: Seq<IssuedKey>, ts: Seq<TicketView>)
    ensures
        forall|k: int| 0 <= k < accepted(issued, ts).len() ==> ts.contains(#[trigger] accepted(issued, ts)[k]),
    decreases ts.len(),
{
    if ts.len() > 0 {
        let pre = ts.drop_last();
        lemma_accepted_among(issued, pre);
        let a0 = accepted(issued, pre);
        let a = accepted(issued, ts);
        assert forall|k: int| 0 <= k < a.len() implies ts.contains(#[trigger] a[k]) by {
            if k < a0.len() {
                assert(a[k] == a0[k]);
                let i = choose|i: int| 0 <= i < pre.len() && pre[i] == a0[k];
                assert(ts[i] == pre[i]);
            } else {
                assert(ts[ts.len() - 1] == a[k]);
            }
        }
    }
}

/// What a plate report sends and queues: each ticket it sends goes to the
/// first dispatcher registered for the ticket's road, each ticket it queues
/// waits on a road with no dispatcher, and every such ticket is on the
/// reporting camera's road and records the new observation with a stored
/// one of the same plate on that road, over the speed limit. Queues of roads
/// with dispatchers are left alone.
pub proof fn lemma_plate_report_tickets(s: ServerView, conn: u64, p: PlateView)
    requires
        spec_process(s, conn, MessageView::Plate(p)) is Ok,
    ensures
        ({
            let (s2, acts) = spec_process(s, conn, MessageView::Plate(p))->Ok_0;
            let o = reported_observation(s, conn, p);
            &&& forall|i: int|
                0 <= i < acts.len() ==> (#[trigger] acts[i] matches ActionView::SendTicket { dispatcher, ticket }
                    && from_speeding_on_road(s.plates, o, ticket) && s.dispatchers.contains_key(ticket.road)
                    && s.dispatchers[ticket.road].len() > 0 && s.dispatchers[ticket.road][0] == dispatcher
                    && s.dispatcher_streams.contains(dispatcher))
            &&& forall|road: u16, i: int|
                queued(s.ticket_queue, road).len() <= i < queued(s2.ticket_queue, road).len() ==> !s.dispatchers.contains_key(road)
                    && from_speeding_on_road(s.plates, o, #[trigger] queued(s2.ticket_queue, road)[i])
            &&& forall|road: u16|
                queued(s.ticket_queue, road).is_prefix_of(#[trigger] queued(s2.ticket_queue, road))
            &&& forall|road: u16| s.dispatchers.contains_key(road) ==> #[trigger] queued(s2.ticket_queue, road) == queued(s.ticket_queue, road)
        }),
{
    let o = reported_observation(s, conn, p);
    let ts = potential_tickets(s.plates, o);
    let st = IssueView { issued: s.issued, queue: s.ticket_queue, actions: seq![] };
    let r = issue_all(st, s.dispatchers, s.dispatcher_streams, ts);
    let a = accepted(s.issued, ts);
    lemma_sent_and_queued_are_accepted(st, s.dispatchers, s.dispatcher_streams, ts);
    lemma_issue_routes(st, s.dispatchers, s.dispatcher_streams, ts);
    lemma_accepted_among(s.issued, ts);
    lemma_tickets_pair_observations_on_one_road(s.plates, o);
    assert forall|t: TicketView| a.contains(t) implies from_speeding_on_road(s.plates, o, t) by {
        let k = choose|k: int| 0 <= k < a.len() && a[k] == t;
        assert(ts.contains(a[k]));
        let i = choose|i: int| 0 <= i < ts.len() && ts[i] == t;
        assert(from_speeding_on_road(s.plates, o, ts[i]));
    }
    assert forall|i: int| 0 <= i < r.actions.len() implies (#[trigger] r.actions[i] matches ActionView::SendTicket {
        dispatcher,
        ticket,
    } && from_speeding_on_road(s.plates, o, ticket)) by {
        if let ActionView::SendTicket { ticket, .. } = r.actions[i] {
            assert(a.contains(ticket));
        }
    }
    assert forall|road: u16, i: int|
        queued(s.ticket_queue, road).len() <= i < queued(r.queue, road).len() implies from_speeding_on_road(
            s.plates,
            o,
            #[trigger] queued(r.queue, road)[i],
        ) by {
        assert(a.contains(queued(r.queue, road)[i]));
    }
}

/// Registering as a dispatcher for some roads puts the connection at the end
/// of each of those roads' dispatchers and among the dispatcher connections;
/// the other roads keep their dispatchers. The tickets queued for those
/// roads are handed to it.
pub proof fn lemma_dispatcher_registration(s: ServerView, conn: u64, d: DispatcherView)
    ensures
        ({
            let (s2, acts) = spec_process(s, conn, MessageView::IAmDispatcher(d))->Ok_0;
            &&& spec_process(s, conn, MessageView::IAmDispatcher(d)) is Ok
            &&& s2.dispatcher_streams.contains(conn)
            &&& forall|r: u16|
                d.roads.contains(r) ==> #[trigger] s2.dispatchers.contains_key(r) && s2.dispatchers[r].last() == conn
                    && !s2.ticket_queue.contains_key(r)
            &&& forall|r: u16| !d.roads.contains(r) ==> (#[trigger] s2.dispatchers.contains_key(r) == s.dispatchers.contains_key(r))
                && (s.dispatchers.contains_key(r) ==> s2.dispatchers[r] == s.dispatchers[r])
            &&& forall|r: u16, i: int|
                d.roads.contains(r) && s.ticket_queue.contains_key(r) && 0 <= i < s.ticket_queue[r].len() ==> acts.contains(
                    ActionView::SendTicket { dispatcher: conn, ticket: #[trigger] s.ticket_queue[r][i] },
                )
        }),
{
    lemma_add_dispatcher_registers(s.dispatchers, d.roads, conn);
    assert forall|r: u16, i: int|
        d.roads.contains(r) && s.ticket_queue.contains_key(r) && 0 <= i < s.ticket_queue[r].len() implies
            flush_queue(s.ticket_queue, d.roads, conn).1.contains(
            ActionView::SendTicket { dispatcher: conn, ticket: #[trigger] s.ticket_queue[r][i] },
        ) by {
        lemma_registration_delivers_queue(s.ticket_queue, d.roads, conn, r);
    }
    assert forall|r: u16| d.roads.contains(r) implies !flush_queue(s.ticket_queue, d.roads, conn).0.contains_key(r) by {
        lemma_registration_delivers_queue(s.ticket_queue, d.roads, conn, r);
    }
}

/// The messages whose processing needs the sender to be a known connection.
pub open spec fn needs_known_sender(m: MessageView) -> bool {
    m is IAmCamera || m is IAmDispatcher || m is WantHeartbeat
}

/// What a connection's received bytes do, read one message at a time: the
/// server state after them, the actions asked for, the bytes left for later
/// (an incomplete message), and whether the client broke the protocol (a
/// malformed message, one its state forbids, or one whose processing
/// failed), after which nothing more is read and the connection is to be
/// sent an error and closed.
pub open spec fn spec_receive(s: ServerView, conn: u64, buf: Seq<u8>) -> (ServerView, Seq<ActionView>, Seq<u8>, bool)
    decreases buf.len(),
{
    if buf.len() == 0 {
        (s, seq![], buf, false)
    } else {
        match spec_try_parse(buf) {
            Err(ParseError::InsufficientData) => (s, seq![], buf, false),
            Err(_) => (s, seq![], buf, true),
            Ok((m, n)) => {
                proof {
                    lemma_try_parse_prefix_stable(buf, seq![]);
                }
                let rest = buf.skip(n as int);
                match spec_validate(m, s.clients[conn]) {
                    Some(_) => (s, seq![], rest, true),
                    None => match spec_process(s, conn, m) {
                        Err(_) => (s, seq![], rest, true),
                        Ok((s2, a)) => {
                            let (s3, a3, r3, e3) = spec_receive(s2, conn, rest);
                            (s3, a + a3, r3, e3)
                        },
                    },
                }
            },
        }
    }
}

/// Bytes may arrive in pieces: reading a first piece, then what it left
/// followed by the next piece, does the same as reading both pieces at
/// once (unless the first piece already broke the protocol).
pub proof fn lemma_receive_in_pieces(s: ServerView, conn: u64, b1: Seq<u8>, b2: Seq<u8>)
    requires
        !spec_receive(s, conn, b1).3,
    ensures
        ({
            let (s1, a1, r1, e1) = spec_receive(s, conn, b1);
            let (s2, a2, r2, e2) = spec_receive(s1, conn, r1 + b2);
            spec_receive(s, conn, b1 + b2) == (s2, a1 + a2, r2, e2)
        }),
    decreases b1.len(),
{
    let (s1, a1, r1, e1) = spec_receive(s, conn, b1);
    let (s2, a2, r2, e2) = spec_receive(s1, conn, r1 + b2);
    if b1.len() == 0 {
        assert(b1 + b2 =~= b2);
        assert(a1 + a2 =~= a2);
    } else {
        match spec_try_parse(b1) {
            Err(ParseError::InsufficientData) => {
                assert(a1 + a2 =~= a2);
            },
            Err(_) => {},
            Ok((m, n)) => {
                lemma_try_parse_prefix_stable(b1, b2);
                lemma_try_parse_prefix_stable(b1, seq![]);
                assert(b1 + seq![] =~= b1);
                assert((b1 + b2).skip(n as int) =~= b1.skip(n as int) + b2);
                assert((b1 + b2).len() > 0);
                if spec_validate(m, s.clients[conn]) is None {
                    if let Ok((s_next, a)) = spec_process(s, conn, m) {
                        lemma_receive_in_pieces(s_next, conn, b1.skip(n as int), b2);
                        let (s3, a3, r3, e3) = spec_receive(s_next, conn, b1.skip(n as int));
                        assert(a + (a3 + a2) =~= (a + a3) + a2);
                    }
                }
            },
        }
    }
}

/// The result of reading a connection's received bytes.
pub struct Received {
    /// What the network driver must do, in order.
    pub actions: Vec<Action>,
    /// The client broke the protocol: send it an error and close.
    pub error: bool,
}

impl Server {
    /// A server with no connections and no records.
    pub fn new() -> (s: Server)
        ensures
            server_wf(s@),
            s@.clients == Map::<u64, ClientStateView>::empty(),
            s@.plates == Seq::<ObservationView>::empty(),
            s@.dispatchers == Map::<u16, Seq<u64>>::empty(),
            s@.dispatcher_streams == Set::<u64>::empty(),
            s@.ticket_queue == Map::<u16, Seq<TicketView>>::empty(),
            s@.issued == Seq::<IssuedKey>::empty(),
            s@.next_id == 0,
    {
        let s = Server {
            clients: HashMap::new(),
            plates: Vec::new(),
            dispatchers: HashMap::new(),
            dispatcher_streams: HashSet::new(),
            ticket_queue: HashMap::new(),
            issued_tickets: Vec::new(),
            next_id: 0,
        };
        assert(s@.clients =~= Map::<u64, ClientStateView>::empty());
        assert(s@.plates =~= Seq::<ObservationView>::empty());
        assert(s@.dispatchers =~= Map::<u16, Seq<u64>>::empty());
        assert(s@.ticket_queue =~= Map::<u16, Seq<TicketView>>::empty());
        assert(s@.issued =~= Seq::<IssuedKey>::empty());
        s
    }

    /// A new connection, not identified yet.
    pub fn connect(&mut self, conn: u64)
        ensures
            final(self)@ == (ServerView { clients: old(self)@.clients.insert(conn, fresh_client_state()), ..old(self)@ }),
    {
        self.clients.insert(conn, ClientState::new());
        assert(self@.clients =~= old(self)@.clients.insert(conn, fresh_client_state()));
    }

    /// The tickets waiting for a dispatcher of `road`, oldest first.
    pub fn queued_tickets(&self, road: u16) -> (r: Vec<Ticket>)
        ensures
            r@.map_values(|t: Ticket| t@) == queued(self@.ticket_queue, road),
    {
        let mut r: Vec<Ticket> = Vec::new();
        match self.ticket_queue.get(&road) {
            Some(q) => {
                let ghost all = q@.map_values(|t: Ticket| t@);
                let mut i: usize = 0;
                while i < q.len()
                    invariant
                        i <= q@.len(),
                        all == q@.map_values(|t: Ticket| t@),
                        r@.map_values(|t: Ticket| t@) == all.take(i as int),
                    decreases q@.len() - i,
                {
                    let ghost prev = r@;
                    let t = q[i].duplicate();
                    assert(t@ == all[i as int]);
                    r.push(t);
                    assert(r@.map_values(|t: Ticket| t@) =~= prev.map_values(|t: Ticket| t@).push(all[i as int]));
                    i = i + 1;
                    assert(r@.map_values(|t: Ticket| t@) =~= all.take(i as int));
                }
                assert(all.take(i as int) =~= all);
            },
            None => {
                assert(r@.map_values(|t: Ticket| t@) =~= Seq::<TicketView>::empty());
            },
        }
        r
    }

    /// Set the state of a connection.
    pub fn insert_client(&mut self, conn: u64, state: ClientState)
        ensures
            final(self)@ == (ServerView { clients: old(self)@.clients.insert(conn, state@), ..old(self)@ }),
    {
        let ghost sv = state@;
        self.clients.insert(conn, state);
        assert(self@.clients =~= old(self)@.clients.insert(conn, sv));
    }

    /// A connection has closed: its state is dropped. Its registrations as a
    /// dispatcher stay.
    pub fn disconnect(&mut self, conn: u64)
        ensures
            final(self)@ == (ServerView { clients: old(self)@.clients.remove(conn), ..old(self)@ }),
    {
        self.clients.remove(&conn);
        assert(self@.clients =~= old(self)@.clients.remove(conn));
    }

    /// The state of a connection.
    pub fn client(&self, conn: u64) -> (r: Option<&ClientState>)
        ensures
            r is Some <==> self@.clients.contains_key(conn),
            r matches Some(c) ==> c@ == self@.clients[conn],
    {
        self.clients.get(&conn)
    }

    /// All observations, in increasing (plate, timestamp) order.
    pub fn observations(&self) -> (r: &Vec<PlateObservation>)
        ensures
            r@.map_values(|o: PlateObservation| o@) == self@.plates,
    {
        &self.plates
    }

    /// Whether the heartbeat task of `conn` goes on: the connection is open
    /// and asked for a positive interval.
    pub fn heartbeat_should_continue(&self, conn: u64) -> (r: bool)
        ensures
            r == (self@.clients.contains_key(conn) && (self@.clients[conn].heartbeat_interval matches Some(i) && i > 0)),
    {
        match self.clients.get(&conn) {
            Some(state) => match state.heartbeat_interval {
                Some(i) => i > 0,
                None => false,
            },
            None => false,
        }
    }

    /// `plates[i]` comes before the key of `p`.
    fn key_before(&self, i: usize, p: &Plate, p_bytes: &Vec<u8>) -> (r: bool)
        requires
            i < self.plates@.len(),
            p_bytes@ == encode_utf8(p.plate@),
        ensures
            r == plate_key_lt(self@.plates[i as int].plate, p@),
    {
        let stored = &self.plates[i];
        let stored_bytes = str_bytes(stored.plate.plate.as_str());
        bytes_lt(&stored_bytes, p_bytes) || (stored.plate.plate == p.plate && stored.plate.timestamp < p.timestamp)
    }

    /// Record an observation, replacing the one with the same key.
    fn insert_observation(&mut self, o: PlateObservation)
        requires
            server_wf(old(self)@),
        ensures
            final(self)@ == (ServerView { plates: insert_observation(old(self)@.plates, o@), ..old(self)@ }),
            server_wf(final(self)@),
    {
        let ghost s0 = self@.plates;
        let p_bytes = str_bytes(o.plate.plate.as_str());
        let mut i: usize = 0;
        assert(s0.skip(0) =~= s0);
        while i < self.plates.len()
            invariant_except_break
                i <= self.plates@.len(),
                self@ == old(self)@,
                p_bytes@ == encode_utf8(o.plate.plate@),
                s0 == self@.plates,
                insert_position(s0, o@.plate) == i + insert_position(s0.skip(i as int), o@.plate),
            ensures
                self@ == old(self)@,
                s0 == self@.plates,
                insert_position(s0, o@.plate) == i,
                i <= self.plates@.len(),
            decreases self.plates@.len() - i,
        {
            if !self.key_before(i, &o.plate, &p_bytes) {
                assert(s0.skip(i as int)[0] == s0[i as int]);
                break;
            }
            assert(s0.skip(i as int).drop_first() =~= s0.skip(i + 1));
            i = i + 1;
        }
        proof {
            lemma_insert_observation_sorted(s0, o@);
        }
        let same = i < self.plates.len() && self.plates[i].plate.plate == o.plate.plate
            && self.plates[i].plate.timestamp == o.plate.timestamp;
        if same {
            self.plates.set(i, o);
        } else {
            self.plates.insert(i, o);
        }
        assert(self@.plates =~= insert_observation(s0, o@));
    }

    /// The tickets that `o` gives against the stored observations, in stored
    /// (plate, timestamp) order.
    fn potential_tickets(&self, o: &PlateObservation) -> (r: Vec<Ticket>)
        ensures
            r@.map_values(|t: Ticket| t@) == potential_tickets(self@.plates, o@),
            forall|i: int| 0 <= i < r@.len() ==> (#[trigger] r@[i])@.timestamp1 <= r@[i]@.timestamp2,
    {
        let ghost s0 = self@.plates;
        let mut r: Vec<Ticket> = Vec::new();
        let mut i: usize = 0;
        while i < self.plates.len()
            invariant
                i <= self.plates@.len(),
                s0 == self@.plates,
                r@.map_values(|t: Ticket| t@) == potential_tickets(s0.take(i as int), o@),
                forall|j: int| 0 <= j < r@.len() ==> (#[trigger] r@[j])@.timestamp1 <= r@[j]@.timestamp2,
            decreases self.plates@.len() - i,
        {
            let stored = &self.plates[i];
            assert(s0.take(i + 1).drop_last() =~= s0.take(i as int));
            assert(s0.take(i + 1).last() == stored@);
            if stored.plate.plate == o.plate.plate && stored.camera.road == o.camera.road
                && stored.plate.timestamp != o.plate.timestamp {
                let ts = stored.plate.timestamp;
                let to = o.plate.timestamp;
                let td: u64 = if to >= ts { (to - ts) as u64 } else { (ts - to) as u64 };
                let md: u64 = if o.camera.mile >= stored.camera.mile {
                    (o.camera.mile - stored.camera.mile) as u64
                } else {
                    (stored.camera.mile - o.camera.mile) as u64
                };
                let num: u64 = 2 * md * 3600 + td;
                let den: u64 = 2 * td;
                let speed: u64 = num / den;
                assert(speed <= num) by (nonlinear_arith)
                    requires
                        speed == num / den,
                        den > 0,
                ;
                let limit = if stored.camera.limit <= o.camera.limit {
                    stored.camera.limit
                } else {
                    o.camera.limit
                };
                if speed > limit as u64 {
                    let speed100 = ((speed * 100) % 65536) as u16;
                    let t = if ts <= to {
                        Ticket {
                            plate: o.plate.plate.clone(),
                            road: o.camera.road,
                            mile1: stored.camera.mile,
                            timestamp1: ts,
                            mile2: o.camera.mile,
                            timestamp2: to,
                            speed: speed100,
                        }
                    } else {
                        Ticket {
                            plate: o.plate.plate.clone(),
                            road: o.camera.road,
                            mile1: o.camera.mile,
                            timestamp1: to,
                            mile2: stored.camera.mile,
                            timestamp2: ts,
                            speed: speed100,
                        }
                    };
                    r.push(t);
                }
            }
            i = i + 1;
            assert(r@.map_values(|t: Ticket| t@) =~= potential_tickets(s0.take(i as int), o@));
        }
        assert(s0.take(i as int) =~= s0);
        r
    }

    /// Whether the (plate, road, day) is already ticketed.
    fn issued_contains(&self, plate: &String, road: u16, day: u32) -> (r: bool)
        ensures
            r == self@.issued.contains((plate@, road, day)),
    {
        let mut i: usize = 0;
        while i < self.issued_tickets.len()
            invariant
                i <= self.issued_tickets@.len(),
                forall|j: int| 0 <= j < i ==> self@.issued[j] != (plate@, road, day),
            decreases self.issued_tickets@.len() - i,
        {
            let d = &self.issued_tickets[i];
            if d.plate == *plate && d.road == road && d.day == day {
                assert(self@.issued[i as int] == (plate@, road, day));
                return true;
            }
            i = i + 1;
        }
        false
    }

    /// Issue one ticket (see `issue`).
    fn issue_ticket(&mut self, t: Ticket, actions: &mut Vec<Action>)
        requires
            t@.timestamp1 <= t@.timestamp2,
        ensures
            ({
                let st = issue(
                    IssueView { issued: old(self)@.issued, queue: old(self)@.ticket_queue, actions: actions_view(old(actions)@) },
                    old(self)@.dispatchers,
                    old(self)@.dispatcher_streams,
                    t@,
                );
                &&& final(self)@ == (ServerView { issued: st.issued, ticket_queue: st.queue, ..old(self)@ })
                &&& actions_view(final(actions)@) == st.actions
            }),
    {
        let d1 = t.timestamp1 / 86400;
        let d2 = t.timestamp2 / 86400;
        let mut d = d1;
        let mut already = false;
        while d <= d2
            invariant_except_break
                d1 <= d <= d2 + 1,
                d1 == day_of(t.timestamp1),
                d2 == day_of(t.timestamp2),
                d2 < 0x1_0000,
                !already,
                forall|x: u32| d1 <= x < d ==> !self@.issued.contains((t@.plate, t@.road, x)),
            ensures
                already ==> already_issued(self@.issued, t@),
                !already ==> !already_issued(self@.issued, t@),
            decreases d2 + 1 - d,
        {
            if self.issued_contains(&t.plate, t.road, d) {
                assert(self@.issued.contains((t@.plate, t@.road, d)));
                already = true;
                break;
            }
            d = d + 1;
        }
        if already {
            return;
        }
        let ghost issued0 = self@.issued;
        let mut d = d1;
        while d <= d2
            invariant
                d1 <= d <= d2 + 1,
                d1 == day_of(t.timestamp1),
                d2 == day_of(t.timestamp2),
                d2 < 0x1_0000,
                self@ == (ServerView { issued: self@.issued, ..old(self)@ }),
                self@.issued == issued0 + days_of(t@).take(d - d1),
            decreases d2 + 1 - d,
        {
            let ghost prev = self@.issued;
            self.issued_tickets.push(IssuedDay { plate: t.plate.clone(), road: t.road, day: d });
            assert(self@.issued =~= prev.push((t@.plate, t@.road, d)));
            assert(days_of(t@)[d - d1] == (t@.plate, t@.road, d));
            assert(days_of(t@).take(d + 1 - d1) =~= days_of(t@).take(d - d1).push(days_of(t@)[d - d1]));
            d = d + 1;
            assert(self@.issued =~= issued0 + days_of(t@).take(d - d1));
        }
        assert(days_of(t@).take(d - d1) =~= days_of(t@));
        let road = t.road;
        match self.dispatchers.get(&road) {
            Some(list) => {
                if list.len() > 0 {
                    let first = list[0];
                    if self.dispatcher_streams.contains(&first) {
                        actions.push(Action::SendTicket { dispatcher: first, ticket: t });
                        assert(actions_view(actions@) =~= actions_view(old(actions)@).push(
                            ActionView::SendTicket { dispatcher: first, ticket: t@ },
                        ));
                    }
                }
            },
            None => {
                let ghost tv = t@;
                let ghost q0 = self.ticket_queue@;
                let ghost qv0 = self@.ticket_queue;
                assert(qv0 == old(self)@.ticket_queue);
                let mut q = match self.ticket_queue.remove(&road) {
                    Some(v) => v,
                    None => Vec::new(),
                };
                assert(self.ticket_queue@ == q0.remove(road));
                assert(q@.map_values(|x: Ticket| x@) =~= queued(qv0, road));
                q.push(t);
                assert(q@.map_values(|x: Ticket| x@) =~= queued(qv0, road).push(tv));
                self.ticket_queue.insert(road, q);
                assert(self.ticket_queue@ == q0.remove(road).insert(road, q));
                assert(self@.ticket_queue =~= qv0.insert(road, queued(qv0, road).push(tv)));
            },
        }
    }

    /// Issue tickets in order (see `issue_all`).
    fn issue_tickets(&mut self, tickets: Vec<Ticket>, actions: &mut Vec<Action>)
        requires
            forall|i: int| 0 <= i < tickets@.len() ==> (#[trigger] tickets@[i])@.timestamp1 <= tickets@[i]@.timestamp2,
        ensures
            ({
                let st = issue_all(
                    IssueView { issued: old(self)@.issued, queue: old(self)@.ticket_queue, actions: actions_view(old(actions)@) },
                    old(self)@.dispatchers,
                    old(self)@.dispatcher_streams,
                    tickets@.map_values(|t: Ticket| t@),
                );
                &&& final(self)@ == (ServerView { issued: st.issued, ticket_queue: st.queue, ..old(self)@ })
                &&& actions_view(final(actions)@) == st.actions
            }),
    {
        let ghost all = tickets@.map_values(|t: Ticket| t@);
        let ghost init = IssueView {
            issued: old(self)@.issued,
            queue: old(self)@.ticket_queue,
            actions: actions_view(old(actions)@),
        };
        let mut rest = tickets;
        let ghost mut k: int = 0;
        assert(all.take(0) =~= Seq::<TicketView>::empty());
        while rest.len() > 0
            invariant
                0 <= k <= all.len(),
                all.len() == tickets@.len(),
                all == tickets@.map_values(|t: Ticket| t@),
                forall|i: int| 0 <= i < tickets@.len() ==> (#[trigger] tickets@[i])@.timestamp1 <= tickets@[i]@.timestamp2,
                rest@.map_values(|t: Ticket| t@) == all.skip(k as int),
                ({
                    let st = issue_all(init, old(self)@.dispatchers, old(self)@.dispatcher_streams, all.take(k as int));
                    &&& self@ == (ServerView { issued: st.issued, ticket_queue: st.queue, ..old(self)@ })
                    &&& actions_view(actions@) == st.actions
                }),
            decreases rest@.len(),
        {
            let ghost r0 = rest@;
            assert(r0.map_values(|t: Ticket| t@).len() == r0.len());
            assert(all.skip(k as int).len() > 0);
            assert(k < all.len());
            assert(r0.map_values(|t: Ticket| t@)[0] == r0[0]@);
            assert(all.skip(k as int)[0] == all[k as int]);
            assert(r0.map_values(|t: Ticket| t@)[0] == all[k as int]);
            let t = rest.remove(0);
            assert(t@ == all[k as int]);
            assert(all[k as int] == tickets@[k as int]@);
            assert(all.take(k + 1).drop_last() =~= all.take(k as int));
            assert(rest@ == r0.remove(0));
            assert forall|i: int| 0 <= i < rest@.len() implies (#[trigger] rest@[i])@ == all.skip(k + 1)[i] by {
                assert(rest@[i] == r0[i + 1]);
                assert(r0.map_values(|t: Ticket| t@)[i + 1] == all.skip(k as int)[i + 1]);
            }
            self.issue_ticket(t, actions);
            proof {
                k = k + 1;
            }
            assert(rest@.map_values(|t: Ticket| t@) =~= all.skip(k as int));
        }
        assert(all.skip(k as int).len() == 0);
        assert(all.take(k as int) =~= all);
    }


    /// Add `conn` to the dispatchers of each of `roads` (see `add_dispatcher`).
    fn register_dispatcher(&mut self, conn: u64, roads: &Vec<u16>)
        ensures
            final(self)@ == (ServerView { dispatchers: add_dispatcher(old(self)@.dispatchers, roads@, conn), ..old(self)@ }),
    {
        let mut i: usize = 0;
        assert(roads@.take(0) =~= Seq::<u16>::empty());
        while i < roads.len()
            invariant
                i <= roads@.len(),
                self@ == (ServerView { dispatchers: add_dispatcher(old(self)@.dispatchers, roads@.take(i as int), conn), ..old(self)@ }),
            decreases roads@.len() - i,
        {
            let r = roads[i];
            let ghost d0 = self.dispatchers@;
            let ghost dv0 = self@.dispatchers;
            let mut list = match self.dispatchers.remove(&r) {
                Some(v) => v,
                None => Vec::new(),
            };
            assert(list@ =~= (if dv0.contains_key(r) { dv0[r] } else { seq![] }));
            list.push(conn);
            self.dispatchers.insert(r, list);
            assert(self.dispatchers@ == d0.remove(r).insert(r, list));
            assert(roads@.take(i + 1).drop_last() =~= roads@.take(i as int));
            assert(roads@.take(i + 1).last() == r);
            i = i + 1;
            assert(self@.dispatchers =~= dv0.insert(r, (if dv0.contains_key(r) { dv0[r] } else { seq![] }).push(conn)));
        }
        assert(roads@.take(i as int) =~= roads@);
    }

    /// Send the queued tickets of `roads` to `conn` (see `flush_queue`).
    fn flush_queue(&mut self, conn: u64, roads: &Vec<u16>, actions: &mut Vec<Action>)
        ensures
            ({
                let (q, a) = flush_queue(old(self)@.ticket_queue, roads@, conn);
                &&& final(self)@ == (ServerView { ticket_queue: q, ..old(self)@ })
                &&& actions_view(final(actions)@) == actions_view(old(actions)@) + a
            }),
    {
        let mut i: usize = 0;
        assert(roads@.take(0) =~= Seq::<u16>::empty());
        assert(actions_view(actions@) =~= actions_view(old(actions)@) + Seq::<ActionView>::empty());
        while i < roads.len()
            invariant
                i <= roads@.len(),
                ({
                    let (q, a) = flush_queue(old(self)@.ticket_queue, roads@.take(i as int), conn);
                    &&& self@ == (ServerView { ticket_queue: q, ..old(self)@ })
                    &&& actions_view(actions@) == actions_view(old(actions)@) + a
                }),
            decreases roads@.len() - i,
        {
            let r = roads[i];
            let ghost q0 = self.ticket_queue@;
            let ghost qv0 = self@.ticket_queue;
            let ghost a0 = actions_view(actions@);
            assert(roads@.take(i + 1).drop_last() =~= roads@.take(i as int));
            assert(roads@.take(i + 1).last() == r);
            match self.ticket_queue.remove(&r) {
                Some(q) => {
                    let ghost all = qv0[r];
                    assert(q@.map_values(|t: Ticket| t@) =~= all);
                    let mut q = q;
                    let ghost mut j: int = 0;
                    assert(actions_view(actions@) =~= a0 + all.take(0).map_values(
                        |t: TicketView| ActionView::SendTicket { dispatcher: conn, ticket: t },
                    ));
                    while q.len() > 0
                        invariant
                            0 <= j <= all.len(),
                            q@.map_values(|t: Ticket| t@) == all.skip(j),
                            actions_view(actions@) == a0 + all.take(j).map_values(
                                |t: TicketView| ActionView::SendTicket { dispatcher: conn, ticket: t },
                            ),
                        decreases q@.len(),
                    {
                        let ghost r0 = q@;
                        assert(r0.map_values(|t: Ticket| t@).len() == r0.len());
                        assert(all.skip(j).len() > 0);
                        assert(r0.map_values(|t: Ticket| t@)[0] == r0[0]@);
                        assert(all.skip(j)[0] == all[j]);
                        let t = q.remove(0);
                        assert(t@ == all[j]);
                        assert(q@ == r0.remove(0));
                        assert forall|k: int| 0 <= k < q@.len() implies (#[trigger] q@[k])@ == all.skip(j + 1)[k] by {
                            assert(q@[k] == r0[k + 1]);
                            assert(r0.map_values(|t: Ticket| t@)[k + 1] == all.skip(j)[k + 1]);
                        }
                        let ghost tv = t@;
                        let ghost prev = actions@;
                        actions.push(Action::SendTicket { dispatcher: conn, ticket: t });
                        assert(actions_view(actions@) =~= actions_view(prev).push(
                            ActionView::SendTicket { dispatcher: conn, ticket: tv },
                        ));
                        proof {
                            j = j + 1;
                        }
                        assert(q@.map_values(|t: Ticket| t@) =~= all.skip(j));
                        assert(all.take(j).map_values(|t: TicketView| ActionView::SendTicket { dispatcher: conn, ticket: t })
                            =~= all.take(j - 1).map_values(|t: TicketView| ActionView::SendTicket { dispatcher: conn, ticket: t }).push(
                                ActionView::SendTicket { dispatcher: conn, ticket: all[j - 1] }));
                        assert(actions_view(actions@) =~= a0 + all.take(j).map_values(
                            |t: TicketView| ActionView::SendTicket { dispatcher: conn, ticket: t },
                        ));
                    }
                    assert(all.skip(j).len() == 0);
                    assert(all.take(j) =~= all);
                    assert(self.ticket_queue@ == q0.remove(r));
                    assert(self@.ticket_queue =~= qv0.remove(r));
                },
                None => {
                    assert(self.ticket_queue@ == q0);
                    assert(self@.ticket_queue =~= qv0);
                },
            }
            i = i + 1;
        }
        assert(roads@.take(i as int) =~= roads@);
    }

    /// The id for the next client to identify itself; ids count up from 0
    /// and wrap around.
    fn next_client_id(&mut self) -> (r: u32)
        ensures
            r == old(self)@.next_id,
            final(self)@ == (ServerView { next_id: successor_id(old(self)@.next_id), ..old(self)@ }),
    {
        let id = self.next_id;
        self.next_id = if id == u32::MAX { 0 } else { id + 1 };
        id
    }

    /// Process an accepted message from connection `conn` (see
    /// `spec_process`): record identifications and heartbeat requests,
    /// record plates and issue the tickets they give. Returns what the
    /// network driver must do. On error nothing changes.
    pub fn process_message(&mut self, conn: u64, message: Message) -> (r: Result<Vec<Action>, ProcessError>)
        requires
            server_wf(old(self)@),
            needs_known_sender(message@) ==> old(self)@.clients.contains_key(conn),
        ensures
            server_wf(final(self)@),
            match spec_process(old(self)@, conn, message@) {
                Ok((s2, acts)) => r matches Ok(a) && final(self)@ == s2 && actions_view(a@) == acts,
                Err(e) => r == Err::<Vec<Action>, ProcessError>(e) && final(self)@ == old(self)@,
            },
    {
        let ghost m = message@;
        match message {
            Message::IAmCamera(c) => {
                let id = self.next_client_id();
                let ghost cv0 = self@.clients;
                let ghost c0 = self.clients@;
                let mut st = match self.clients.remove(&conn) {
                    Some(st) => st,
                    None => ClientState::new(),
                };
                assert(st@ == cv0[conn]);
                st.set_client_type(ClientType::Camera { road: c.road, mile: c.mile, limit: c.limit });
                st.client_id = Some(id);
                self.clients.insert(conn, st);
                assert(self.clients@ == c0.remove(conn).insert(conn, st));
                assert(self@.clients =~= cv0.insert(conn, st@));
                Ok(Vec::new())
            },
            Message::IAmDispatcher(d) => {
                let id = self.next_client_id();
                let ghost cv0 = self@.clients;
                let ghost c0 = self.clients@;
                let mut st = match self.clients.remove(&conn) {
                    Some(st) => st,
                    None => ClientState::new(),
                };
                assert(st@ == cv0[conn]);
                st.set_client_type(ClientType::Dispatcher { roads: crate::client::copy_roads(&d.roads) });
                st.client_id = Some(id);
                self.clients.insert(conn, st);
                assert(self.clients@ == c0.remove(conn).insert(conn, st));
                assert(self@.clients =~= cv0.insert(conn, st@));
                self.register_dispatcher(conn, &d.roads);
                self.dispatcher_streams.insert(conn);
                let mut actions: Vec<Action> = Vec::new();
                assert(actions_view(actions@) =~= Seq::<ActionView>::empty());
                self.flush_queue(conn, &d.roads, &mut actions);
                Ok(actions)
            },
            Message::Plate(p) => {
                let (id, camera) = match self.clients.get(&conn) {
                    None => {
                        return Err(ProcessError::ClientStateNotFound);
                    },
                    Some(st) => {
                        let id = match st.client_id {
                            Some(id) => id,
                            None => {
                                return Err(ProcessError::NotFullyIdentified);
                            },
                        };
                        let camera = match &st.client_type {
                            Some(ClientType::Camera { road, mile, limit }) => IAmCamera {
                                road: *road,
                                mile: *mile,
                                limit: *limit,
                            },
                            _ => {
                                return Err(ProcessError::NotACamera);
                            },
                        };
                        (id, camera)
                    },
                };
                let obs = PlateObservation { plate: p, camera, camera_id: id };
                let tickets = self.potential_tickets(&obs);
                let mut actions: Vec<Action> = Vec::new();
                assert(actions_view(actions@) =~= Seq::<ActionView>::empty());
                proof {
                    lemma_issue_all_no_repeats(
                        IssueView { issued: self@.issued, queue: self@.ticket_queue, actions: seq![] },
                        self@.dispatchers,
                        self@.dispatcher_streams,
                        tickets@.map_values(|t: Ticket| t@),
                    );
                }
                self.issue_tickets(tickets, &mut actions);
                self.insert_observation(obs);
                Ok(actions)
            },
            Message::WantHeartbeat(w) => {
                let ghost cv0 = self@.clients;
                let ghost c0 = self.clients@;
                match self.clients.get(&conn) {
                    Some(st) => {
                        if st.has_heartbeat {
                            return Err(ProcessError::DuplicateHeartbeatRequest);
                        }
                    },
                    None => {},
                }
                let mut st = match self.clients.remove(&conn) {
                    Some(st) => st,
                    None => ClientState::new(),
                };
                assert(st@ == cv0[conn]);
                st.has_heartbeat = true;
                st.heartbeat_interval = Some(w.interval);
                self.clients.insert(conn, st);
                assert(self.clients@ == c0.remove(conn).insert(conn, st));
                assert(self@.clients =~= cv0.insert(conn, st@));
                let mut actions: Vec<Action> = Vec::new();
                if w.interval > 0 {
                    actions.push(Action::StartHeartbeat { interval: w.interval });
                }
                assert(actions_view(actions@) =~= (if w.interval > 0 {
                    seq![ActionView::StartHeartbeat { interval: w.interval }]
                } else {
                    seq![]
                }));
                Ok(actions)
            },
            _ => Err(ProcessError::UnexpectedMessageType),
        }
    }


    /// Read the messages at the front of `buffer`, received on `conn`, one at
    /// a time (see `spec_receive`): each is framed, checked against the
    /// sender's state and processed. Complete messages are removed from the
    /// buffer; an incomplete one stays for when more bytes arrive.
    pub fn receive_bytes(&mut self, conn: u64, buffer: &mut Vec<u8>) -> (r: Received)
        requires
            server_wf(old(self)@),
            old(self)@.clients.contains_key(conn),
        ensures
            server_wf(final(self)@),
            final(self)@.clients.contains_key(conn),
            ({
                let (s2, a, rest, err) = spec_receive(old(self)@, conn, old(buffer)@);
                &&& final(self)@ == s2
                &&& actions_view(r.actions@) == a
                &&& final(buffer)@ == rest
                &&& r.error == err
            }),
    {
        let ghost buf0 = buffer@;
        let ghost s0 = self@;
        let mut actions: Vec<Action> = Vec::new();
        let mut pos: usize = 0;
        let mut error = false;
        assert(buf0.skip(0) =~= buf0);
        assert(actions_view(actions@) =~= Seq::<ActionView>::empty());
        while pos < buffer.len()
            invariant_except_break
                pos <= buffer@.len(),
                buffer@ == buf0,
                !error,
                server_wf(self@),
                self@.clients.contains_key(conn),
                ({
                    let (s3, a3, r3, e3) = spec_receive(self@, conn, buf0.skip(pos as int));
                    spec_receive(s0, conn, buf0) == (s3, actions_view(actions@) + a3, r3, e3)
                }),
            ensures
                pos <= buffer@.len(),
                buffer@ == buf0,
                server_wf(self@),
                self@.clients.contains_key(conn),
                spec_receive(s0, conn, buf0) == (self@, actions_view(actions@), buf0.skip(pos as int), error),
            decreases buffer@.len() - pos,
        {
            let ghost cur = buf0.skip(pos as int);
            let ghost sv = self@;
            let ghost av = actions_view(actions@);
            let slice = &buffer[pos..buffer.len()];
            assert(slice@ =~= cur);
            match try_parse_message(slice) {
                Ok((message, consumed)) => {
                    proof {
                        lemma_try_parse_prefix_stable(cur, seq![]);
                        assert(cur + seq![] =~= cur);
                    }
                    let ghost m = message@;
                    assert(buf0.skip(pos + consumed) =~= cur.skip(consumed as int));
                    let valid = match self.client(conn) {
                        Some(state) => validate_message(message, state),
                        None => Err(ProtocolError::IllegalMessage),
                    };
                    match valid {
                        Ok(valid_msg) => {
                            match self.process_message(conn, valid_msg) {
                                Ok(more) => {
                                    let ghost prev = actions@;
                                    let ghost mv = more@;
                                    let mut more = more;
                                    actions.append(&mut more);
                                    assert(actions_view(actions@) =~= actions_view(prev) + actions_view(mv));
                                    pos = pos + consumed;
                                },
                                Err(_) => {
                                    pos = pos + consumed;
                                    error = true;
                                    break;
                                },
                            }
                        },
                        Err(_) => {
                            pos = pos + consumed;
                            error = true;
                            break;
                        },
                    }
                },
                Err(ParseError::InsufficientData) => {
                    break;
                },
                Err(_) => {
                    error = true;
                    break;
                },
            }
        }
        let mut rest: Vec<u8> = Vec::new();
        let mut i = pos;
        while i < buffer.len()
            invariant
                pos <= i <= buffer@.len(),
                rest@ == buffer@.subrange(pos as int, i as int),
            decreases buffer@.len() - i,
        {
            rest.push(buffer[i]);
            i = i + 1;
            assert(rest@ =~= buffer@.subrange(pos as int, i as int));
        }
        assert(rest@ =~= buf0.skip(pos as int));
        *buffer = rest;
        Received { actions, error }
    }

}

} // verus!
