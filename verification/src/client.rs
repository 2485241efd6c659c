//! Client state of the speed camera system.
//!
//! Tracks a connection's state until it identifies itself, and the
//! identified client with its assigned id.

use vstd::prelude::*;

verus! {

/// Types of clients that can connect to the server.
#[derive(Debug, Clone, PartialEq, Eq)]
pub enum ClientType {
    /// Camera client that reports plate observations.
    Camera { road: u16, mile: u16, limit: u16 },
    /// Dispatcher client that receives tickets for specific roads.
    Dispatcher { roads: Vec<u16> },
}

/// Mathematical value of a `ClientType`.
pub enum ClientTypeView {
    Camera { road: u16, mile: u16, limit: u16 },
    Dispatcher { roads: Seq<u16> },
}

impl View for ClientType {
    type V = ClientTypeView;

    open spec fn view(&self) -> ClientTypeView {
        match self {
            ClientType::Camera { road, mile, limit } => ClientTypeView::Camera {
                road: *road,
                mile: *mile,
                limit: *limit,
            },
            ClientType::Dispatcher { roads } => ClientTypeView::Dispatcher { roads: roads@ },
        }
    }
}

/// A copy of a list of roads.
pub(crate) fn copy_roads(roads: &Vec<u16>) -> (r: Vec<u16>)
    ensures
        r@ == roads@,
{
    let mut r: Vec<u16> = Vec::new();
    let mut i: usize = 0;
    while i < roads.len()
        invariant
            i <= roads@.len(),
            r@ == roads@.subrange(0, i as int),
        decreases roads@.len() - i,
    {
        r.push(roads[i]);
        i = i + 1;
        assert(r@ =~= roads@.subrange(0, i as int));
    }
    assert(roads@.subrange(0, i as int) =~= roads@);
    r
}

impl ClientType {
    /// A copy of this client type.
    pub fn duplicate(&self) -> (r: ClientType)
        ensures
            r@ == self@,
    {
        match self {
            ClientType::Camera { road, mile, limit } => ClientType::Camera {
                road: *road,
                mile: *mile,
                limit: *limit,
            },
            ClientType::Dispatcher { roads } => ClientType::Dispatcher { roads: copy_roads(roads) },
        }
    }
}

/// Represents a fully identified client with assigned ID.
#[derive(Debug, Clone, PartialEq, Eq)]
pub struct Client {
    id: u32,
    client_type: ClientType,
}

impl Client {
    /// The id of this client.
    pub closed spec fn id(&self) -> u32 {
        self.id
    }

    /// The type of this client.
    pub closed spec fn kind(&self) -> ClientTypeView {
        self.client_type@
    }

    /// Create a new identified client.
    pub fn new(id: u32, client_type: ClientType) -> (c: Client)
        ensures
            c.id() == id,
            c.kind() == client_type@,
    {
        Client { id, client_type }
    }

    /// Get the client's assigned ID.
    pub fn get_id(&self) -> (r: u32)
        ensures
            r == self.id(),
    {
        self.id
    }

    /// Get the client's type and details.
    pub fn get_type(&self) -> (r: &ClientType)
        ensures
            r@ == self.kind(),
    {
        &self.client_type
    }
}

/// Tracks the current state of a client connection.
///
/// Used before the client has fully identified itself and been assigned an ID.
#[derive(Debug)]
pub struct ClientState {
    /// Client type and details (None until they identify themselves).
    pub client_type: Option<ClientType>,
    /// Whether client has requested heartbeats.
    pub has_heartbeat: bool,
    /// Assigned client ID (None until identification complete).
    pub client_id: Option<u32>,
    /// The requested heartbeat interval in deciseconds, once requested.
    pub heartbeat_interval: Option<u32>,
}

/// Mathematical value of a `ClientState`.
pub struct ClientStateView {
    pub client_type: Option<ClientTypeView>,
    pub has_heartbeat: bool,
    pub client_id: Option<u32>,
    pub heartbeat_interval: Option<u32>,
}

/// The view of an optional client type.
pub open spec fn client_type_view(t: Option<ClientType>) -> Option<ClientTypeView> {
    match t {
        Some(t) => Some(t@),
        None => None,
    }
}

impl View for ClientState {
    type V = ClientStateView;

    open spec fn view(&self) -> ClientStateView {
        ClientStateView {
            client_type: client_type_view(self.client_type),
            has_heartbeat: self.has_heartbeat,
            client_id: self.client_id,
            heartbeat_interval: self.heartbeat_interval,
        }
    }
}

/// The state of a connection that has not identified itself yet.
pub open spec fn fresh_client_state() -> ClientStateView {
    ClientStateView { client_type: None, has_heartbeat: false, client_id: None, heartbeat_interval: None }
}

impl ClientState {
    /// Create a new unidentified client state.
    pub fn new() -> (s: ClientState)
        ensures
            s@ == fresh_client_state(),
    {
        ClientState { client_type: None, has_heartbeat: false, client_id: None, heartbeat_interval: None }
    }

    /// Check if the client has identified itself.
    pub fn is_identified(&self) -> (r: bool)
        ensures
            r == self.client_type.is_some(),
    {
        self.client_type.is_some()
    }

    /// Record the client's type.
    pub fn set_client_type(&mut self, client_type: ClientType)
        ensures
            final(self)@ == (ClientStateView { client_type: Some(client_type@), ..old(self)@ }),
    {
        self.client_type = Some(client_type);
    }

    /// Convert to a fully identified Client with assigned ID.
    pub fn to_client(&self, id: u32) -> (r: Option<Client>)
        ensures
            r is Some <==> self.client_type is Some,
            r matches Some(c) ==> c.id() == id && Some(c.kind()) == client_type_view(self.client_type),
    {
        match &self.client_type {
            Some(ct) => Some(Client { id, client_type: ct.duplicate() }),
            None => None,
        }
    }

    /// A copy of this state.
    pub fn duplicate(&self) -> (r: ClientState)
        ensures
            r@ == self@,
    {
        let client_type = match &self.client_type {
            Some(ct) => Some(ct.duplicate()),
            None => None,
        };
        ClientState {
            client_type,
            has_heartbeat: self.has_heartbeat,
            client_id: self.client_id,
            heartbeat_interval: self.heartbeat_interval,
        }
    }
}

} // verus!
