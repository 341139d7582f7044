//! The client side of the protocol: requests with self-assigned ascending ids.
//! Sending them is left to the caller; the client never waits for an answer.

use vstd::prelude::*;
use crate::lsp_types::{CallHierarchyItem, DocumentSymbol, Position};

verus! {

/// The parameters of the calls the client makes.
#[derive(Debug)]
pub enum Params {
    /// The handshake: the client's process id and the workspace root.
    Initialize { process_id: u32, root_uri: String },
    /// The notification that ends the handshake.
    Initialized,
    /// The symbol outline of a document.
    DocumentSymbol { uri: String },
    /// The calls a symbol makes.
    OutgoingCalls { item: CallHierarchyItem },
    /// The implementations of the symbol at a position of a document.
    Implementation { uri: String, position: Position },
}

pub open spec fn method_of(p: Params) -> Seq<char> {
    match p {
        Params::Initialize { .. } => "initialize"@,
        Params::Initialized => "initialized"@,
        Params::DocumentSymbol { .. } => "textDocument/documentSymbol"@,
        Params::OutgoingCalls { .. } => "callHierarchy/outgoingCalls"@,
        Params::Implementation { .. } => "textDocument/implementation"@,
    }
}

/// The protocol method of a call.
pub fn method_name(p: &Params) -> (r: &'static str)
    ensures
        r@ == method_of(*p),
{
    match p {
        Params::Initialize { .. } => "initialize",
        Params::Initialized => "initialized",
        Params::DocumentSymbol { .. } => "textDocument/documentSymbol",
        Params::OutgoingCalls { .. } => "callHierarchy/outgoingCalls",
        Params::Implementation { .. } => "textDocument/implementation",
    }
}

/// A request: it expects exactly one response carrying the same id.
#[derive(Debug)]
pub struct Request {
    pub id: u64,
    pub method: String,
    pub params: Params,
}

/// A notification: no response is expected.
#[derive(Debug)]
pub struct Notification {
    pub method: String,
    pub params: Params,
}

pub struct Client {
    request_id: u64,
}

impl Client {
    /// The id the next request will carry.
    pub closed spec fn next_id(&self) -> u64 {
        self.request_id
    }

    pub fn new() -> (r: Client)
        ensures
            r.next_id() == 0,
    {
        Client { request_id: 0 }
    }

    /// Whether another request can be given an id of its own.
    pub fn can_send(&self) -> (r: bool)
        ensures
            r == (self.next_id() < u64::MAX),
    {
        self.request_id < u64::MAX
    }

    /// A request with the next id; ids ascend by one.
    pub fn send_request(&mut self, params: Params) -> (r: Request)
        requires
            old(self).next_id() < u64::MAX,
        ensures
            r.id == old(self).next_id(),
            final(self).next_id() == old(self).next_id() + 1,
            r.method@ == method_of(params),
            r.params == params,
    {
        let id = self.request_id;
        self.request_id = self.request_id + 1;
        let method = method_name(&params).to_string();
        Request { id, method, params }
    }

    /// The handshake's opening request.
    pub fn initialize_start(&mut self, process_id: u32, root_uri: String) -> (r: Request)
        requires
            old(self).next_id() < u64::MAX,
        ensures
            r.id == old(self).next_id(),
            final(self).next_id() == old(self).next_id() + 1,
            r.method@ == "initialize"@,
            r.params == (Params::Initialize { process_id, root_uri }),
    {
        self.send_request(Params::Initialize { process_id, root_uri })
    }

    /// The notification that closes the handshake, once its response came.
    pub fn initialize_finish(&self) -> (r: Notification)
        ensures
            r.method@ == "initialized"@,
            r.params == Params::Initialized,
    {
        Notification { method: method_name(&Params::Initialized).to_string(), params: Params::Initialized }
    }

    /// A request for the symbol outline of a document.
    pub fn document_symbol(&mut self, uri: String) -> (r: Request)
        requires
            old(self).next_id() < u64::MAX,
        ensures
            r.id == old(self).next_id(),
            final(self).next_id() == old(self).next_id() + 1,
            r.method@ == "textDocument/documentSymbol"@,
            r.params == (Params::DocumentSymbol { uri }),
    {
        self.send_request(Params::DocumentSymbol { uri })
    }

    /// A request for the calls that a function of a document makes.
    pub fn outgoing_calls(&mut self, uri: String, func: &DocumentSymbol) -> (r: Request)
        requires
            old(self).next_id() < u64::MAX,
        ensures
            r.id == old(self).next_id(),
            final(self).next_id() == old(self).next_id() + 1,
            r.method@ == "callHierarchy/outgoingCalls"@,
            match r.params {
                Params::OutgoingCalls { item } => item.name == func.name && item.kind == func.kind
                    && item.uri.path == uri && item.range == func.range
                    && item.selection_range == func.selection_range && item.tags is None
                    && item.detail is None,
                _ => false,
            },
    {
        let item = CallHierarchyItem {
            name: func.name.clone(),
            kind: func.kind,
            tags: None,
            detail: None,
            uri: crate::lsp_types::Uri { path: uri },
            range: func.range,
            selection_range: func.selection_range,
        };
        self.send_request(Params::OutgoingCalls { item })
    }

    /// A request for the implementations of an interface of a document, asked
    /// at the start of its selection range.
    pub fn implementations(&mut self, uri: String, interface: &DocumentSymbol) -> (r: Request)
        requires
            old(self).next_id() < u64::MAX,
        ensures
            r.id == old(self).next_id(),
            final(self).next_id() == old(self).next_id() + 1,
            r.method@ == "textDocument/implementation"@,
            r.params == (Params::Implementation { uri, position: interface.selection_range.start }),
    {
        self.send_request(Params::Implementation { uri, position: interface.selection_range.start })
    }
}

} // verus!
