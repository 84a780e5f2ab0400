//! The per-handler connection configuration.
//!
//! A connection owns two channels at run time: an inbound pull channel
//! the gateway pushes requests into, and an outbound publish channel
//! replies go out on, addressed by the optional sender identity.  The
//! channels themselves are plain socket I/O and live outside the
//! verified library; what lives here is the configuration they are
//! opened from — identity and the two address lists, fixed for the
//! connection's lifetime — and the message framing the channels carry
//! (see [`crate::request`] and [`crate::frames`]).

use vstd::prelude::*;

verus! {

/// The model of a connection: its identity and address lists.
pub struct ConnectionModel {
    /// The identity the outbound channel reports to the gateway, when
    /// one is set.
    pub sender_id: Option<String>,
    /// Addresses the inbound channel connects to, in order.
    pub req_addrs: Seq<String>,
    /// Addresses the outbound channel connects to, in order.
    pub rep_addrs: Seq<String>,
}

/// The configuration a handler's two channels are opened from.
#[derive(Debug, Clone, PartialEq, Eq)]
pub struct Connection {
    sender_id: Option<String>,
    req_addrs: Vec<String>,
    rep_addrs: Vec<String>,
}

impl View for Connection {
    type V = ConnectionModel;

    closed spec fn view(&self) -> ConnectionModel {
        ConnectionModel {
            sender_id: self.sender_id,
            req_addrs: self.req_addrs@,
            rep_addrs: self.rep_addrs@,
        }
    }
}

impl Connection {
    /// Fixes the identity and the address lists for this connection's
    /// lifetime.
    pub fn new(sender_id: Option<String>, req_addrs: Vec<String>, rep_addrs: Vec<String>) -> (r:
        Connection)
        ensures
            r@.sender_id == sender_id,
            r@.req_addrs == req_addrs@,
            r@.rep_addrs == rep_addrs@,
    {
        Connection { sender_id, req_addrs, rep_addrs }
    }

    /// The identity the outbound channel reports, when one is set.
    pub fn sender_id<'a>(&'a self) -> (r: &'a Option<String>)
        ensures
            *r == self@.sender_id,
    {
        &self.sender_id
    }

    /// The addresses the inbound channel connects to.
    pub fn req_addrs<'a>(&'a self) -> (r: &'a Vec<String>)
        ensures
            r@ == self@.req_addrs,
    {
        &self.req_addrs
    }

    /// The addresses the outbound channel connects to.
    pub fn rep_addrs<'a>(&'a self) -> (r: &'a Vec<String>)
        ensures
            r@ == self@.rep_addrs,
    {
        &self.rep_addrs
    }
}

} // verus!
