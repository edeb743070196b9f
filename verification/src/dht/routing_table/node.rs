//! A known node and how it has behaved.

use crate::net::SocketAddr;
use crate::types::InfoHash;
use vstd::prelude::*;

verus! {

/// How long a node counts as active, in nanoseconds.
pub const INACTIVITY_TIMEOUT: u64 = 900_000_000_000;

/// A known node. Times are in nanoseconds from a fixed start.
#[derive(Debug, Clone, Copy)]
pub struct RoutingTableNode {
    pub id: InfoHash,
    pub addr: SocketAddr,
    pub last_request: Option<u64>,
    pub last_response: Option<u64>,
    pub last_query: Option<u64>,
    pub errors_in_a_row: usize,
}

/// How a node has behaved.
#[derive(Debug, Clone, Copy, PartialEq, Eq, Structural)]
pub enum NodeStatus {
    Good,
    Questionable,
    Bad,
    Unknown,
}

/// Something happened less than a quarter of an hour ago.
pub open spec fn recent(t: Option<u64>, now: u64) -> bool {
    t matches Some(x) && now - x < INACTIVITY_TIMEOUT
}

/// Something happened more than a quarter of an hour ago.
pub open spec fn long_ago(t: Option<u64>, now: u64) -> bool {
    t matches Some(x) && now - x > INACTIVITY_TIMEOUT
}

/// What is to be recorded of a node.
#[derive(Debug, Clone, Copy, PartialEq, Eq, Structural)]
pub enum NodeEvent {
    /// A request was sent to it.
    Request,
    /// It answered a request.
    Response,
    /// It did not answer a request.
    Failure,
    /// It sent a query.
    Query,
}

impl RoutingTableNode {
    /// How the node has behaved: bad after two failures in a row to answer,
    /// good if it was asked and was heard of lately, questionable if it was
    /// neither heard of nor asked lately.
    pub open spec fn status_at(self, now: u64) -> NodeStatus {
        if self.last_request is Some && self.errors_in_a_row >= 2 {
            NodeStatus::Bad
        } else if self.last_request is Some && (recent(self.last_response, now) || recent(
            self.last_query,
            now,
        )) {
            NodeStatus::Good
        } else if (long_ago(self.last_query, now) || long_ago(self.last_response, now)) && (
        self.last_request is None || long_ago(self.last_request, now)) {
            NodeStatus::Questionable
        } else {
            NodeStatus::Unknown
        }
    }

    /// A node of which nothing but its address is known.
    pub open spec fn fresh(id: InfoHash, addr: SocketAddr) -> RoutingTableNode {
        RoutingTableNode {
            id,
            addr,
            last_request: None,
            last_response: None,
            last_query: None,
            errors_in_a_row: 0,
        }
    }

    /// The node after an event.
    pub open spec fn after(self, event: NodeEvent, now: u64) -> RoutingTableNode {
        match event {
            NodeEvent::Request => RoutingTableNode { last_request: Some(now), ..self },
            NodeEvent::Response => RoutingTableNode {
                last_response: Some(now),
                last_request: if self.last_request is None {
                    Some(now)
                } else {
                    self.last_request
                },
                errors_in_a_row: 0,
                ..self
            },
            NodeEvent::Failure => RoutingTableNode {
                errors_in_a_row: if self.errors_in_a_row == usize::MAX {
                    usize::MAX
                } else {
                    (self.errors_in_a_row + 1) as usize
                },
                ..self
            },
            NodeEvent::Query => RoutingTableNode { last_query: Some(now), ..self },
        }
    }

    /// A node of which nothing but its address is known.
    pub fn new(id: InfoHash, addr: SocketAddr) -> (r: RoutingTableNode)
        ensures
            r == Self::fresh(id, addr),
    {
        RoutingTableNode {
            id,
            addr,
            last_request: None,
            last_response: None,
            last_query: None,
            errors_in_a_row: 0,
        }
    }

    /// The node's id.
    pub fn id(&self) -> (r: InfoHash)
        ensures
            r == self.id,
    {
        self.id
    }

    /// The node's address.
    pub fn addr(&self) -> (r: SocketAddr)
        ensures
            r == self.addr,
    {
        self.addr
    }

    /// How the node has behaved.
    pub fn status(&self, now: u64) -> (r: NodeStatus)
        ensures
            r == self.status_at(now),
    {
        if self.last_request.is_some() && self.errors_in_a_row >= 2 {
            return NodeStatus::Bad;
        }
        if self.last_request.is_some() && (is_recent(self.last_response, now) || is_recent(
            self.last_query,
            now,
        )) {
            return NodeStatus::Good;
        }
        if (is_long_ago(self.last_query, now) || is_long_ago(self.last_response, now)) && (
        self.last_request.is_none() || is_long_ago(self.last_request, now)) {
            return NodeStatus::Questionable;
        }
        NodeStatus::Unknown
    }

    /// Records that a request was sent.
    pub fn mark_outgoing_request(&mut self, now: u64)
        ensures
            *final(self) == old(self).after(NodeEvent::Request, now),
    {
        self.last_request = Some(now);
    }

    /// Records that the node sent a query.
    pub fn mark_last_query(&mut self, now: u64)
        ensures
            *final(self) == old(self).after(NodeEvent::Query, now),
    {
        self.last_query = Some(now);
    }

    /// Records that the node answered.
    pub fn mark_response(&mut self, now: u64)
        ensures
            *final(self) == old(self).after(NodeEvent::Response, now),
    {
        self.last_response = Some(now);
        if self.last_request.is_none() {
            self.last_request = Some(now);
        }
        self.errors_in_a_row = 0;
    }

    /// Records that the node did not answer.
    pub fn mark_error(&mut self)
        ensures
            *final(self) == old(self).after(NodeEvent::Failure, 0),
    {
        if self.errors_in_a_row < usize::MAX {
            self.errors_in_a_row = self.errors_in_a_row + 1;
        }
    }

    /// The node after an event.
    pub fn changed(&self, event: NodeEvent, now: u64) -> (r: RoutingTableNode)
        ensures
            r == self.after(event, now),
    {
        let mut n = *self;
        match event {
            NodeEvent::Request => n.mark_outgoing_request(now),
            NodeEvent::Response => n.mark_response(now),
            NodeEvent::Failure => n.mark_error(),
            NodeEvent::Query => n.mark_last_query(now),
        }
        n
    }
}

fn is_recent(t: Option<u64>, now: u64) -> (r: bool)
    ensures
        r == recent(t, now),
{
    match t {
        Some(x) => now.saturating_sub(x) < INACTIVITY_TIMEOUT,
        None => false,
    }
}

fn is_long_ago(t: Option<u64>, now: u64) -> (r: bool)
    ensures
        r == long_ago(t, now),
{
    match t {
        Some(x) => now.saturating_sub(x) > INACTIVITY_TIMEOUT,
        None => false,
    }
}

/// A node that answers is not bad, and is good as long as it was heard of
/// lately.
pub proof fn law_answering_node(n: RoutingTableNode, now: u64)
    ensures
        n.after(NodeEvent::Response, now).status_at(now) == NodeStatus::Good,
{
}

/// A node that was asked twice and never answered is bad.
pub proof fn law_silent_node(n: RoutingTableNode, t1: u64, t2: u64, now: u64)
    ensures
        n.after(NodeEvent::Request, t1).after(NodeEvent::Failure, t1).after(
            NodeEvent::Request,
            t2,
        ).after(NodeEvent::Failure, t2).status_at(now) == NodeStatus::Bad,
{
}

} // verus!
