//! What can go wrong in the DHT.

use crate::text::{decimal, decimal_string};
use vstd::prelude::*;
use vstd::string::*;

verus! {

/// An error of the DHT. Errors of the system are given by their text.
#[derive(Debug)]
pub enum Error {
    Bind(String),
    BootstrapFailed,
    TaskFailed(String, Box<Error>),
    TaskQuit(String),
    NoSuccessfulLookups { errors: usize },
    DhtDead,
    ReceiverDead,
    ErrorResponse,
    /// No answer within a number of seconds.
    ResponseTimeout(u64),
    BadTransactionId,
    RequestNotFound,
    BootstrapLookup { hostname: String, err: String },
    Send(String),
    Recv(String),
    Bencode(String),
    Persistence(String),
}

impl Error {
    /// The text of an error.
    pub open spec fn text(self) -> Seq<char>
        decreases self,
    {
        match self {
            Error::Bind(e) => "error binding UDP socket: "@ + e@,
            Error::BootstrapFailed => "bootstrapping failed"@,
            Error::TaskFailed(name, e) => name@ + " failed: "@ + e.text(),
            Error::TaskQuit(name) => name@ + " finished unexpectedly"@,
            Error::NoSuccessfulLookups { errors } => "no successful lookups, "@ + decimal(
                errors as nat,
            ) + " errors"@,
            Error::DhtDead => "dht is dead"@,
            Error::ReceiverDead => "receiver is dead"@,
            Error::ErrorResponse => "error response from node"@,
            Error::ResponseTimeout(secs) => "timeout after "@ + decimal(secs as nat) + "s"@,
            Error::BadTransactionId => "bad transaction id"@,
            Error::RequestNotFound => "outstanding request not found"@,
            Error::BootstrapLookup { hostname, err } => "error looking up "@ + hostname@ + ": "@
                + err@,
            Error::Send(e) => "error sending: "@ + e@,
            Error::Recv(e) => "error receiving: "@ + e@,
            Error::Bencode(e) => "bencode error: "@ + e@,
            Error::Persistence(e) => "persistence error: "@ + e@,
        }
    }

    /// The text of the error.
    pub fn message(&self) -> (r: String)
        ensures
            r@ == self.text(),
        decreases self,
    {
        let mut out: String = String::new();
        match self {
            Error::Bind(e) => {
                out.append("error binding UDP socket: ");
                out.append(e.as_str());
            },
            Error::BootstrapFailed => out.append("bootstrapping failed"),
            Error::TaskFailed(name, e) => {
                out.append(name.as_str());
                out.append(" failed: ");
                let inner: String = e.message();
                out.append(inner.as_str());
            },
            Error::TaskQuit(name) => {
                out.append(name.as_str());
                out.append(" finished unexpectedly");
            },
            Error::NoSuccessfulLookups { errors } => {
                out.append("no successful lookups, ");
                out.append(decimal_string(*errors as u64).as_str());
                out.append(" errors");
            },
            Error::DhtDead => out.append("dht is dead"),
            Error::ReceiverDead => out.append("receiver is dead"),
            Error::ErrorResponse => out.append("error response from node"),
            Error::ResponseTimeout(secs) => {
                out.append("timeout after ");
                out.append(decimal_string(*secs).as_str());
                out.append("s");
            },
            Error::BadTransactionId => out.append("bad transaction id"),
            Error::RequestNotFound => out.append("outstanding request not found"),
            Error::BootstrapLookup { hostname, err } => {
                out.append("error looking up ");
                out.append(hostname.as_str());
                out.append(": ");
                out.append(err.as_str());
            },
            Error::Send(e) => {
                out.append("error sending: ");
                out.append(e.as_str());
            },
            Error::Recv(e) => {
                out.append("error receiving: ");
                out.append(e.as_str());
            },
            Error::Bencode(e) => {
                out.append("bencode error: ");
                out.append(e.as_str());
            },
            Error::Persistence(e) => {
                out.append("persistence error: ");
                out.append(e.as_str());
            },
        }
        assert(out@ =~= self.text());
        out
    }

    /// The error with which the node stops because one of its tasks ended.
    pub fn task_finished(name: &str, result: Result<(), Error>) -> (r: Error)
        ensures
            match result {
                Ok(_) => r matches Error::TaskQuit(n) && n@ == name@,
                Err(e) => r matches Error::TaskFailed(n, b) && n@ == name@ && *b == e,
            },
    {
        match result {
            Ok(_) => Error::TaskQuit(name.to_string()),
            Err(e) => Error::TaskFailed(name.to_string(), Box::new(e)),
        }
    }
}

} // verus!
