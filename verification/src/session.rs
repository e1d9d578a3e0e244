//! The decisions of the client session that talks to a book server.
use vstd::prelude::*;
use crate::commands::Cmd;

verus! {

/// What the session answers to its user.
#[derive(Debug)]
pub enum IoReply {
    /// Nothing to say.
    Stum,
    /// A line of text.
    Reply(String),
}

impl IoReply {
    /// The text of the reply: empty for `Stum`.
    pub fn to_string(&self) -> (s: String)
        ensures
            s@ == (match self {
                IoReply::Stum => Seq::<char>::empty(),
                IoReply::Reply(r) => r@,
            }),
    {
        match self {
            IoReply::Stum => String::new(),
            IoReply::Reply(r) => r.clone(),
        }
    }
}

/// A request of the user to the session, without its network address.
#[derive(Debug, Clone, Copy, PartialEq, Eq, Structural)]
pub enum IoRequest {
    /// Connect to a server.
    Connect,
    /// Tell whether the session is connected.
    ConnectCheck,
    /// Drop the connection.
    Disconnect,
    /// Send a command to the server.
    Req(Cmd),
}

/// The step that the session takes for a request.
#[derive(Debug)]
pub enum IoStep {
    /// Open a connection to the requested address, then answer nothing.
    Connect,
    /// Answer with the address of the connection.
    ReportConnected,
    /// Drop the connection, then answer nothing.
    Disconnect,
    /// Send the command; when `await_snapshot` holds, wait for the snapshot
    /// that the server sends back and answer with its text, else answer
    /// nothing.
    Send { await_snapshot: bool },
    /// Answer with this text and do nothing else.
    Answer(String),
}

/// What the session does for `req`, given whether it is connected.
pub fn plan_io(connected: bool, req: IoRequest) -> (step: IoStep)
    ensures
        match req {
            IoRequest::Connect => step is Connect,
            IoRequest::ConnectCheck => if connected {
                step is ReportConnected
            } else {
                step matches IoStep::Answer(s) && s@ == "Not connected."@
            },
            IoRequest::Disconnect => step is Disconnect,
            IoRequest::Req(cmd) => if connected {
                step matches IoStep::Send { await_snapshot } && await_snapshot == (cmd is Snapshot)
            } else {
                step matches IoStep::Answer(s) && s@ == "Not connected, can t submit."@
            },
        },
{
    match req {
        IoRequest::Connect => IoStep::Connect,
        IoRequest::ConnectCheck => {
            if connected {
                IoStep::ReportConnected
            } else {
                IoStep::Answer(String::from_str("Not connected."))
            }
        },
        IoRequest::Disconnect => IoStep::Disconnect,
        IoRequest::Req(cmd) => {
            if connected {
                let await_snapshot = match cmd {
                    Cmd::Snapshot(_) => true,
                    Cmd::Order(_) => false,
                };
                IoStep::Send { await_snapshot }
            } else {
                IoStep::Answer(String::from_str("Not connected, can t submit."))
            }
        },
    }
}

} // verus!
