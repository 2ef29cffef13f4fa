//! `fiducia health` — how a failed request to a node is reported.
//!
//! The requests themselves go through the organisation's client; what it
//! reports back is reduced here to a message that never spills a response body,
//! which may hold tokens or organisation data.

use vstd::prelude::*;

use crate::error::{CliError, ErrorKind};
use crate::text::{decimal, push_decimal, push_str};

verus! {

/// How a request to a node failed, as far as the report needs it.
#[derive(Clone, Debug)]
pub enum RequestFailure {
    /// The node answered with a non-success HTTP status; the body is not kept.
    Http { status: u16 },
    /// The request did not complete.
    Transport(String),
}

/// The detail shown for a failure: the status only, or the transport message.
pub open spec fn failure_detail(f: RequestFailure) -> Seq<char> {
    match f {
        RequestFailure::Http { status } => "HTTP "@ + decimal(status as nat),
        RequestFailure::Transport(m) => "transport error: "@ + m@,
    }
}

/// The runtime error for a failed `what` request to `url`.
pub fn request_failed(what: &str, url: &str, failure: &RequestFailure) -> (e: CliError)
    ensures
        e@ == (ErrorKind::Runtime, what@ + " request to "@ + url@ + " failed: "@ + failure_detail(
            *failure,
        )),
{
    let mut msg = String::new();
    push_str(&mut msg, what);
    push_str(&mut msg, " request to ");
    push_str(&mut msg, url);
    push_str(&mut msg, " failed: ");
    match failure {
        RequestFailure::Http { status } => {
            push_str(&mut msg, "HTTP ");
            push_decimal(&mut msg, *status as u64);
        },
        RequestFailure::Transport(message) => {
            push_str(&mut msg, "transport error: ");
            push_str(&mut msg, message.as_str());
        },
    }
    CliError::runtime(msg)
}

} // verus!
