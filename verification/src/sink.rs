//! The per-connection sink decision: exactly one reserved literal in the
//! outbound message stream is diverted into the shutdown channel instead of
//! the peer socket; every other message is forwarded unchanged.

use vstd::prelude::*;

verus! {

use vstd::string::StringExecFns;

/// The reserved in-band control literal. A client line equal to it requests
/// server termination; it is never echoed back. The match is exact and
/// case-sensitive, with no escaping, so a payload equal to the literal can
/// never be delivered to a peer — a known protocol limitation, kept as is.
pub open spec fn shutdown_literal() -> Seq<char> {
    "shutdown"@
}

/// Where one outbound message goes.
pub enum SinkRoute {
    /// Enqueue a `ShutdownRequest` on the shutdown channel; the peer socket
    /// is not touched and nothing is acknowledged to the sender.
    Divert,
    /// Relay the message, unchanged, to the peer socket's write path.
    Forward(String),
}

/// Decide the route of one outbound message: the reserved literal is
/// diverted, everything else is forwarded exactly as it came in.
pub fn route_message(msg: String) -> (r: SinkRoute)
    ensures
        msg@ == shutdown_literal() ==> r is Divert,
        msg@ != shutdown_literal() ==> (r matches SinkRoute::Forward(m) && m@ == msg@),
{
    let literal: String = String::from_str("shutdown");
    if msg.eq(&literal) {
        SinkRoute::Divert
    } else {
        SinkRoute::Forward(msg)
    }
}

} // verus!
