//! The handoff control socket: one byte to ask for a handoff, one byte in answer.

use vstd::prelude::*;

verus! {

/// The bytes of the protocol.
#[derive(Debug, Clone, Copy)]
pub struct CtlWire {
    pub request_handoff: u8,
    pub request_handoff_dry_run: u8,
    pub response_accepted: u8,
    pub response_busy: u8,
    pub response_unsupported: u8,
}

impl CtlWire {
    /// The requests differ from each other, and so do the responses.
    pub open spec fn distinct(&self) -> bool {
        &&& self.request_handoff != self.request_handoff_dry_run
        &&& self.response_accepted != self.response_busy
        &&& self.response_accepted != self.response_unsupported
        &&& self.response_busy != self.response_unsupported
    }

    /// The byte that asks for a handoff.
    pub open spec fn spec_request(&self, dry_run: bool) -> u8 {
        if dry_run {
            self.request_handoff_dry_run
        } else {
            self.request_handoff
        }
    }

    /// The byte that asks for a handoff.
    pub fn request(&self, dry_run: bool) -> (byte: u8)
        ensures
            byte == self.spec_request(dry_run),
    {
        if dry_run {
            self.request_handoff_dry_run
        } else {
            self.request_handoff
        }
    }

    /// What a request asks for: a handoff, dry or not, or nothing that is known.
    pub open spec fn spec_read_request(&self, byte: u8) -> Option<bool> {
        if byte == self.request_handoff {
            Some(false)
        } else if byte == self.request_handoff_dry_run {
            Some(true)
        } else {
            None
        }
    }

    /// What a request asks for: a handoff, dry or not, or nothing that is known.
    pub fn read_request(&self, byte: u8) -> (dry_run: Option<bool>)
        ensures
            dry_run == self.spec_read_request(byte),
    {
        if byte == self.request_handoff {
            Some(false)
        } else if byte == self.request_handoff_dry_run {
            Some(true)
        } else {
            None
        }
    }

    /// The answer to a request that was passed on, or could not be.
    pub open spec fn spec_response(&self, passed_on: PassedOn) -> u8 {
        match passed_on {
            PassedOn::Sent => self.response_accepted,
            PassedOn::Full => self.response_busy,
            PassedOn::Closed => self.response_unsupported,
            PassedOn::Unknown => self.response_unsupported,
        }
    }

    /// The answer to a request that was passed on, or could not be.
    pub fn response(&self, passed_on: PassedOn) -> (byte: u8)
        ensures
            byte == self.spec_response(passed_on),
    {
        match passed_on {
            PassedOn::Sent => self.response_accepted,
            PassedOn::Full => self.response_busy,
            PassedOn::Closed => self.response_unsupported,
            PassedOn::Unknown => self.response_unsupported,
        }
    }

    /// What an answer says.
    pub open spec fn spec_read_response(&self, bytes: Seq<u8>) -> HandoffReply {
        if bytes.len() == 0 {
            HandoffReply::NoResponse
        } else if bytes[0] == self.response_accepted {
            HandoffReply::Accepted
        } else if bytes[0] == self.response_busy {
            HandoffReply::Busy
        } else if bytes[0] == self.response_unsupported {
            HandoffReply::Unsupported
        } else {
            HandoffReply::Unexpected(bytes[0])
        }
    }

    /// What an answer says. No bytes mean that the socket was closed.
    pub fn read_response(&self, bytes: &[u8]) -> (reply: HandoffReply)
        ensures
            reply == self.spec_read_response(bytes@),
    {
        if bytes.len() == 0 {
            HandoffReply::NoResponse
        } else if bytes[0] == self.response_accepted {
            HandoffReply::Accepted
        } else if bytes[0] == self.response_busy {
            HandoffReply::Busy
        } else if bytes[0] == self.response_unsupported {
            HandoffReply::Unsupported
        } else {
            HandoffReply::Unexpected(bytes[0])
        }
    }
}

/// What became of a request on the daemon's side.
#[derive(Debug, Clone, Copy, PartialEq, Eq, Structural)]
pub enum PassedOn {
    /// It was passed on to the signal loop.
    Sent,
    /// Another one is waiting.
    Full,
    /// The signal loop is gone.
    Closed,
    /// It is no request that is known.
    Unknown,
}

/// What the daemon answered.
#[derive(Debug, Clone, Copy, PartialEq, Eq, Structural)]
pub enum HandoffReply {
    /// The handoff starts.
    Accepted,
    /// A handoff is already in progress.
    Busy,
    /// The daemon does not support handoff.
    Unsupported,
    /// The socket was closed without a response.
    NoResponse,
    /// A byte that is not part of the protocol.
    Unexpected(u8),
}

/// What one side asks for is what the other side reads.
pub proof fn law_request_round_trip(wire: CtlWire, dry_run: bool)
    requires
        wire.distinct(),
    ensures
        wire.spec_read_request(wire.spec_request(dry_run)) == Some(dry_run),
{
}

/// A request counts as accepted exactly if it was passed on, and as busy exactly
/// if another one is waiting.
pub proof fn law_response_round_trip(wire: CtlWire, passed_on: PassedOn)
    requires
        wire.distinct(),
    ensures
        wire.spec_read_response(seq![wire.spec_response(passed_on)]) == (match passed_on {
            PassedOn::Sent => HandoffReply::Accepted,
            PassedOn::Full => HandoffReply::Busy,
            _ => HandoffReply::Unsupported,
        }),
{
}

/// Each request has the byte that the protocol gives it, and is read by that byte
/// alone; no other byte is a request.
pub proof fn law_requests_are_bytes(wire: CtlWire, byte: u8)
    requires
        wire.distinct(),
    ensures
        wire.spec_request(true) == wire.request_handoff_dry_run,
        wire.spec_request(false) == wire.request_handoff,
        wire.spec_read_request(byte) == Some(true) <==> byte == wire.request_handoff_dry_run,
        wire.spec_read_request(byte) == Some(false) <==> byte == wire.request_handoff,
{
}

/// Each reply is read by the byte that the protocol gives it, and by the first byte
/// alone. Any other byte is handed on, and no byte is no response.
pub proof fn law_replies_are_bytes(wire: CtlWire, bytes: Seq<u8>)
    requires
        wire.distinct(),
    ensures
        bytes.len() == 0 <==> wire.spec_read_response(bytes) is NoResponse,
        bytes.len() > 0 ==> {
            &&& wire.spec_read_response(bytes) is Accepted <==> bytes[0] == wire.response_accepted
            &&& wire.spec_read_response(bytes) is Busy <==> bytes[0] == wire.response_busy
            &&& wire.spec_read_response(bytes) is Unsupported <==> bytes[0]
                == wire.response_unsupported
            &&& wire.spec_read_response(bytes) matches HandoffReply::Unexpected(byte) ==> byte
                == bytes[0]
        },
{
}

/// What is asked on one side of the socket is read on the other, and what is answered there is read
/// here: a trial as a trial, a handoff as a handoff, and a refusal as the refusal that it is.
pub proof fn law_wire(
    wire: CtlWire,
    dry_run: bool,
    asked: u8,
    read: Option<bool>,
    passed_on: PassedOn,
    answered: u8,
    bytes: &[u8],
    reply: HandoffReply,
)
    requires
        wire.request_handoff != wire.request_handoff_dry_run,
        wire.response_accepted != wire.response_busy,
        wire.response_accepted != wire.response_unsupported,
        wire.response_busy != wire.response_unsupported,
        call_ensures(CtlWire::request, (&wire, dry_run), asked),
        call_ensures(CtlWire::read_request, (&wire, asked), read),
        call_ensures(CtlWire::response, (&wire, passed_on), answered),
        bytes@ == seq![answered],
        call_ensures(CtlWire::read_response, (&wire, bytes), reply),
    ensures
        read == Some(dry_run),
        asked == wire.request_handoff_dry_run <==> dry_run,
        reply is Accepted <==> passed_on is Sent,
        reply is Busy <==> passed_on is Full,
        reply is Unsupported <==> passed_on is Closed || passed_on is Unknown,
{
}

} // verus!
