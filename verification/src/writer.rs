//! What follows from an attempt to send a datagram.
use vstd::prelude::*;

verus! {

/// How an attempt to send a message ended.
#[derive(Clone, Copy, Debug, PartialEq, Eq, Structural)]
pub enum SendOutcome {
    /// The datagram went out.
    Sent,
    /// Nobody listens at the destination.
    ConnectionRefused,
    /// Any other error.
    Failed,
}

/// What the sender does about it before it turns to the next message.
#[derive(Clone, Copy, Debug, PartialEq, Eq, Structural)]
pub enum SendEffect {
    /// One more message was forwarded.
    Count,
    /// Nothing: a missing listener is no news.
    Ignore,
    /// The error is printed.
    Report,
}

/// A message counts when it was sent; an error is reported unless it only says
/// that nobody listens.
pub fn after_send(outcome: SendOutcome) -> (r: SendEffect)
    ensures
        r == SendEffect::Count <==> outcome == SendOutcome::Sent,
        r == SendEffect::Report <==> outcome == SendOutcome::Failed,
        r == SendEffect::Ignore <==> outcome == SendOutcome::ConnectionRefused,
{
    match outcome {
        SendOutcome::Sent => SendEffect::Count,
        SendOutcome::ConnectionRefused => SendEffect::Ignore,
        SendOutcome::Failed => SendEffect::Report,
    }
}

} // verus!
