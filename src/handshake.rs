//! The handshake: `version` and `verack` exchanged in either order.
use vstd::prelude::*;

use crate::error::ErrorMessage;

verus! {

/// Where a handshake stands. The local `version` is sent before the first step.
#[derive(Debug, Clone, Copy, PartialEq, Eq, Structural)]
pub enum HandshakeState {
    /// Neither the peer's `version` nor its `verack` has come.
    Handshaking,
    /// The peer's `version` came (and was acknowledged); its `verack` has not.
    GotVersion { remote_version: i32 },
    /// The peer's `verack` came; its `version` has not.
    GotVerAck,
    /// Both came: the peer is ready, at the lower of the two versions.
    Ready { negotiated_version: i32 },
}

/// What the peer sent.
#[derive(Debug, Clone, Copy, PartialEq, Eq, Structural)]
pub enum HandshakeEvent {
    Version { remote_version: i32 },
    VerAck,
    /// Any other message.
    Other,
}

/// What to send back.
#[derive(Debug, Clone, Copy, PartialEq, Eq, Structural)]
pub enum HandshakeAction {
    SendVerAck,
    Nothing,
}

pub open spec fn min_version(a: i32, b: i32) -> i32 {
    if a <= b {
        a
    } else {
        b
    }
}

/// The next state and the reply, or the violation that ends the handshake.
pub open spec fn handshake_step(local_version: i32, s: HandshakeState, e: HandshakeEvent) -> Result<
    (HandshakeState, HandshakeAction),
    ErrorMessage,
> {
    match (s, e) {
        (HandshakeState::Handshaking, HandshakeEvent::Version { remote_version }) => Ok(
            (HandshakeState::GotVersion { remote_version }, HandshakeAction::SendVerAck),
        ),
        (HandshakeState::Handshaking, HandshakeEvent::VerAck) => Ok(
            (HandshakeState::GotVerAck, HandshakeAction::Nothing),
        ),
        (HandshakeState::GotVersion { remote_version }, HandshakeEvent::VerAck) => Ok(
            (
                HandshakeState::Ready {
                    negotiated_version: min_version(local_version, remote_version),
                },
                HandshakeAction::Nothing,
            ),
        ),
        (HandshakeState::GotVerAck, HandshakeEvent::Version { remote_version }) => Ok(
            (
                HandshakeState::Ready {
                    negotiated_version: min_version(local_version, remote_version),
                },
                HandshakeAction::SendVerAck,
            ),
        ),
        _ => Err(ErrorMessage::ProtocolViolation),
    }
}

/// One step of the handshake of a node whose own version is `local_version`.
pub fn handshake_next(local_version: i32, s: HandshakeState, e: HandshakeEvent) -> (r: Result<
    (HandshakeState, HandshakeAction),
    ErrorMessage,
>)
    ensures
        r == handshake_step(local_version, s, e),
{
    match (s, e) {
        (HandshakeState::Handshaking, HandshakeEvent::Version { remote_version }) => Ok(
            (HandshakeState::GotVersion { remote_version }, HandshakeAction::SendVerAck),
        ),
        (HandshakeState::Handshaking, HandshakeEvent::VerAck) => Ok(
            (HandshakeState::GotVerAck, HandshakeAction::Nothing),
        ),
        (HandshakeState::GotVersion { remote_version }, HandshakeEvent::VerAck) => {
            let v = if local_version <= remote_version {
                local_version
            } else {
                remote_version
            };
            Ok((HandshakeState::Ready { negotiated_version: v }, HandshakeAction::Nothing))
        },
        (HandshakeState::GotVerAck, HandshakeEvent::Version { remote_version }) => {
            let v = if local_version <= remote_version {
                local_version
            } else {
                remote_version
            };
            Ok((HandshakeState::Ready { negotiated_version: v }, HandshakeAction::SendVerAck))
        },
        _ => Err(ErrorMessage::ProtocolViolation),
    }
}

/// Whichever order the peer's `version` and `verack` come in, the handshake
/// ends ready at the lower of the two versions, and `verack` is sent once.
pub proof fn lemma_handshake_either_order(local_version: i32, remote_version: i32)
    ensures
        ({
            let e1 = HandshakeEvent::Version { remote_version };
            let e2 = HandshakeEvent::VerAck;
            let a = handshake_step(local_version, HandshakeState::Handshaking, e1);
            let b = handshake_step(local_version, a->Ok_0.0, e2);
            let c = handshake_step(local_version, HandshakeState::Handshaking, e2);
            let d = handshake_step(local_version, c->Ok_0.0, e1);
            &&& a is Ok && b is Ok && c is Ok && d is Ok
            &&& b->Ok_0.0 == HandshakeState::Ready {
                negotiated_version: min_version(local_version, remote_version),
            }
            &&& d->Ok_0.0 == b->Ok_0.0
            &&& a->Ok_0.1 == HandshakeAction::SendVerAck && b->Ok_0.1 == HandshakeAction::Nothing
            &&& c->Ok_0.1 == HandshakeAction::Nothing && d->Ok_0.1 == HandshakeAction::SendVerAck
        }),
{
}

} // verus!
