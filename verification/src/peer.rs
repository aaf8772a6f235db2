//! The peer handshake state machine.
//!
//! A peer moves through `Initial`, `Hello`, `WhoAreYou`, `ItsMe` and finally
//! `Welcome`, after which application traffic is accepted. Each step is
//! driven by one received message; steps whose challenge or signature checks
//! fail, and messages that do not match the expected next step, leave the
//! stage unchanged: no regression and no crash. The cryptographic check
//! itself is the caller's business; its verdict comes in as `verified`.

use crate::protocol::{Message, MessageView};
use vstd::prelude::*;

verus! {

/// A peer's progress through identity verification.
#[derive(Debug, Clone, Copy, PartialEq, Eq, Structural)]
pub enum PeerInitStage {
    Initial,
    Hello,
    WhoAreYou,
    ItsMe,
    Welcome,
}

/// The stage after handling `m` in `stage`, where `verified` is the verdict
/// of the step's challenge or signature check.
pub open spec fn spec_handshake_step(
    stage: PeerInitStage,
    m: MessageView,
    verified: bool,
) -> PeerInitStage {
    match (stage, m) {
        (PeerInitStage::Initial, MessageView::Hello { .. }) => PeerInitStage::Hello,
        (PeerInitStage::Hello, MessageView::WhoAreYou { .. }) => if verified {
            PeerInitStage::WhoAreYou
        } else {
            stage
        },
        (PeerInitStage::WhoAreYou, MessageView::ItsMe { .. }) => if verified {
            PeerInitStage::ItsMe
        } else {
            stage
        },
        (PeerInitStage::ItsMe, MessageView::Welcome { .. }) => if verified {
            PeerInitStage::Welcome
        } else {
            stage
        },
        _ => stage,
    }
}

/// Advances the handshake by one received message. Any message that does not
/// match the expected next step is dropped and the stage stays put.
pub fn handshake_step(stage: PeerInitStage, m: &Message, verified: bool) -> (r: PeerInitStage)
    ensures
        r == spec_handshake_step(stage, m.dv(), verified),
{
    match (stage, m) {
        (PeerInitStage::Initial, Message::Hello { .. }) => PeerInitStage::Hello,
        (PeerInitStage::Hello, Message::WhoAreYou { .. }) => if verified {
            PeerInitStage::WhoAreYou
        } else {
            stage
        },
        (PeerInitStage::WhoAreYou, Message::ItsMe { .. }) => if verified {
            PeerInitStage::ItsMe
        } else {
            stage
        },
        (PeerInitStage::ItsMe, Message::Welcome { .. }) => if verified {
            PeerInitStage::Welcome
        } else {
            stage
        },
        _ => stage,
    }
}

/// A message that arrives out of order changes nothing: in particular,
/// receiving `ItsMe` while still in stage `Hello` (skipping `WhoAreYou`)
/// leaves the stage at `Hello`, whatever its check said.
pub proof fn lemma_out_of_order_message_ignored(m: MessageView, verified: bool)
    ensures
        m is ItsMe ==> spec_handshake_step(PeerInitStage::Hello, m, verified)
            == PeerInitStage::Hello,
        m is Welcome ==> spec_handshake_step(PeerInitStage::Hello, m, verified)
            == PeerInitStage::Hello,
        spec_handshake_step(PeerInitStage::Welcome, m, verified) == PeerInitStage::Welcome,
{
}

} // verus!
