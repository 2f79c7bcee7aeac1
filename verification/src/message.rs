//! Messages exchanged between the organs, the midbrain and the brainstem.

use vstd::prelude::*;

verus! {

/// A request from a cortex cluster to act on the outside world: write
/// `payload` to `target_path`, optionally through a network `port`.
#[derive(Debug, Clone, PartialEq, Eq)]
pub struct MotorCommand {
    pub origin_cluster_id: String,
    pub target_path: String,
    pub payload: Vec<u8>,
    pub port: Option<u16>,
}

/// A copy of an outgoing command kept to recognise its own echo: the tokens
/// the organism expects to hear itself say.
#[derive(Debug, Clone, PartialEq, Eq)]
pub struct EfferenceCopy {
    pub timestamp: u64,
    pub command_hash: u64,
    pub origin_cluster_id: String,
    pub expected_tokens: Vec<String>,
}

/// Orders from the brainstem to the organs.
#[derive(Debug, Clone, Copy, PartialEq, Eq, Structural)]
pub enum BrainstemCommand {
    Backoff(bool),
    ForceSleep,
}

/// The kinds of sensory signal, without their payloads.
#[derive(Debug, Clone, Copy, PartialEq, Eq, Structural)]
pub enum SignalKind {
    FrameDelta,
    ImageEmbedding,
    Mfcc,
    SpeechToken,
    LogHash,
    ProprioceptiveEcho,
}

/// Where an incoming sensory signal goes.
#[derive(Debug, Clone, Copy, PartialEq, Eq, Structural)]
pub enum SignalRoute {
    /// To the eye: visual signals.
    Eye,
    /// To the ear: auditory signals.
    Ear,
    /// To the midbrain, to be matched against what the organism said.
    Midbrain,
    /// Nowhere.
    Drop,
}

/// The routing of sensory signals: visual ones to the eye, auditory ones to
/// the ear, the organism's own echo to the midbrain, log hashes nowhere.
pub fn route_signal(kind: SignalKind) -> (r: SignalRoute)
    ensures
        r == match kind {
            SignalKind::FrameDelta | SignalKind::ImageEmbedding => SignalRoute::Eye,
            SignalKind::Mfcc | SignalKind::SpeechToken => SignalRoute::Ear,
            SignalKind::ProprioceptiveEcho => SignalRoute::Midbrain,
            SignalKind::LogHash => SignalRoute::Drop,
        },
{
    match kind {
        SignalKind::FrameDelta | SignalKind::ImageEmbedding => SignalRoute::Eye,
        SignalKind::Mfcc | SignalKind::SpeechToken => SignalRoute::Ear,
        SignalKind::ProprioceptiveEcho => SignalRoute::Midbrain,
        SignalKind::LogHash => SignalRoute::Drop,
    }
}

} // verus!
