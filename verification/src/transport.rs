use vstd::prelude::*;

verus! {

/// The error kinds surfaced by the transport core.
#[derive(Clone, Copy, Debug, PartialEq, Eq, Structural)]
pub enum TransportError {
    /// An option could not be parsed, or the options contradict each other.
    ConfigInvalid,
    /// An underlying socket failure not otherwise classified.
    Io,
    /// No reply to the connection request within the allotted attempts.
    HandshakeTimeout,
    /// The reply to the connection request was not `Acknowledge(0)`.
    HandshakeRejected,
    /// A peer sent a message type that the current state does not admit.
    ProtocolViolation,
    /// The window has already moved past the requested key.
    WindowTooOld,
    /// A second value was offered for a key that is still live.
    WindowDuplicate,
}

/// A reliable, ordered byte stream: the interface both engine roles offer to
/// the application. `read` fills the front of `buf` and reports how many bytes
/// were written; `write_all` consumes every byte of `buf`.
pub trait Transport {
    fn read(&mut self, buf: &mut Vec<u8>) -> Result<usize, TransportError>;

    fn write_all(&mut self, buf: &[u8]) -> Result<(), TransportError>;
}

} // verus!
