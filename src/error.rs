use vstd::prelude::*;

verus! {

/// The kinds of failure that the protocol core reports upward.
#[derive(Clone, Copy, Debug, PartialEq, Eq, Structural)]
pub enum ProtoErrorKind {
    /// Malformed bytes: a bad name, a malformed record, inconsistent counts.
    MessageFormat,
    /// Not enough bytes for a declared length.
    Truncated,
    /// No transaction ID is free.
    Exhausted,
    /// The deadline passed with no matching response.
    Timeout,
    /// The transport was closed.
    ConnectionClosed,
    /// The transport failed; the cause is carried as an opaque code.
    ConnectionError(u32),
    /// A response arrived for which no query is pending.
    Unmatched,
}

impl ProtoErrorKind {
    /// Whether a retry wrapper may resubmit after this failure.
    pub open spec fn spec_is_retryable(self) -> bool {
        match self {
            ProtoErrorKind::Timeout => true,
            ProtoErrorKind::ConnectionClosed => true,
            ProtoErrorKind::ConnectionError(_) => true,
            _ => false,
        }
    }

    pub fn is_retryable(&self) -> (r: bool)
        ensures
            r == self.spec_is_retryable(),
    {
        match self {
            ProtoErrorKind::Timeout => true,
            ProtoErrorKind::ConnectionClosed => true,
            ProtoErrorKind::ConnectionError(_) => true,
            _ => false,
        }
    }
}

} // verus!
