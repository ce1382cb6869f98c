//! What can go wrong on a session.

use vstd::prelude::*;

verus! {

/// The failures of a session. `MalformedLength`, `MalformedPayload` and
/// `UnknownJobId` concern one frame and leave the session running;
/// `TransportError` and `AccessDenied` end it; `Timeout` and
/// `CorrelationFailure` concern one caller.
#[derive(Debug, PartialEq, Eq)]
pub enum EslError {
    /// The transport failed or the peer closed the connection.
    TransportError,
    /// A `Content-Length` value is not a number, or asks for more bytes than
    /// the frame holds.
    MalformedLength,
    /// A header block or a payload does not follow its grammar, or the
    /// content type is not one this client reads.
    MalformedPayload,
    /// The peer refused the connection or announced that it disconnects. The
    /// text is the notice it sent.
    AccessDenied(String),
    /// The caller's bound elapsed before a reply came.
    Timeout,
    /// The session ended before this caller was answered.
    CorrelationFailure,
    /// A message named a job that nobody waits for. The text is the job's
    /// identifier.
    UnknownJobId(String),
}

/// An `EslError` with its texts as sequences of characters.
pub enum EslErrorView {
    TransportError,
    MalformedLength,
    MalformedPayload,
    AccessDenied(Seq<char>),
    Timeout,
    CorrelationFailure,
    UnknownJobId(Seq<char>),
}

impl View for EslError {
    type V = EslErrorView;

    open spec fn view(&self) -> EslErrorView {
        match self {
            EslError::TransportError => EslErrorView::TransportError,
            EslError::MalformedLength => EslErrorView::MalformedLength,
            EslError::MalformedPayload => EslErrorView::MalformedPayload,
            EslError::AccessDenied(notice) => EslErrorView::AccessDenied(notice@),
            EslError::Timeout => EslErrorView::Timeout,
            EslError::CorrelationFailure => EslErrorView::CorrelationFailure,
            EslError::UnknownJobId(job) => EslErrorView::UnknownJobId(job@),
        }
    }
}

impl Clone for EslError {
    fn clone(&self) -> (copy: EslError)
        ensures
            copy@ == self@,
    {
        match self {
            EslError::TransportError => EslError::TransportError,
            EslError::MalformedLength => EslError::MalformedLength,
            EslError::MalformedPayload => EslError::MalformedPayload,
            EslError::AccessDenied(notice) => EslError::AccessDenied(notice.clone()),
            EslError::Timeout => EslError::Timeout,
            EslError::CorrelationFailure => EslError::CorrelationFailure,
            EslError::UnknownJobId(job) => EslError::UnknownJobId(job.clone()),
        }
    }
}

impl EslError {
    /// Whether the session cannot go on after this error.
    pub open spec fn spec_is_fatal(&self) -> bool {
        self@ is TransportError || self@ is AccessDenied
    }

    /// Whether the session cannot go on after this error.
    #[verifier::when_used_as_spec(spec_is_fatal)]
    pub fn is_fatal(&self) -> (fatal: bool)
        ensures
            fatal == self.spec_is_fatal(),
    {
        match self {
            EslError::TransportError => true,
            EslError::AccessDenied(_) => true,
            _ => false,
        }
    }
}

} // verus!
