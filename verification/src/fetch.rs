//! What a fetch of a fragment can come to, and what it means for the directive.

use crate::error::{ErrorView, ExecutionError};
use vstd::prelude::*;

verus! {

/// The outcome of one request for a fragment, as the transport reports it.
#[derive(Debug)]
pub enum FetchOutcome {
    /// The request was answered.
    Response { status: u16, body: Vec<u8> },
    /// The request could not be carried out; the field says why.
    Error(String),
}

/// An outcome as contracts see it.
pub enum FetchView {
    Response { status: u16, body: Seq<u8> },
    Error(Seq<char>),
}

impl View for FetchOutcome {
    type V = FetchView;

    open spec fn view(&self) -> FetchView {
        match self {
            FetchOutcome::Response { status, body } => FetchView::Response {
                status: *status,
                body: body@,
            },
            FetchOutcome::Error(detail) => FetchView::Error(detail@),
        }
    }
}

impl FetchView {
    /// A fetch succeeded if it was answered with a status from 200 to 299.
    pub open spec fn succeeded(self) -> bool {
        self matches FetchView::Response { status, .. } && 200 <= status <= 299
    }

    /// The fragment that a successful fetch brought.
    pub open spec fn fragment(self) -> Seq<u8> {
        match self {
            FetchView::Response { body, .. } => body,
            FetchView::Error(_) => Seq::empty(),
        }
    }

    /// The error that a failed fetch stands for.
    pub open spec fn error(self) -> ErrorView {
        match self {
            FetchView::Response { status, .. } => ErrorView::UnexpectedStatus(status),
            FetchView::Error(detail) => ErrorView::RequestError(detail),
        }
    }
}

impl FetchOutcome {
    /// The fragment of a successful fetch, or the error of a failed one.
    pub fn into_fragment(self) -> (r: Result<Vec<u8>, ExecutionError>)
        ensures
            match r {
                Ok(body) => self@.succeeded() && body@ == self@.fragment(),
                Err(e) => !self@.succeeded() && e@ == self@.error(),
            },
    {
        match self {
            FetchOutcome::Response { status, body } => {
                if 200 <= status && status <= 299 {
                    Ok(body)
                } else {
                    Err(ExecutionError::UnexpectedStatus(status))
                }
            },
            FetchOutcome::Error(detail) => Err(ExecutionError::RequestError(detail)),
        }
    }
}

} // verus!
