//! The ways in which processing a document can fail.

use vstd::prelude::*;

verus! {

#[verifier::external_type_specification]
#[verifier::external_body]
pub struct ExXmlError(quick_xml::Error);

/// Why the processing of a document stopped.
#[derive(Debug)]
pub enum ExecutionError {
    /// The tokenizer found the markup malformed.
    XMLError(quick_xml::Error),
    /// A directive (first field) lacks a mandatory attribute (second field).
    MissingRequiredParameter(String, String),
    /// A closing tag without its opening tag, or a block left open at the end of the input.
    UnexpectedClosingTag(String),
    /// An attribute occurs twice on one directive.
    DuplicateTagAttribute(String),
    /// The fetch of a fragment failed in transport.
    RequestError(String),
    /// The fetch of a fragment was answered with a status outside 200..=299.
    UnexpectedStatus(u16),
    /// Reserved; no path of this library returns it.
    Unknown,
}

/// An `ExecutionError` as contracts see it. The tokenizer's own error is opaque, so
/// `XMLError` carries nothing here.
pub enum ErrorView {
    XMLError,
    MissingRequiredParameter(Seq<char>, Seq<char>),
    UnexpectedClosingTag(Seq<char>),
    DuplicateTagAttribute(Seq<char>),
    RequestError(Seq<char>),
    UnexpectedStatus(u16),
    Unknown,
}

impl View for ExecutionError {
    type V = ErrorView;

    open spec fn view(&self) -> ErrorView {
        match self {
            ExecutionError::XMLError(_) => ErrorView::XMLError,
            ExecutionError::MissingRequiredParameter(tag, param) => {
                ErrorView::MissingRequiredParameter(tag@, param@)
            },
            ExecutionError::UnexpectedClosingTag(tag) => ErrorView::UnexpectedClosingTag(tag@),
            ExecutionError::DuplicateTagAttribute(name) => ErrorView::DuplicateTagAttribute(name@),
            ExecutionError::RequestError(detail) => ErrorView::RequestError(detail@),
            ExecutionError::UnexpectedStatus(code) => ErrorView::UnexpectedStatus(*code),
            ExecutionError::Unknown => ErrorView::Unknown,
        }
    }
}

impl ErrorView {
    /// Structural errors come from the document itself and are never recovered from;
    /// the other errors come from a fetch.
    pub open spec fn is_structural(self) -> bool {
        self is XMLError || self is MissingRequiredParameter || self is UnexpectedClosingTag
            || self is DuplicateTagAttribute
    }
}

impl ExecutionError {
    /// Tells the errors of the document apart from those of a fetch.
    pub fn is_structural(&self) -> (b: bool)
        ensures
            b == self@.is_structural(),
    {
        match self {
            ExecutionError::XMLError(_) => true,
            ExecutionError::MissingRequiredParameter(_, _) => true,
            ExecutionError::UnexpectedClosingTag(_) => true,
            ExecutionError::DuplicateTagAttribute(_) => true,
            _ => false,
        }
    }
}

} // verus!
