//! What can go wrong before or behind a request.

use vstd::prelude::*;
use vstd::string::StringExecFns;

verus! {

/// Why a site cannot be mirrored, a page not be read or a URL not be downloaded.
#[derive(Debug)]
pub enum WgetError {
    /// No URL was given to mirror.
    MissingUrl,
    /// The text is no URL; what is wrong with it.
    InvalidUrl(String),
    /// The URL has no host.
    NoHost,
    /// A tag name is no selector; what is wrong with it.
    InvalidSelector(String),
    /// A page is longer than the parser takes.
    PageTooLarge,
}

/// What a [`WgetError`] holds.
pub enum ErrorModel {
    MissingUrl,
    InvalidUrl(Seq<char>),
    NoHost,
    InvalidSelector(Seq<char>),
    PageTooLarge,
}

impl View for WgetError {
    type V = ErrorModel;

    open spec fn view(&self) -> ErrorModel {
        match *self {
            WgetError::MissingUrl => ErrorModel::MissingUrl,
            WgetError::InvalidUrl(reason) => ErrorModel::InvalidUrl(reason@),
            WgetError::NoHost => ErrorModel::NoHost,
            WgetError::InvalidSelector(reason) => ErrorModel::InvalidSelector(reason@),
            WgetError::PageTooLarge => ErrorModel::PageTooLarge,
        }
    }
}

/// How an error is told to the user.
pub open spec fn error_text(e: ErrorModel) -> Seq<char> {
    match e {
        ErrorModel::MissingUrl => "URL is required for mirroring"@,
        ErrorModel::InvalidUrl(reason) => reason,
        ErrorModel::NoHost => "Invalid URL: no host found"@,
        ErrorModel::InvalidSelector(reason) => "Invalid selector: "@ + reason,
        ErrorModel::PageTooLarge => "The page is too large"@,
    }
}

impl WgetError {
    /// The message for the user.
    pub fn message(&self) -> (r: String)
        ensures
            r@ == error_text(self@),
    {
        match self {
            WgetError::MissingUrl => "URL is required for mirroring".to_string(),
            WgetError::InvalidUrl(reason) => reason.clone(),
            WgetError::NoHost => "Invalid URL: no host found".to_string(),
            WgetError::InvalidSelector(reason) => {
                let mut text = "Invalid selector: ".to_string();
                text.append(reason.as_str());
                text
            },
            WgetError::PageTooLarge => "The page is too large".to_string(),
        }
    }
}

} // verus!
