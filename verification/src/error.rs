//! The errors that the library reports.
use vstd::prelude::*;

verus! {

/// Failures of the encrypted transports.
#[derive(Debug)]
pub enum CryptoError {
    /// A framed block could not be sealed or opened.
    Transport(String),
}

impl CryptoError {
    /// What went wrong, in words.
    pub open spec fn text(self) -> Seq<char> {
        match self {
            CryptoError::Transport(message) => message@,
        }
    }

    /// What went wrong, in words.
    pub fn message(&self) -> (r: &str)
        ensures
            r@ == self.text(),
    {
        match self {
            CryptoError::Transport(message) => message.as_str(),
        }
    }

    /// A transport error with the given words.
    pub(crate) fn transport(message: &str) -> (r: Self)
        ensures
            r is Transport,
            r.text() == message@,
    {
        CryptoError::Transport(message.to_owned())
    }
}

/// Failures of discovery and of remote control.
#[derive(Debug)]
pub enum NetworkError {
    /// A service was not found, or did not do what it was asked to.
    Mdns(String),
}

impl NetworkError {
    /// What went wrong, in words.
    pub open spec fn text(self) -> Seq<char> {
        match self {
            NetworkError::Mdns(message) => message@,
        }
    }

    /// What went wrong, in words.
    pub fn message(&self) -> (r: &str)
        ensures
            r@ == self.text(),
    {
        match self {
            NetworkError::Mdns(message) => message.as_str(),
        }
    }

    /// A service error with the given words.
    pub(crate) fn mdns(message: &str) -> (r: Self)
        ensures
            r.text() == message@,
    {
        NetworkError::Mdns(message.to_owned())
    }
}

/// An error's words are those that it was made with.
pub proof fn law_error_words(message: String)
    ensures
        CryptoError::Transport(message).text() == message@,
        NetworkError::Mdns(message).text() == message@,
{
}

} // verus!
