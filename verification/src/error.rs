use vstd::prelude::*;
use vstd::string::*;

verus! {

/// Error types that might be encountered while bantering
#[derive(PartialEq, Eq, Debug, Clone)]
pub enum Error {
    /// Deserialization of a message from a peer (or attacker!) failed
    Deserialization,
    /// Parsing of a string failed
    Parsing { from: String, to: String },
    /// Connection to TCP socket failed
    ConnectionFailed { to: String },
    /// Writing to TCP socket failed
    SocketWriteFailed { to: String },
    /// Decoding a base64 string failed
    Base64Decode { string: String },
}

/// The value of an error: its kind and the text it carries.
pub enum ErrorView {
    Deserialization,
    Parsing { from: Seq<char>, to: Seq<char> },
    ConnectionFailed { to: Seq<char> },
    SocketWriteFailed { to: Seq<char> },
    Base64Decode { string: Seq<char> },
}

impl View for Error {
    type V = ErrorView;

    open spec fn view(&self) -> ErrorView {
        match self {
            Error::Deserialization => ErrorView::Deserialization,
            Error::Parsing { from, to } => ErrorView::Parsing { from: from@, to: to@ },
            Error::ConnectionFailed { to } => ErrorView::ConnectionFailed { to: to@ },
            Error::SocketWriteFailed { to } => ErrorView::SocketWriteFailed { to: to@ },
            Error::Base64Decode { string } => ErrorView::Base64Decode { string: string@ },
        }
    }
}

/// Whether the result `r` is the outcome `expected`: a success with the
/// expected value, or a failure with the expected error.
pub open spec fn result_is<T: View>(r: Result<T, Error>, expected: Result<T::V, ErrorView>) -> bool {
    match (r, expected) {
        (Ok(x), Ok(v)) => x@ == v,
        (Err(e), Err(ev)) => e@ == ev,
        _ => false,
    }
}

/// The error of a failed parse of the text `from` as a value of the type
/// named `to`.
pub open spec fn parsing_error(from: Seq<char>, to: Seq<char>) -> ErrorView {
    ErrorView::Parsing { from, to }
}

/// The human-readable description of an error.
pub open spec fn error_text(e: Error) -> Seq<char> {
    match e {
        Error::Deserialization => "Deserialization error"@,
        Error::Parsing { from, to } => "Error while trying to parse "@ + from@ + " as "@ + to@,
        Error::ConnectionFailed { to } => "Connection failed to: "@ + to@,
        Error::SocketWriteFailed { to } => "Writing to socket failed: "@ + to@,
        Error::Base64Decode { string } => "Could not decode base64 string: "@ + string@,
    }
}

impl Error {
    /// Formats the error for humans.
    pub fn to_string(&self) -> (s: String)
        ensures
            s@ == error_text(*self),
    {
        match self {
            Error::Deserialization => String::from_str("Deserialization error"),
            Error::Parsing { from, to } => {
                let mut s = String::from_str("Error while trying to parse ");
                s.append(from.as_str());
                s.append(" as ");
                s.append(to.as_str());
                s
            },
            Error::ConnectionFailed { to } => {
                let mut s = String::from_str("Connection failed to: ");
                s.append(to.as_str());
                s
            },
            Error::SocketWriteFailed { to } => {
                let mut s = String::from_str("Writing to socket failed: ");
                s.append(to.as_str());
                s
            },
            Error::Base64Decode { string } => {
                let mut s = String::from_str("Could not decode base64 string: ");
                s.append(string.as_str());
                s
            },
        }
    }

    /// Turns the error into a failed result.
    pub fn into_result<T>(self) -> (r: Result<T, Error>)
        ensures
            r == Err::<T, Error>(self),
    {
        Err(self)
    }
}

} // verus!
