//! Error kinds of the key-value service.
//!
//! Errors raised while serving a command are converted into a
//! `CommandResponse` with an HTTP-style status code; errors of the frame
//! codec are fatal for the connection that raised them.

use vstd::prelude::*;

verus! {

/// An error of the frame codec.
///
/// `TooLarge` is returned when a payload would not fit in the 31 bits of
/// length that the frame header carries; `Invalid` covers a truncated
/// frame, a corrupt compressed body and a payload that the message
/// decoder rejects.
#[derive(Clone, Copy, Debug, PartialEq, Eq, Structural)]
pub enum FrameError {
    TooLarge,
    Invalid,
}

/// An error raised while executing a command against a store.
#[derive(Clone, Debug, PartialEq)]
pub enum KvError {
    /// The table/key pair named by a single-key read or delete is absent.
    NotFound(String, String),
    /// The request decoded, but its variant is unsupported or missing.
    InvalidCommand(String),
    /// A value could not be coerced to the requested type: source and
    /// target type names.
    ConvertError(String, String),
    /// A storage backend failure: operation, table, key and cause.
    StorageError(String, String, String, String),
    /// A failure that fits no other kind.
    Internal(String),
}

/// The message of a "not found" error on `t` and `k`.
pub open spec fn not_found_msg(t: Seq<char>, k: Seq<char>) -> Seq<char> {
    "Not found for table: "@ + t + ", key: "@ + k
}

impl KvError {
    /// The human-readable text of the error, as it is placed into the
    /// `message` field of an error response.
    pub open spec fn spec_message(&self) -> Seq<char> {
        match self {
            KvError::NotFound(t, k) => not_found_msg(t@, k@),
            KvError::InvalidCommand(c) => "Invalid command: "@ + c@,
            KvError::ConvertError(f, to) => "Cannot convert value "@ + f@ + " to "@ + to@,
            KvError::StorageError(op, t, k, c) => "Cannot process command "@ + op@
                + " with table: "@ + t@ + ", key: "@ + k@ + ". Error: "@ + c@,
            KvError::Internal(m) => "Internal error: "@ + m@,
        }
    }

    /// Renders the error as text.
    pub fn message_text(&self) -> (r: String)
        ensures
            r@ == self.spec_message(),
    {
        match self {
            KvError::NotFound(t, k) => {
                let mut s = String::from_str("Not found for table: ");
                s.append(t.as_str());
                s.append(", key: ");
                s.append(k.as_str());
                s
            },
            KvError::InvalidCommand(c) => {
                let mut s = String::from_str("Invalid command: ");
                s.append(c.as_str());
                s
            },
            KvError::ConvertError(f, to) => {
                let mut s = String::from_str("Cannot convert value ");
                s.append(f.as_str());
                s.append(" to ");
                s.append(to.as_str());
                s
            },
            KvError::StorageError(op, t, k, c) => {
                let mut s = String::from_str("Cannot process command ");
                s.append(op.as_str());
                s.append(" with table: ");
                s.append(t.as_str());
                s.append(", key: ");
                s.append(k.as_str());
                s.append(". Error: ");
                s.append(c.as_str());
                s
            },
            KvError::Internal(m) => {
                let mut s = String::from_str("Internal error: ");
                s.append(m.as_str());
                s
            },
        }
    }
}

} // verus!
