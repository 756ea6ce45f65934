//! Error taxonomy of the storage and replication layers.

use vstd::prelude::*;
use vstd::string::StringExecFns;

verus! {

/// Everything that can go wrong in the storage core or during replication.
#[derive(Debug, Clone, PartialEq, Eq)]
pub enum StorageError {
    /// Underlying I/O failure, reported by the unverified edge.
    Io(String),
    /// CRC mismatch, invalid tag byte, truncated or malformed record.
    Corruption(String),
    /// Corrupted SSTable contents.
    CorruptedData(String),
    /// A value that does not fit the on-disk or on-wire format.
    InvalidFormat(String),
    /// A requested resource (for instance a WAL segment) does not exist.
    NotFound(String),
    /// A requested key does not exist.
    KeyNotFound,
    /// A channel to a worker was closed.
    ChannelSend(String),
    /// The system clock misbehaved.
    SystemTime(String),
    /// A TCP connection could not be established.
    ConnectionFailed(String),
    /// A network operation exceeded its deadline.
    Timeout(String),
    /// The peer closed the connection.
    ConnectionClosed,
    /// The leader answered a request with an error message.
    LeaderError(String),
    /// The peer answered with a response of an unexpected shape.
    UnexpectedResponse,
}

impl StorageError {
    /// A human-readable description: a fixed label for the kind, followed by
    /// the carried detail where there is one.
    /// The label-and-detail text of each variant.
    pub open spec fn spec_message(self) -> Seq<char> {
        match self {
            StorageError::Io(s) => "IO error: "@ + s@,
            StorageError::Corruption(s) => "Corrupted data: "@ + s@,
            StorageError::CorruptedData(s) => "Corrupted data: "@ + s@,
            StorageError::InvalidFormat(s) => "Invalid format: "@ + s@,
            StorageError::NotFound(s) => "Resource not found: "@ + s@,
            StorageError::KeyNotFound => "Key not found"@,
            StorageError::ChannelSend(s) => "Channel send error: "@ + s@,
            StorageError::SystemTime(s) => "System time error: "@ + s@,
            StorageError::ConnectionFailed(s) => "Connection failed: "@ + s@,
            StorageError::Timeout(s) => "Timeout: "@ + s@,
            StorageError::ConnectionClosed => "Connection closed"@,
            StorageError::LeaderError(s) => "Leader error: "@ + s@,
            StorageError::UnexpectedResponse => "Unexpected response"@,
        }
    }

    pub fn message(&self) -> (r: String)
        ensures
            r@ == self.spec_message(),
    {
        match self {
            StorageError::Io(s) => join_label("IO error: ", s),
            StorageError::Corruption(s) => join_label("Corrupted data: ", s),
            StorageError::CorruptedData(s) => join_label("Corrupted data: ", s),
            StorageError::InvalidFormat(s) => join_label("Invalid format: ", s),
            StorageError::NotFound(s) => join_label("Resource not found: ", s),
            StorageError::KeyNotFound => String::from_str("Key not found"),
            StorageError::ChannelSend(s) => join_label("Channel send error: ", s),
            StorageError::SystemTime(s) => join_label("System time error: ", s),
            StorageError::ConnectionFailed(s) => join_label("Connection failed: ", s),
            StorageError::Timeout(s) => join_label("Timeout: ", s),
            StorageError::ConnectionClosed => String::from_str("Connection closed"),
            StorageError::LeaderError(s) => join_label("Leader error: ", s),
            StorageError::UnexpectedResponse => String::from_str("Unexpected response"),
        }
    }
}

/// A fixed label followed by a detail string.
fn join_label(label: &str, detail: &String) -> (r: String)
    ensures
        r@ == label@ + detail@,
{
    let mut out = String::from_str(label);
    out.append(detail.as_str());
    out
}

} // verus!
