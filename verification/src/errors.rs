//! Error vocabulary surfaced to the application layer.

use vstd::prelude::*;

verus! {

/// What went wrong while exchanging messages with the mesh.
#[derive(Debug, PartialEq, Eq)]
pub enum ClientError {
    NetworkError(String),
    FragmentationError(String),
    SerializationError(String),
    ProtocolError(String),
    TimeoutError,
    UnknownServer,
    InvalidResponse,
}

impl ClientError {
    /// A short fixed description of the error's category.
    pub fn category(&self) -> (r: &'static str)
        ensures
            r@ == match self {
                ClientError::NetworkError(_) => "network error"@,
                ClientError::FragmentationError(_) => "fragmentation error"@,
                ClientError::SerializationError(_) => "serialization error"@,
                ClientError::ProtocolError(_) => "protocol error"@,
                ClientError::TimeoutError => "operation timed out"@,
                ClientError::UnknownServer => "unknown server"@,
                ClientError::InvalidResponse => "invalid response from server"@,
            },
    {
        match self {
            ClientError::NetworkError(_) => "network error",
            ClientError::FragmentationError(_) => "fragmentation error",
            ClientError::SerializationError(_) => "serialization error",
            ClientError::ProtocolError(_) => "protocol error",
            ClientError::TimeoutError => "operation timed out",
            ClientError::UnknownServer => "unknown server",
            ClientError::InvalidResponse => "invalid response from server",
        }
    }
}

} // verus!
