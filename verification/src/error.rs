//! The errors of the library.

use vstd::prelude::*;

verus! {

/// `std::io::Error`, the error of a failed write. The library only carries
/// it to the caller; nothing is known of what it holds.
#[verifier::external_type_specification]
#[verifier::external_body]
pub struct ExIoError(std::io::Error);

/// Why building or reading a packet failed.
#[derive(Debug)]
pub enum SerializationError {
    /// The byte writer reported a failure.
    Io(std::io::Error),
    /// A commit asked to release more bytes than a packet had reserved.
    SubstractionOverflow,
    /// The bytes are not the payload of a packet.
    InvalidPacket,
}

/// Turns the outcome of one write into the library's own error type.
pub fn written(outcome: Result<(), std::io::Error>) -> (r: Result<(), SerializationError>)
    ensures
        outcome is Ok <==> r is Ok,
        outcome is Err ==> (r matches Err(e) && e is Io),
{
    match outcome {
        Ok(()) => Ok(()),
        Err(e) => Err(SerializationError::Io(e)),
    }
}

} // verus!
