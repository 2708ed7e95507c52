use vstd::prelude::*;

use uuid::{Builder, Uuid};

verus! {

/// `getrandom::Error`, the failure to obtain entropy; opaque.
#[verifier::external_type_specification]
#[verifier::external_body]
pub struct ExEntropyError(getrandom::Error);

/// Relies on `getrandom::getrandom`: fills the buffer from the operating
/// system's entropy source, or reports that it could not; it does not panic.
#[verifier::external_body]
pub(crate) fn fill_from_entropy(buffer: &mut [u8]) -> (r: Result<(), getrandom::Error>)
    ensures
        final(buffer)@.len() == old(buffer)@.len(),
{
    getrandom::getrandom(buffer)
}

/// Relies on `uuid::Builder::from_random_bytes` and `Builder::into_uuid`: a
/// version 4 identifier made from the 16 bytes; neither panics.
#[verifier::external_body]
fn uuid_from_random_bytes(bytes: [u8; 16]) -> (r: Uuid) {
    Builder::from_random_bytes(bytes).into_uuid()
}

/// A random identifier made from 16 bytes of fresh entropy; fails only when
/// no entropy could be had.
pub fn fresh_id() -> (r: Result<Uuid, getrandom::Error>) {
    let mut bytes = [0u8; 16];
    match fill_from_entropy(&mut bytes) {
        Ok(()) => Ok(uuid_from_random_bytes(bytes)),
        Err(e) => Err(e),
    }
}

} // verus!
