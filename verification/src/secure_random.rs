//! Sources of random 64-bit values for nonces.
use vstd::prelude::*;

verus! {

/// A source of unpredictable 64-bit values.
pub trait SecureRandom {
    /// A fresh value, or `None` when the source fails.
    fn random_u64(&mut self) -> Option<u64>;
}

/// Random values from the operating system.
#[derive(Debug, Clone)]
pub struct GetRandom;

/// `getrandom::fill` on eight octets, read as a little-endian `u64`; `None` where the
/// operating system's generator reports a failure. Nothing is said of the value, nor
/// of when the generator fails.
#[verifier::external_body]
fn os_random_u64() -> Option<u64> {
    let mut buf = [0u8; 8];
    match getrandom::fill(&mut buf) {
        Ok(()) => Some(u64::from_le_bytes(buf)),
        Err(_) => None,
    }
}

impl SecureRandom for GetRandom {
    /// Eight octets from the operating system's generator, or `None` when it fails.
    fn random_u64(&mut self) -> Option<u64> {
        os_random_u64()
    }
}

} // verus!
