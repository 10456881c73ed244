//! A resource identifier made of the BLAKE3 digest alone.
use vstd::prelude::*;

use crate::errors::ArklibError;
use crate::resource::blake3::{
    base64_decode, base64_decoded, base64_encode, base64_of, blake3_digest, blake3_of, digest_array,
};

verus! {

/// Identifies a resource by the BLAKE3 digest of its bytes.
#[derive(Clone, Copy, Debug, PartialEq, Eq, PartialOrd, Ord, Hash)]
pub struct ResourceId {
    pub blake3: [u8; 32],
}

impl ResourceId {
    /// The identifier of `bytes`.
    pub fn compute_bytes(bytes: &[u8]) -> (r: Result<Self, ArklibError>)
        ensures
            r matches Ok(id) && id.blake3@ == blake3_of(bytes@),
    {
        Ok(ResourceId { blake3: blake3_digest(bytes) })
    }

    /// The text of the identifier: the base64 of its digest.
    pub fn to_string(&self) -> (r: String)
        ensures
            r@ == base64_of(self.blake3@),
    {
        base64_encode(&self.blake3)
    }

    /// Reads the text back: the text of an identifier gives that identifier;
    /// text that is not base64 of exactly 32 bytes is a `Parse` error.
    pub fn from_str(s: &str) -> (r: Result<Self, ArklibError>)
        ensures
            forall|id: Self| #[trigger] base64_of(id.blake3@) == s@ ==> (r matches Ok(x) && x.blake3@
                == id.blake3@),
            match base64_decoded(s@) {
                Some(b) => if b.len() == 32 {
                    r matches Ok(x) && x.blake3@ == b
                } else {
                    r matches Err(ArklibError::Parse)
                },
                None => r matches Err(ArklibError::Parse),
            },
    {
        let bytes = match base64_decode(s) {
            None => return Err(ArklibError::Parse),
            Some(b) => b,
        };
        if bytes.len() != 32 {
            return Err(ArklibError::Parse);
        }
        Ok(ResourceId { blake3: digest_array(&bytes) })
    }
}

} // verus!
