//! Resource identifiers: the size of a resource's bytes and a digest of them.
use vstd::prelude::*;

use crate::errors::ArklibError;

pub mod blake3;
pub mod crc32;

pub use blake3::ResourceIdBlake3;
pub use crc32::ResourceIdCrc32 as ResourceId;

verus! {

/// What every kind of resource identifier offers.
pub trait ResourceIdTrait: Sized {
    /// The digest part of the identifier.
    type HashType;

    /// The size of the identified bytes.
    spec fn data_size_of(&self) -> nat;

    /// The digest of the identified bytes.
    spec fn hash_of(&self) -> Self::HashType;

    fn get_hash(&self) -> (r: Self::HashType)
        ensures
            r == self.hash_of(),
    ;

    /// The identifier of `bytes`.
    fn compute_bytes(bytes: &[u8]) -> (r: Result<Self, ArklibError>)
        ensures
            r matches Ok(id) && id.data_size_of() == bytes@.len(),
    ;
}

impl ResourceIdTrait for ResourceIdBlake3 {
    type HashType = [u8; 32];

    open spec fn data_size_of(&self) -> nat {
        self.data_size as nat
    }

    open spec fn hash_of(&self) -> [u8; 32] {
        self.hash
    }

    fn get_hash(&self) -> [u8; 32] {
        self.hash
    }

    fn compute_bytes(bytes: &[u8]) -> Result<Self, ArklibError> {
        ResourceIdBlake3::compute_bytes(bytes)
    }
}

impl ResourceIdTrait for ResourceId {
    type HashType = u32;

    open spec fn data_size_of(&self) -> nat {
        self.data_size as nat
    }

    open spec fn hash_of(&self) -> u32 {
        self.hash
    }

    fn get_hash(&self) -> u32 {
        self.hash
    }

    fn compute_bytes(bytes: &[u8]) -> Result<Self, ArklibError> {
        ResourceId::compute_bytes(bytes)
    }
}

} // verus!
