use vstd::prelude::*;

use crate::errors::ArklibError;
use crate::text::{decimal, lemma_decimal, parse_u32, parse_u64, split_once, u64_text};

verus! {

/// Name for the CRC-32 (IEEE) checksum of a byte sequence.
pub uninterp spec fn crc32_of(bytes: Seq<u8>) -> u32;

/// Relies on `crc32fast::hash`: the CRC-32 checksum of `buf`.
#[verifier::external_body]
fn crc32_hash(buf: &[u8]) -> (r: u32)
    ensures
        r == crc32_of(buf@),
{
    crc32fast::hash(buf)
}

/// Name for the bytes a CRC-32 hasher has been fed, in order.
pub uninterp spec fn crc32_fed(h: crc32fast::Hasher) -> Seq<u8>;

/// Relies on `crc32fast::Hasher::new`: a hasher fed nothing yet.
#[verifier::external_body]
fn crc32_hasher() -> (r: crc32fast::Hasher)
    ensures
        crc32_fed(r) == Seq::<u8>::empty(),
{
    crc32fast::Hasher::new()
}

/// Relies on `crc32fast::Hasher::update`: feeds `buf` after what came
/// before. Its byte count is a `u64` that must not overflow.
#[verifier::external_body]
fn crc32_update(h: &mut crc32fast::Hasher, buf: &[u8])
    requires
        crc32_fed(*old(h)).len() + buf@.len() <= u64::MAX,
    ensures
        crc32_fed(*final(h)) == crc32_fed(*old(h)) + buf@,
{
    h.update(buf)
}

/// Relies on `crc32fast::Hasher::finalize`: the checksum of all bytes fed.
#[verifier::external_body]
fn crc32_finalize(h: crc32fast::Hasher) -> (r: u32)
    ensures
        r == crc32_of(crc32_fed(h)),
{
    h.finalize()
}

#[verifier::external_type_specification]
#[verifier::external_body]
pub struct ExCrc32Hasher(crc32fast::Hasher);

/// Identifies a resource by its size and the CRC-32 checksum of its bytes.
///
/// Ordering compares `data_size` first, then `hash`.
#[derive(Clone, Copy, Debug, PartialEq, Eq, Structural, PartialOrd, Ord, Hash)]
pub struct ResourceIdCrc32 {
    pub data_size: u64,
    pub hash: u32,
}

/// The canonical text of an identifier: `"{data_size}-{hash}"`, both decimal.
pub open spec fn id_text(id: ResourceIdCrc32) -> Seq<char> {
    decimal(id.data_size as nat) + seq!['-'] + decimal(id.hash as nat)
}

/// What `from_str` reads from a text: the size before the first `-`, the
/// checksum after it, each as std parses unsigned integers.
pub open spec fn parse_id(s: Seq<char>) -> Option<ResourceIdCrc32> {
    if exists|i: int| 0 <= i < s.len() && s[i] == '-' {
        let i = choose|i: int|
            0 <= i < s.len() && s[i] == '-' && forall|j: int| 0 <= j < i ==> s[j] != '-';
        let l = crate::text::unsigned_text_value(s.subrange(0, i));
        let r = crate::text::unsigned_text_value(s.subrange(i + 1, s.len() as int));
        if l.is_some() && r.is_some() && l.unwrap() <= u64::MAX && r.unwrap() <= u32::MAX {
            Some(ResourceIdCrc32 { data_size: l.unwrap() as u64, hash: r.unwrap() as u32 })
        } else {
            None
        }
    } else {
        None
    }
}

impl ResourceIdCrc32 {
    /// The identifier of `bytes`.
    pub fn compute_bytes(bytes: &[u8]) -> (r: Result<Self, ArklibError>)
        ensures
            r == Ok::<Self, ArklibError>(
                ResourceIdCrc32 { data_size: bytes@.len() as u64, hash: crc32_of(bytes@) },
            ),
            r matches Ok(id) && id.data_size == bytes@.len(),
    {
        let data_size = bytes.len() as u64;
        Ok(ResourceIdCrc32 { data_size, hash: crc32_hash(bytes) })
    }

    pub fn get_hash(&self) -> (r: u32)
        ensures
            r == self.hash,
    {
        self.hash
    }

    /// The canonical text of the identifier.
    pub fn to_string(&self) -> (r: String)
        ensures
            r@ == id_text(*self),
    {
        let mut s = u64_text(self.data_size);
        s.append("-");
        let h = u64_text(self.hash as u64);
        s.append(h.as_str());
        proof {
            reveal_strlit("-");
        }
        s
    }

    /// Reads the canonical text back; anything else is a `Parse` error.
    pub fn from_str(s: &str) -> (r: Result<Self, ArklibError>)
        ensures
            match parse_id(s@) {
                Some(id) => r == Ok::<Self, ArklibError>(id),
                None => r == Err::<Self, ArklibError>(ArklibError::Parse),
            },
    {
        match split_once(s, '-') {
            None => Err(ArklibError::Parse),
            Some((l, t)) => {
                proof {
                    let i = choose|i: int|
                        0 <= i < s@.len() && s@[i] == '-' && (forall|j: int|
                            0 <= j < i ==> s@[j] != '-') && l@ == s@.subrange(0, i) && t@
                            == s@.subrange(i + 1, s@.len() as int);
                    let k = choose|k: int|
                        0 <= k < s@.len() && s@[k] == '-' && forall|j: int|
                            0 <= j < k ==> s@[j] != '-';
                    assert(k == i) by {
                        if k < i {
                            assert(s@[k] != '-');
                        }
                        if i < k {
                            assert(s@[i] != '-');
                        }
                    }
                }
                match (parse_u64(l.as_str()), parse_u32(t.as_str())) {
                    (Some(data_size), Some(hash)) => Ok(ResourceIdCrc32 { data_size, hash }),
                    _ => Err(ArklibError::Parse),
                }
            },
        }
    }
}

/// Reading back the canonical text of an identifier gives the identifier.
pub proof fn lemma_text_round_trip(id: ResourceIdCrc32)
    ensures
        parse_id(id_text(id)) == Some(id),
{
    let a = decimal(id.data_size as nat);
    let b = decimal(id.hash as nat);
    let s = id_text(id);
    lemma_decimal(id.data_size as nat);
    lemma_decimal(id.hash as nat);
    let i = a.len() as int;
    assert(s[i] == '-');
    assert forall|j: int| 0 <= j < i implies s[j] != '-' by {
        assert(s[j] == a[j]);
        assert(crate::text::is_digit(a[j]));
    }
    let k = choose|k: int|
        0 <= k < s.len() && s[k] == '-' && forall|j: int| 0 <= j < k ==> s[j] != '-';
    assert(k == i) by {
        if k < i {
            assert(s[k] == a[k]);
            assert(crate::text::is_digit(a[k]));
        }
        if i < k {
            assert(s[i] != '-');
        }
    }
    assert(s.subrange(0, i) =~= a);
    assert(s.subrange(i + 1, s.len() as int) =~= b);
}

/// Streams bytes through the checksum while counting them, so a source can be
/// identified chunk by chunk and checked against the size it announced.
pub struct IdDigest {
    hasher: crc32fast::Hasher,
    bytes_read: u64,
}

impl IdDigest {
    /// The bytes fed so far.
    pub closed spec fn fed(&self) -> Seq<u8> {
        crc32_fed(self.hasher)
    }

    pub closed spec fn wf(&self) -> bool {
        self.bytes_read == self.fed().len()
    }

    pub fn new() -> (r: Self)
        ensures
            r.wf(),
            r.fed() == Seq::<u8>::empty(),
    {
        IdDigest { hasher: crc32_hasher(), bytes_read: 0 }
    }

    /// Feeds one chunk. Fails, leaving the digest as it was, where the total
    /// would not fit in a `u64`.
    pub fn update(&mut self, chunk: &[u8]) -> (r: Result<(), ArklibError>)
        requires
            old(self).wf(),
        ensures
            final(self).wf(),
            old(self).fed().len() + chunk@.len() <= u64::MAX ==> r is Ok && final(self).fed()
                == old(self).fed() + chunk@,
            old(self).fed().len() + chunk@.len() > u64::MAX ==> r is Err && final(self).fed()
                == old(self).fed(),
    {
        let n = chunk.len() as u64;
        if n > u64::MAX - self.bytes_read {
            return Err(ArklibError::Other("size overflow".to_string()));
        }
        crc32_update(&mut self.hasher, chunk);
        self.bytes_read = self.bytes_read + n;
        Ok(())
    }

    /// The identifier of the bytes fed, provided exactly `data_size` of them
    /// were fed; otherwise the source changed or was truncated while it was
    /// read.
    pub fn finish(self, data_size: u64) -> (r: Result<ResourceIdCrc32, ArklibError>)
        requires
            self.wf(),
        ensures
            self.fed().len() == data_size ==> r == Ok::<ResourceIdCrc32, ArklibError>(
                ResourceIdCrc32 { data_size, hash: crc32_of(self.fed()) },
            ),
            self.fed().len() != data_size ==> r is Err,
    {
        if self.bytes_read != data_size {
            return Err(ArklibError::Io("size of the source changed while reading".to_string()));
        }
        let hash = crc32_finalize(self.hasher);
        Ok(ResourceIdCrc32 { data_size, hash })
    }
}

} // verus!
