use base64::Engine as _;
use vstd::prelude::*;

use crate::errors::ArklibError;
use crate::text::{decimal, lemma_decimal, parse_u64, split_first, split_once, u64_of, u64_text};

verus! {

/// Name for the BLAKE3 digest of a byte sequence.
pub uninterp spec fn blake3_of(bytes: Seq<u8>) -> Seq<u8>;

/// Name for the padded standard base64 text of a byte sequence.
pub uninterp spec fn base64_of(bytes: Seq<u8>) -> Seq<char>;

/// Relies on `blake3::hash`: the 32-byte BLAKE3 digest of `input`.
#[verifier::external_body]
pub(crate) fn blake3_digest(input: &[u8]) -> (r: [u8; 32])
    ensures
        r@ == blake3_of(input@),
{
    *blake3::hash(input).as_bytes()
}

#[verifier::external_type_specification]
#[verifier::external_body]
pub struct ExBlake3Hasher(blake3::Hasher);

/// Name for the bytes a BLAKE3 hasher has been fed, in order.
pub uninterp spec fn blake3_fed(h: blake3::Hasher) -> Seq<u8>;

/// Relies on `blake3::Hasher::new`: a hasher fed nothing yet.
#[verifier::external_body]
fn blake3_hasher() -> (r: blake3::Hasher)
    ensures
        blake3_fed(r) == Seq::<u8>::empty(),
{
    blake3::Hasher::new()
}

/// Relies on `blake3::Hasher::update`: feeds `input` after what came before.
#[verifier::external_body]
fn blake3_update(h: &mut blake3::Hasher, input: &[u8])
    ensures
        blake3_fed(*final(h)) == blake3_fed(*old(h)) + input@,
{
    h.update(input);
}

/// Relies on `blake3::Hasher::finalize`: the digest of all bytes fed, as
/// `blake3::hash` gives it.
#[verifier::external_body]
fn blake3_finalize(h: &blake3::Hasher) -> (r: [u8; 32])
    ensures
        r@ == blake3_of(blake3_fed(*h)),
{
    *h.finalize().as_bytes()
}

/// Relies on base64's `STANDARD` engine `encode`: padded standard base64.
#[verifier::external_body]
pub(crate) fn base64_encode(bytes: &[u8]) -> (r: String)
    ensures
        r@ == base64_of(bytes@),
{
    base64::engine::general_purpose::STANDARD.encode(bytes)
}

/// Name for what the padded standard base64 decoder reads from a text, if
/// the text is valid.
pub uninterp spec fn base64_decoded(text: Seq<char>) -> Option<Seq<u8>>;

/// Relies on base64's `STANDARD` engine `decode`, which reads back what
/// `encode` wrote; other text may fail.
#[verifier::external_body]
pub(crate) fn base64_decode(text: &str) -> (r: Option<Vec<u8>>)
    ensures
        base64_decoded(text@).is_some() ==> r.is_some() && r.unwrap()@ == base64_decoded(text@).unwrap(),
        base64_decoded(text@).is_none() ==> r.is_none(),
        forall|b: Seq<u8>| #[trigger] base64_of(b) == text@ ==> r.is_some() && r.unwrap()@ == b,
{
    base64::engine::general_purpose::STANDARD.decode(text.as_bytes()).ok()
}

/// The 32 bytes of `v`, which must have exactly that many.
pub(crate) fn digest_array(v: &Vec<u8>) -> (r: [u8; 32])
    requires
        v@.len() == 32,
    ensures
        r@ == v@,
{
    let mut a = [0u8; 32];
    let mut i: usize = 0;
    while i < 32
        invariant
            i <= 32,
            v@.len() == 32,
            forall|j: int| 0 <= j < i ==> a@[j] == v@[j],
        decreases 32 - i,
    {
        a[i] = v[i];
        i = i + 1;
    }
    proof {
        assert(a@ =~= v@);
    }
    a
}

/// Identifies a resource by its size and the BLAKE3 digest of its bytes.
#[derive(Clone, Copy, Debug, PartialEq, Eq, PartialOrd, Ord, Hash)]
pub struct ResourceIdBlake3 {
    pub data_size: u64,
    pub hash: [u8; 32],
}

/// What `from_str` reads: a decimal `u64` size before the first `-`, and
/// after it base64 text of exactly 32 bytes.
pub open spec fn parse_blake3_id(s: Seq<char>) -> Option<(u64, Seq<u8>)> {
    match split_first(s, '-') {
        None => None,
        Some(parts) => match (u64_of(parts.0), base64_decoded(parts.1)) {
            (Some(n), Some(b)) => if b.len() == 32 {
                Some((n, b))
            } else {
                None
            },
            _ => None,
        },
    }
}

/// The canonical text: `"{data_size}-{base64 of hash}"`.
pub open spec fn blake3_id_text(data_size: u64, hash: Seq<u8>) -> Seq<char> {
    decimal(data_size as nat) + seq!['-'] + base64_of(hash)
}

impl ResourceIdBlake3 {
    pub fn get_hash(&self) -> (r: [u8; 32])
        ensures
            r@ == self.hash@,
    {
        self.hash
    }

    /// The identifier of `bytes`.
    pub fn compute_bytes(bytes: &[u8]) -> (r: Result<Self, ArklibError>)
        ensures
            r matches Ok(id) && id.data_size == bytes@.len() && id.hash@ == blake3_of(bytes@),
    {
        let data_size = bytes.len() as u64;
        Ok(ResourceIdBlake3 { data_size, hash: blake3_digest(bytes) })
    }

    /// The canonical text of the identifier.
    pub fn to_string(&self) -> (r: String)
        ensures
            r@ == blake3_id_text(self.data_size, self.hash@),
    {
        let mut s = u64_text(self.data_size);
        s.append("-");
        let h = base64_encode(&self.hash);
        s.append(h.as_str());
        proof {
            reveal_strlit("-");
        }
        s
    }

    /// Reads the canonical text back: the text of an identifier gives that
    /// identifier; a text without `-`, with a size that is not a number, or
    /// whose digest is not base64 of 32 bytes is a `Parse` error.
    pub fn from_str(s: &str) -> (r: Result<Self, ArklibError>)
        ensures
            forall|id: Self| #[trigger] blake3_id_text(id.data_size, id.hash@) == s@ ==> (r matches Ok(x)
                && x.data_size == id.data_size && x.hash@ == id.hash@),
            match parse_blake3_id(s@) {
                Some(p) => r matches Ok(x) && x.data_size == p.0 && x.hash@ == p.1,
                None => r matches Err(ArklibError::Parse),
            },
    {
        let (l, t) = match split_once(s, '-') {
            None => {
                proof {
                    assert forall|id: Self| #[trigger] blake3_id_text(id.data_size, id.hash@) != s@ by {
                        let k = decimal(id.data_size as nat).len() as int;
                        assert(blake3_id_text(id.data_size, id.hash@)[k] == '-');
                    }
                }
                return Err(ArklibError::Parse);
            },
            Some(parts) => parts,
        };
        proof {
            assert forall|id: Self| #[trigger] blake3_id_text(id.data_size, id.hash@) == s@ implies l@
                == decimal(id.data_size as nat) && t@ == base64_of(id.hash@) by {
                lemma_split_after_decimal(s@, id.data_size as nat, base64_of(id.hash@), l@, t@);
            }
        }
        let data_size = match parse_u64(l.as_str()) {
            None => {
                proof {
                    assert forall|id: Self| #[trigger] blake3_id_text(id.data_size, id.hash@) != s@ by {
                        if blake3_id_text(id.data_size, id.hash@) == s@ {
                            lemma_decimal(id.data_size as nat);
                        }
                    }
                }
                return Err(ArklibError::Parse);
            },
            Some(n) => n,
        };
        let bytes = match base64_decode(t.as_str()) {
            None => return Err(ArklibError::Parse),
            Some(b) => b,
        };
        if bytes.len() != 32 {
            return Err(ArklibError::Parse);
        }
        let hash = digest_array(&bytes);
        proof {
            assert forall|id: Self| #[trigger] blake3_id_text(id.data_size, id.hash@) == s@ implies data_size
                == id.data_size && hash@ == id.hash@ by {
                lemma_decimal(id.data_size as nat);
            }
        }
        Ok(ResourceIdBlake3 { data_size, hash })
    }
}

/// Streams bytes through BLAKE3 while counting them, so a source can be
/// identified chunk by chunk and checked against the size it announced.
pub struct Blake3Digest {
    hasher: blake3::Hasher,
    bytes_read: u64,
}

impl Blake3Digest {
    /// The bytes fed so far.
    pub closed spec fn fed(&self) -> Seq<u8> {
        blake3_fed(self.hasher)
    }

    pub closed spec fn wf(&self) -> bool {
        self.bytes_read == self.fed().len()
    }

    pub fn new() -> (r: Self)
        ensures
            r.wf(),
            r.fed() == Seq::<u8>::empty(),
    {
        Blake3Digest { hasher: blake3_hasher(), bytes_read: 0 }
    }

    /// Feeds one chunk. Fails, leaving the digest as it was, where the total
    /// would not fit in a `u64`.
    pub fn update(&mut self, chunk: &[u8]) -> (r: Result<(), ArklibError>)
        requires
            old(self).wf(),
        ensures
            final(self).wf(),
            old(self).fed().len() + chunk@.len() <= u64::MAX ==> r is Ok && final(self).fed()
                == old(self).fed() + chunk@,
            old(self).fed().len() + chunk@.len() > u64::MAX ==> r is Err && final(self).fed()
                == old(self).fed(),
    {
        let n = chunk.len() as u64;
        if n > u64::MAX - self.bytes_read {
            return Err(ArklibError::Other("size overflow".to_string()));
        }
        blake3_update(&mut self.hasher, chunk);
        self.bytes_read = self.bytes_read + n;
        Ok(())
    }

    /// The identifier of the bytes fed, provided exactly `data_size` of them
    /// were fed; otherwise the source changed or was truncated while it was
    /// read.
    pub fn finish(&self, data_size: u64) -> (r: Result<ResourceIdBlake3, ArklibError>)
        requires
            self.wf(),
        ensures
            self.fed().len() == data_size ==> (r matches Ok(id) && id.data_size == data_size
                && id.hash@ == blake3_of(self.fed())),
            self.fed().len() != data_size ==> r is Err,
    {
        if self.bytes_read != data_size {
            return Err(ArklibError::Io("size of the source changed while reading".to_string()));
        }
        Ok(ResourceIdBlake3 { data_size, hash: blake3_finalize(&self.hasher) })
    }
}

/// Splitting `decimal(n) + "-" + rest` at its first `-` gives `decimal(n)`
/// and `rest`.
pub proof fn lemma_split_after_decimal(
    s: Seq<char>,
    n: nat,
    rest: Seq<char>,
    l: Seq<char>,
    t: Seq<char>,
)
    requires
        s == decimal(n) + seq!['-'] + rest,
        exists|i: int|
            0 <= i < s.len() && s[i] == '-' && (forall|j: int| 0 <= j < i ==> s[j] != '-') && l
                == s.subrange(0, i) && t == s.subrange(i + 1, s.len() as int),
    ensures
        l == decimal(n),
        t == rest,
{
    lemma_decimal(n);
    let a = decimal(n);
    let i = choose|i: int|
        0 <= i < s.len() && s[i] == '-' && (forall|j: int| 0 <= j < i ==> s[j] != '-') && l
            == s.subrange(0, i) && t == s.subrange(i + 1, s.len() as int);
    let k = a.len() as int;
    assert(s[k] == '-');
    assert(i == k) by {
        if i < k {
            assert(s[i] == a[i]);
            assert(crate::text::is_digit(a[i]));
        }
        if k < i {
            assert(s[k] != '-');
        }
    }
    assert(l =~= a);
    assert(t =~= rest);
}

} // verus!
