//! Identifiers: 32-byte content hashes.

use crate::hexcode::{decode, encode, hex_of, lemma_hex_round_trip, parse_hex};
use sha2::{Digest, Sha256};
use vstd::prelude::*;
use vstd::std_specs::cmp::PartialEqSpecImpl;
use vstd::std_specs::convert::TryFromSpecImpl;
use vstd::utf8::encode_utf8;

verus! {

/// Why a value could not be read as an identifier.
#[derive(Clone, Copy, Debug, PartialEq, Eq, Structural)]
pub enum HashError {
    /// The value does not hold exactly 32 bytes.
    InvalidSize,
    /// The text is not hexadecimal.
    InvalidHex,
}

/// A 32-byte identifier. Its view is the sequence of its bytes.
#[derive(Clone, Copy, Debug, Eq, Hash)]
pub struct ByteHash {
    data: [u8; 32],
}

/// The digest of a block, read as proof of work: what counts is how many of
/// its leading bytes are zero. Its view is the sequence of its bytes.
#[derive(Clone, Copy, Debug, PartialEq, Eq)]
pub struct Hash {
    data: [u8; 32],
}

impl View for ByteHash {
    type V = Seq<u8>;

    closed spec fn view(&self) -> Seq<u8> {
        self.data@
    }
}

impl View for Hash {
    type V = Seq<u8>;

    closed spec fn view(&self) -> Seq<u8> {
        self.data@
    }
}

/// The identifier made of zero bytes only.
pub open spec fn zero_id() -> Seq<u8> {
    Seq::new(32, |i: int| 0u8)
}

/// An identifier meets a difficulty when that many of its leading bytes are
/// zero. No identifier meets a difficulty above its own length.
pub open spec fn meets_difficulty(id: Seq<u8>, difficulty: nat) -> bool {
    &&& difficulty <= id.len()
    &&& forall|i: int| 0 <= i < difficulty ==> id[i] == 0
}

/// The SHA-256 digest of a byte string.
pub uninterp spec fn sha256_of(data: Seq<u8>) -> Seq<u8>;

/// Calls `Sha256::digest` of the crate `sha2`, which hashes the whole input in
/// one go, and stores the 32 bytes it returns.
#[verifier::external_body]
pub(crate) fn sha256(data: &[u8]) -> (h: ByteHash)
    ensures
        h@ == sha256_of(data@),
{
    ByteHash { data: Sha256::digest(data).into() }
}

impl PartialEq for ByteHash {
    /// Identifiers are equal when their bytes are.
    fn eq(&self, other: &ByteHash) -> (r: bool) {
        let mut i: usize = 0;
        while i < 32
            invariant
                i <= 32,
                forall|j: int| 0 <= j < i ==> self.data[j] == other.data[j],
            decreases 32 - i,
        {
            if self.data[i] != other.data[i] {
                return false;
            }
            i += 1;
        }
        proof {
            assert(self.data =~= other.data);
        }
        true
    }
}

impl PartialEqSpecImpl for ByteHash {
    open spec fn obeys_eq_spec() -> bool {
        true
    }

    open spec fn eq_spec(&self, other: &ByteHash) -> bool {
        *self == *other
    }
}

impl ByteHash {
    /// The identifier with the given bytes; meaningful for 32 bytes.
    pub closed spec fn of(bytes: Seq<u8>) -> ByteHash {
        choose|h: ByteHash| h@ == bytes
    }

    /// The zero identifier.
    pub fn new() -> (h: ByteHash)
        ensures
            h@ == zero_id(),
    {
        let h = ByteHash { data: [0u8; 32] };
        assert(h@ =~= zero_id());
        h
    }

    /// The identifier holding exactly these bytes.
    pub fn from_bytes(data: [u8; 32]) -> (h: ByteHash)
        ensures
            h@ == data@,
    {
        ByteHash { data }
    }

    /// The bytes of the identifier.
    pub fn to_ne_bytes(&self) -> (b: [u8; 32])
        ensures
            b@ == self@,
    {
        self.data
    }

    /// The byte at a position.
    pub fn index(&self, index: usize) -> (b: u8)
        requires
            index < 32,
        ensures
            b == self@[index as int],
    {
        self.data[index]
    }

    /// The identifier in lower-case hexadecimal, 64 digits.
    pub fn to_hex(&self) -> (s: String)
        ensures
            s@ == hex_of(self@),
    {
        encode(self.data.as_slice())
    }

    /// An identifier has 32 bytes, and its bytes say which identifier it is.
    pub proof fn lemma_view(self, other: ByteHash)
        ensures
            self@.len() == 32,
            self@ == other@ <==> self == other,
    {
        if self@ == other@ {
            assert(self.data =~= other.data);
        }
    }

    /// Every string of 32 bytes is the view of exactly one identifier.
    pub proof fn lemma_of(bytes: Seq<u8>)
        requires
            bytes.len() == 32,
        ensures
            ByteHash::of(bytes)@ == bytes,
    {
        let data = Self::array_of(bytes, 32);
        let h = ByteHash { data };
        assert(h@ =~= bytes);
    }

    /// An array whose first `n` bytes are those of `bytes`.
    proof fn array_of(bytes: Seq<u8>, n: nat) -> (a: [u8; 32])
        requires
            bytes.len() == 32,
            n <= 32,
        ensures
            forall|i: int| 0 <= i < n ==> a@[i] == bytes[i],
        decreases n,
    {
        if n == 0 {
            vstd::array::spec_array_fill_for_copy_type(0u8)
        } else {
            let prev = Self::array_of(bytes, (n - 1) as nat);
            let a = vstd::array::spec_array_update(prev, n - 1, bytes[n - 1]);
            vstd::array::axiom_spec_array_update(prev, n - 1, bytes[n - 1]);
            a
        }
    }
}

impl Hash {
    /// The digest made of zero bytes only.
    pub fn empty() -> (h: Hash)
        ensures
            h@ == zero_id(),
    {
        let h = Hash { data: [0u8; 32] };
        assert(h@ =~= zero_id());
        h
    }

    /// The digest that an identifier holds.
    pub fn from_id(id: ByteHash) -> (h: Hash)
        ensures
            h@ == id@,
    {
        Hash { data: id.to_ne_bytes() }
    }

    /// The bytes of the digest.
    pub fn to_ne_bytes(&self) -> (b: [u8; 32])
        ensures
            b@ == self@,
    {
        self.data
    }

    /// Whether the digest meets a difficulty.
    pub fn check_difficulty(&self, difficulty: usize) -> (ok: bool)
        ensures
            ok == meets_difficulty(self@, difficulty as nat),
    {
        if difficulty > 32 {
            return false;
        }
        let mut i: usize = 0;
        while i < difficulty
            invariant
                i <= difficulty <= 32,
                forall|j: int| 0 <= j < i ==> self@[j] == 0,
            decreases difficulty - i,
        {
            if self.data[i] != 0 {
                return false;
            }
            i += 1;
        }
        true
    }
}

impl TryFrom<Vec<u8>> for ByteHash {
    type Error = HashError;

    /// Reads 32 bytes as an identifier; any other length is `InvalidSize`.
    fn try_from(value: Vec<u8>) -> (r: Result<ByteHash, HashError>)
        ensures
            r matches Ok(h) ==> h@ == value@,
    {
        if value.len() != 32 {
            return Err(HashError::InvalidSize);
        }
        let mut data = [0u8; 32];
        let mut i: usize = 0;
        while i < 32
            invariant
                i <= 32,
                value@.len() == 32,
                forall|j: int| 0 <= j < i ==> data@[j] == value@[j],
            decreases 32 - i,
        {
            data[i] = value[i];
            i += 1;
        }
        let h = ByteHash { data };
        proof {
            assert(h@ =~= value@);
            ByteHash::lemma_of(value@);
            h.lemma_view(ByteHash::of(value@));
        }
        Ok(h)
    }
}

impl TryFromSpecImpl<Vec<u8>> for ByteHash {
    open spec fn obeys_try_from_spec() -> bool {
        true
    }

    open spec fn try_from_spec(value: Vec<u8>) -> Result<ByteHash, HashError> {
        if value@.len() == 32 {
            Ok(ByteHash::of(value@))
        } else {
            Err(HashError::InvalidSize)
        }
    }
}

/// The identifier that hexadecimal text spells, or why it spells none.
pub open spec fn id_of_hex(text: Seq<u8>) -> Result<ByteHash, HashError> {
    match parse_hex(text) {
        None => Err(HashError::InvalidHex),
        Some(bytes) => if bytes.len() == 32 {
            Ok(ByteHash::of(bytes))
        } else {
            Err(HashError::InvalidSize)
        },
    }
}

impl<'a> TryFrom<&'a String> for ByteHash {
    type Error = HashError;

    /// Reads 64 hexadecimal digits as an identifier. Text that is not
    /// hexadecimal is `InvalidHex`; hexadecimal text of another length is
    /// `InvalidSize`.
    fn try_from(value: &'a String) -> (r: Result<ByteHash, HashError>)
        ensures
            r matches Ok(h) ==> parse_hex(encode_utf8(value@)) == Some(h@),
    {
        match decode(value.as_str().as_bytes()) {
            None => Err(HashError::InvalidHex),
            Some(bytes) => {
                proof {
                    if bytes@.len() == 32 {
                        ByteHash::lemma_of(bytes@);
                    }
                }
                ByteHash::try_from(bytes)
            },
        }
    }
}

impl<'a> TryFromSpecImpl<&'a String> for ByteHash {
    open spec fn obeys_try_from_spec() -> bool {
        true
    }

    open spec fn try_from_spec(value: &'a String) -> Result<ByteHash, HashError> {
        id_of_hex(encode_utf8(value@))
    }
}

/// The hexadecimal form of an identifier names that identifier and no other.
pub proof fn lemma_hex_names_the_id(h: ByteHash)
    ensures
        id_of_hex(encode_utf8(hex_of(h@))) == Ok::<ByteHash, HashError>(h),
{
    lemma_hex_round_trip(h@);
    h.lemma_view(h);
    ByteHash::lemma_of(h@);
    h.lemma_view(ByteHash::of(h@));
}

/// Values that have a content hash.
pub trait Hashable {
    /// The bytes of the content hash.
    spec fn digest(&self) -> Seq<u8>;

    /// Computes the content hash.
    fn hash(&self) -> (h: ByteHash)
        ensures
            h@ == self.digest(),
    ;
}

} // verus!
