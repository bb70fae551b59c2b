//! Hash of an account owner's public key: the fixed-width identifier used
//! within the network to authorize a transaction author.
//!
//! A `PubKeyHash` is derived as the rescue hash of the public key's byte
//! sequence (an external primitive), carried as `FR_ADDRESS_LEN` raw bytes,
//! and exchanged textually as `"sync:"` followed by its lowercase
//! hexadecimal form.

use vstd::prelude::*;
use vstd::slice::slice_to_vec;
use vstd::string::StringExecFns;
use parity_crypto::Keccak256;
use crate::DecodeError;
use crate::prefixed_hex::BytesToHexSerde;
use crate::prefixed_hex::Prefix;
use crate::prefixed_hex::SyncPrefix;
use crate::prefixed_hex::encode_hex;
use crate::prefixed_hex::hex_of;
use crate::prefixed_hex::spec_decode_prefixed;

verus! {

/// The fixed width in bytes of an account key-hash: the native
/// field-element address length of the protocol.
pub const FR_ADDRESS_LEN: usize = 20;

/// The Keccak-256 digest of a byte sequence, as the external primitive
/// computes it: a function of the input bytes alone.
pub uninterp spec fn keccak_of(b: Seq<u8>) -> Seq<u8>;

/// Relies on `parity_crypto::Keccak256::keccak256`: the Keccak-256 digest
/// of the input bytes, 32 bytes long, a pure function of the input alone.
#[verifier::external_body]
fn keccak256_digest(b: &[u8]) -> (r: Vec<u8>)
    ensures
        r@ == keccak_of(b@),
        r@.len() == 32,
{
    let digest: [u8; 32] = b.keccak256();
    digest.to_vec()
}

/// A 256-bit hash in the network's form, as raw bytes.
#[derive(Clone, Debug)]
pub struct H256 {
    pub bytes: Vec<u8>,
}

impl H256 {
    /// A 256-bit hash holds exactly 32 bytes.
    pub open spec fn wf(&self) -> bool {
        self.bytes@.len() == 32
    }
}

/// The canonical 32-byte big-endian representation of the finite-field
/// element denoted by a key-hash: its raw bytes read as a big-endian
/// numeral. The value always lies within the field, since `FR_ADDRESS_LEN`
/// is smaller than the field modulus's byte width.
#[derive(Clone, Debug)]
pub struct FrRepr {
    pub be_bytes: Vec<u8>,
}

impl FrRepr {
    /// A field-element representation holds exactly 32 big-endian bytes.
    pub open spec fn wf(&self) -> bool {
        self.be_bytes@.len() == 32
    }
}

/// Hash of the account's owner public key: `FR_ADDRESS_LEN` raw bytes.
/// Equality, ordering and hashing are byte-wise over the buffer.
#[derive(Clone, Debug, Eq, Hash, PartialOrd, Ord)]
pub struct PubKeyHash {
    pub data: Vec<u8>,
}

impl Default for PubKeyHash {
    /// The all-zero sentinel, as for a fresh account.
    fn default() -> (r: Self)
        ensures
            r.wf(),
            forall|i: int| 0 <= i < r.data@.len() ==> #[trigger] r.data@[i] == 0,
    {
        Self::zero()
    }
}

impl PartialEq for PubKeyHash {
    fn eq(&self, other: &Self) -> bool {
        if self.data.len() != other.data.len() {
            return false;
        }
        let mut i: usize = 0;
        while i < self.data.len()
            invariant
                self.data@.len() == other.data@.len(),
                i <= self.data@.len(),
                forall|j: int| 0 <= j < i ==> self.data@[j] == other.data@[j],
            decreases self.data@.len() - i,
        {
            if self.data[i] != other.data[i] {
                return false;
            }
            i = i + 1;
        }
        proof {
            assert(self.data@ =~= other.data@);
        }
        true
    }
}

impl vstd::std_specs::cmp::PartialEqSpecImpl for PubKeyHash {
    open spec fn obeys_eq_spec() -> bool {
        true
    }

    open spec fn eq_spec(&self, other: &Self) -> bool {
        self.data@ == other.data@
    }
}

impl PubKeyHash {
    /// A key-hash holds exactly `FR_ADDRESS_LEN` bytes.
    pub open spec fn wf(&self) -> bool {
        self.data@.len() == FR_ADDRESS_LEN
    }

    /// The all-zero key-hash: the sentinel for an account whose key has
    /// not been set yet. Such an account cannot execute transactions.
    pub fn zero() -> (r: Self)
        ensures
            r.wf(),
            forall|i: int| 0 <= i < r.data@.len() ==> #[trigger] r.data@[i] == 0,
    {
        let mut data: Vec<u8> = Vec::new();
        let mut i: usize = 0;
        while i < FR_ADDRESS_LEN
            invariant
                i <= FR_ADDRESS_LEN,
                data@.len() == i,
                forall|j: int| 0 <= j < i ==> #[trigger] data@[j] == 0,
            decreases FR_ADDRESS_LEN - i,
        {
            data.push(0u8);
            i = i + 1;
        }
        PubKeyHash { data }
    }

    /// The hexadecimal form of the key-hash, prepended with the `"sync:"`
    /// prefix. Never fails.
    pub fn to_hex(&self) -> (r: String)
        requires
            self.wf(),
        ensures
            r@ == SyncPrefix::spec_prefix() + hex_of(self.data@),
    {
        let mut out = String::from_str(SyncPrefix::prefix());
        let h = encode_hex(self.data.as_slice());
        out.append(h.as_str());
        out
    }

    /// Decodes a key-hash from a byte sequence, verbatim; fails with
    /// `SizeMismatch` exactly when the buffer is not `FR_ADDRESS_LEN`
    /// bytes long.
    pub fn from_bytes(bytes: &[u8]) -> (r: Result<Self, DecodeError>)
        ensures
            r is Ok <==> bytes@.len() == FR_ADDRESS_LEN,
            r is Ok ==> r->Ok_0.wf() && r->Ok_0.data@ == bytes@,
            r is Err ==> r->Err_0 == DecodeError::SizeMismatch,
    {
        if bytes.len() != FR_ADDRESS_LEN {
            return Err(DecodeError::SizeMismatch);
        }
        Ok(PubKeyHash { data: slice_to_vec(bytes) })
    }

    /// What decoding a key-hash from its hexadecimal form yields: the
    /// bytes after the `"sync:"` prefix, or the prefix/hex error, or
    /// `SizeMismatch` if the bytes are not `FR_ADDRESS_LEN` long.
    pub open spec fn spec_from_hex(s: Seq<char>) -> Result<Seq<u8>, DecodeError> {
        match spec_decode_prefixed(SyncPrefix::spec_prefix(), s) {
            Ok(b) => if b.len() == FR_ADDRESS_LEN {
                Ok(b)
            } else {
                Err(DecodeError::SizeMismatch)
            },
            Err(e) => Err(e),
        }
    }

    /// Decodes a key-hash from its hexadecimal form. The input must carry
    /// the `"sync:"` prefix, a valid hexadecimal body, and exactly
    /// `FR_ADDRESS_LEN` bytes of content; each failure is surfaced
    /// distinguishably.
    pub fn from_hex(s: &str) -> (r: Result<Self, DecodeError>)
        ensures
            r is Ok <==> Self::spec_from_hex(s@) is Ok,
            r is Ok ==> r->Ok_0.wf() && r->Ok_0.data@ == Self::spec_from_hex(s@)->Ok_0,
            r is Err ==> r->Err_0 == Self::spec_from_hex(s@)->Err_0,
    {
        match BytesToHexSerde::<SyncPrefix>::decode(s) {
            Ok(bytes) => Self::from_bytes(bytes.as_slice()),
            Err(e) => Err(e),
        }
    }

    /// Creates a key-hash from the rescue-hash digest of a public key's
    /// canonical byte encoding, as handed back by the external rescue-hash
    /// primitive. The digest's byte order is reversed — a protocol
    /// endianness convention required for downstream field-element
    /// reconstruction. The primitive yields exactly `FR_ADDRESS_LEN`
    /// bytes for a well-formed key; anything else is a fatal fault of the
    /// key object, which callers rule out beforehand.
    pub fn from_pubkey_hash_bytes(pk_hash: &[u8]) -> (r: Self)
        requires
            pk_hash@.len() == FR_ADDRESS_LEN,
        ensures
            r.wf(),
            r.data@ == pk_hash@.reverse(),
    {
        let n = pk_hash.len();
        let mut data: Vec<u8> = Vec::new();
        let mut i: usize = 0;
        while i < n
            invariant
                n == pk_hash@.len(),
                i <= n,
                data@.len() == i,
                forall|j: int| 0 <= j < i ==> #[trigger] data@[j] == pk_hash@[n - 1 - j],
            decreases n - i,
        {
            data.push(pk_hash[n - 1 - i]);
            i = i + 1;
        }
        proof {
            assert(data@ =~= pk_hash@.reverse());
        }
        PubKeyHash { data }
    }

    /// The finite-field element denoted by the key-hash: its raw bytes
    /// read as a big-endian numeral, left-padded with zeros to the field's
    /// 32-byte width.
    pub fn to_fr(&self) -> (r: FrRepr)
        requires
            self.wf(),
        ensures
            r.wf(),
            r.be_bytes@ == Seq::new(12, |i: int| 0u8) + self.data@,
    {
        let mut be_bytes: Vec<u8> = Vec::new();
        let mut i: usize = 0;
        while i < 12
            invariant
                i <= 12,
                be_bytes@.len() == i,
                forall|j: int| 0 <= j < i ==> #[trigger] be_bytes@[j] == 0,
            decreases 12 - i,
        {
            be_bytes.push(0u8);
            i = i + 1;
        }
        let mut k: usize = 0;
        while k < self.data.len()
            invariant
                self.wf(),
                k <= self.data@.len(),
                be_bytes@.len() == 12 + k,
                forall|j: int| 0 <= j < 12 ==> #[trigger] be_bytes@[j] == 0,
                forall|j: int| 0 <= j < k ==> #[trigger] be_bytes@[12 + j] == self.data@[j],
            decreases self.data@.len() - k,
        {
            be_bytes.push(self.data[k]);
            k = k + 1;
        }
        proof {
            let expected = Seq::new(12, |i: int| 0u8) + self.data@;
            assert forall|j: int| 0 <= j < be_bytes@.len() implies be_bytes@[j] == expected[j] by {
                if j >= 12 {
                    assert(be_bytes@[12 + (j - 12)] == self.data@[j - 12]);
                }
            }
            assert(be_bytes@ =~= expected);
        }
        FrRepr { be_bytes }
    }

    /// The Keccak-256 hash of the key-hash's raw bytes, used when a
    /// contract-side verifier checks authorization facts against the
    /// on-chain representation.
    pub fn keccak256(&self) -> (r: H256)
        requires
            self.wf(),
        ensures
            r.wf(),
            r.bytes@ == keccak_of(self.data@),
    {
        H256 { bytes: keccak256_digest(self.data.as_slice()) }
    }
}

} // verus!
