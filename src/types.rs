use std::collections::HashMap;
use vstd::prelude::*;

verus! {

/// An environmental reading, stored verbatim as four signed values.
#[derive(Clone, Copy, PartialEq, Eq, Structural, Debug)]
pub struct WeatherResult {
    pub temperature: i32,
    pub pressure: i32,
    pub humidity: i32,
    pub wind_speed: i32,
}

/// A content hash recorded under a string key.
#[derive(Clone, Debug)]
pub struct Hash {
    pub hash_value: String,
}

/// The identity of a party: the raw bytes of its principal.
/// The identity with no bytes is the null identity.
#[derive(Clone, Debug)]
pub struct Identity {
    pub bytes: Vec<u8>,
}

impl View for Identity {
    type V = Seq<u8>;

    open spec fn view(&self) -> Seq<u8> {
        self.bytes@
    }
}

impl Identity {
    pub open spec fn spec_is_null(&self) -> bool {
        self@.len() == 0
    }

    /// The null identity, which no token may be owned by.
    pub fn null() -> (r: Identity)
        ensures
            r@ == Seq::<u8>::empty(),
    {
        Identity { bytes: Vec::new() }
    }

    /// An identity made of the given principal bytes.
    pub fn from_bytes(bytes: Vec<u8>) -> (r: Identity)
        ensures
            r@ == bytes@,
    {
        Identity { bytes }
    }

    /// Whether this is the null identity.
    pub fn is_null(&self) -> (r: bool)
        ensures
            r == self.spec_is_null(),
    {
        self.bytes.len() == 0
    }

    /// Whether the two identities hold the same bytes.
    pub fn same_as(&self, other: &Identity) -> (r: bool)
        ensures
            r == (self@ == other@),
    {
        let n = self.bytes.len();
        if n != other.bytes.len() {
            return false;
        }
        let mut i: usize = 0;
        while i < n
            invariant
                n == self@.len(),
                n == other@.len(),
                0 <= i <= n,
                forall|j: int| 0 <= j < i ==> self@[j] == other@[j],
            decreases n - i,
        {
            if self.bytes[i] != other.bytes[i] {
                return false;
            }
            i = i + 1;
        }
        proof {
            assert(self@ =~= other@);
        }
        true
    }
}

impl PartialEq for Identity {
    fn eq(&self, other: &Identity) -> (r: bool) {
        self.same_as(other)
    }
}

impl vstd::std_specs::cmp::PartialEqSpecImpl for Identity {
    open spec fn obeys_eq_spec() -> bool {
        true
    }

    open spec fn eq_spec(&self, other: &Identity) -> bool {
        self@ == other@
    }
}

/// Which facet of a token's content a metadata part describes.
#[derive(Clone, Copy, PartialEq, Eq, Structural, Debug)]
pub enum MetadataPurpose {
    Preview,
    Rendered,
}

/// One value of token metadata, in one of a fixed set of encodings.
#[derive(Clone, Debug)]
pub enum MetadataVal {
    TextContent(String),
    BlobContent(Vec<u8>),
    NatContent(u128),
    Nat8Content(u8),
    Nat16Content(u16),
    Nat32Content(u32),
    Nat64Content(u64),
    CustomContent(String),
}

/// One named facet of a token's descriptive content.
#[derive(Clone, Debug)]
pub struct MetadataPart {
    pub purpose: MetadataPurpose,
    pub key_val_data: HashMap<String, MetadataVal>,
    pub data: Vec<u8>,
    pub custom_data: Option<MetadataVal>,
}

/// A token's metadata parts, in order.
pub type MetadataDesc = Vec<MetadataPart>;

/// A token's metadata parts, borrowed.
pub type MetadataDescRef<'a> = &'a [MetadataPart];

/// A token: an owned record with an id, ordered metadata parts and content bytes.
#[derive(Clone, Debug)]
pub struct Nft {
    pub owner: Identity,
    pub id: u64,
    pub metadata: MetadataDesc,
    pub content: Vec<u8>,
}

/// The token interfaces that a registry may advertise.
#[derive(Clone, Copy, PartialEq, Eq, Structural, Debug)]
pub enum InterfaceId {
    Approval,
    TransactionHistory,
    Mint,
    Burn,
    TransferNotification,
}

/// The error of an operation that is restricted to authorized callers.
#[derive(Clone, Copy, PartialEq, Eq, Structural, Debug)]
pub enum ConstrainedError {
    Unauthorized,
}

/// A token's metadata, borrowed, together with the token's id.
#[derive(Debug)]
pub struct ExtendedMetadataResult<'a> {
    pub metadata_desc: MetadataDescRef<'a>,
    pub token_id: u64,
}

/// What a registry is initialized from.
#[derive(Clone, Debug)]
pub struct InitArgs {
    pub logo: WeatherResult,
    pub name: String,
    pub symbol: String,
}

/// The errors that registry operations return.
#[derive(Clone, Copy, PartialEq, Eq, Structural, Debug)]
pub enum Error {
    Unauthorized,
    InvalidTokenId,
    ZeroAddress,
    Other,
    /// The bytes given to restore a state are not a snapshot.
    CorruptSnapshot,
}

impl From<std::num::TryFromIntError> for Error {
    fn from(e: std::num::TryFromIntError) -> (r: Error)
        ensures
            r == Error::InvalidTokenId,
    {
        Error::InvalidTokenId
    }
}

impl vstd::std_specs::convert::FromSpecImpl<std::num::TryFromIntError> for Error {
    open spec fn obeys_from_spec() -> bool {
        true
    }

    open spec fn from_spec(e: std::num::TryFromIntError) -> Error {
        Error::InvalidTokenId
    }
}

} // verus!
