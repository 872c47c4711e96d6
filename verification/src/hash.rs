//! Object ids and the hash functions that produce them.

use vstd::prelude::*;

verus! {

/// The hash function that object ids were produced with.
#[derive(Clone, Copy, Debug, PartialEq, Eq, Structural)]
pub enum Kind {
    /// The SHA1 hash with 160 bits.
    Sha1,
    /// The SHA256 hash with 256 bits.
    Sha256,
}

/// The digest by which an object is identified.
#[derive(Clone, Copy, Debug, PartialEq, Eq)]
pub enum ObjectId {
    /// A SHA1 digest.
    Sha1([u8; 20]),
    /// A SHA256 digest.
    Sha256([u8; 32]),
}

/// The amount of bytes in a digest of `kind`.
pub open spec fn digest_len(kind: Kind) -> int {
    match kind {
        Kind::Sha1 => 20,
        Kind::Sha256 => 32,
    }
}

/// Whether all `bytes` are zero.
pub open spec fn is_zero(bytes: Seq<u8>) -> bool {
    forall|i: int| 0 <= i < bytes.len() ==> bytes[i] == 0
}

/// The digest of `kind` whose bytes are all zero.
pub open spec fn null_digest(kind: Kind) -> Seq<u8> {
    Seq::new(digest_len(kind) as nat, |i: int| 0u8)
}

impl View for ObjectId {
    type V = Seq<u8>;

    open spec fn view(&self) -> Seq<u8> {
        match self {
            ObjectId::Sha1(digest) => digest@,
            ObjectId::Sha256(digest) => digest@,
        }
    }
}

/// Return the amount of bytes in a digest of `kind`.
///
/// This is `gix_hash::Kind::len_in_bytes()`, which is 20 for SHA1 and 32 for SHA256.
#[verifier::external_body]
pub(crate) fn len_in_bytes(kind: Kind) -> (res: usize)
    ensures
        res == digest_len(kind),
{
    match kind {
        Kind::Sha1 => gix_hash::Kind::Sha1.len_in_bytes(),
        Kind::Sha256 => gix_hash::Kind::Sha256.len_in_bytes(),
    }
}

/// Return the object id with the digest `bytes`.
///
/// This is `gix_hash::ObjectId::from_bytes_or_panic()`, which copies 20 bytes into a SHA1 and 32 bytes into a SHA256
/// digest, and panics on any other amount.
#[verifier::external_body]
fn digest_from_bytes(bytes: &[u8]) -> (res: Option<ObjectId>)
    requires
        bytes@.len() == 20 || bytes@.len() == 32,
    ensures
        res is Some,
        bytes@.len() == 20 ==> res->0 is Sha1,
        bytes@.len() == 32 ==> res->0 is Sha256,
        res->0@ == bytes@,
{
    match gix_hash::ObjectId::from_bytes_or_panic(bytes) {
        gix_hash::ObjectId::Sha1(digest) => Some(ObjectId::Sha1(digest)),
        gix_hash::ObjectId::Sha256(digest) => Some(ObjectId::Sha256(digest)),
        _ => None,
    }
}

/// Return the object id of `kind` whose bytes are all zero.
///
/// This is `gix_hash::ObjectId::null()`.
#[verifier::external_body]
fn null_of_kind(kind: Kind) -> (res: Option<ObjectId>)
    ensures
        res is Some,
        kind is Sha1 ==> res->0 is Sha1,
        kind is Sha256 ==> res->0 is Sha256,
        res->0@ == null_digest(kind),
{
    let kind = match kind {
        Kind::Sha1 => gix_hash::Kind::Sha1,
        Kind::Sha256 => gix_hash::Kind::Sha256,
    };
    match gix_hash::ObjectId::null(kind) {
        gix_hash::ObjectId::Sha1(digest) => Some(ObjectId::Sha1(digest)),
        gix_hash::ObjectId::Sha256(digest) => Some(ObjectId::Sha256(digest)),
        _ => None,
    }
}

/// Return true if all bytes of `id` are zero.
///
/// This is `gix_hash::ObjectId::is_null()`.
#[verifier::external_body]
fn digest_is_null(id: &ObjectId) -> (res: bool)
    ensures
        res == is_zero(id@),
{
    match id {
        ObjectId::Sha1(digest) => gix_hash::ObjectId::Sha1(*digest).is_null(),
        ObjectId::Sha256(digest) => gix_hash::ObjectId::Sha256(*digest).is_null(),
    }
}

impl Kind {
    /// Return the amount of bytes in a digest of this kind.
    pub fn len_in_bytes(&self) -> (res: usize)
        ensures
            res == digest_len(*self),
    {
        len_in_bytes(*self)
    }
}

impl ObjectId {
    /// The hash function that this id was produced with.
    pub open spec fn spec_kind(self) -> Kind {
        match self {
            ObjectId::Sha1(_) => Kind::Sha1,
            ObjectId::Sha256(_) => Kind::Sha256,
        }
    }

    /// Return the object id with the digest `bytes`, whose length tells which kind it is of.
    pub fn from_bytes(bytes: &[u8]) -> (res: ObjectId)
        requires
            bytes@.len() == digest_len(Kind::Sha1) || bytes@.len() == digest_len(Kind::Sha256),
        ensures
            res@ == bytes@,
            digest_len(res.spec_kind()) == bytes@.len(),
    {
        digest_from_bytes(bytes).unwrap()
    }

    /// Return the object id of `kind` whose bytes are all zero.
    pub fn null(kind: Kind) -> (res: ObjectId)
        ensures
            res@ == null_digest(kind),
            res.spec_kind() == kind,
    {
        null_of_kind(kind).unwrap()
    }

    /// Return true if this id consists of zero bytes only.
    pub fn is_null(&self) -> (res: bool)
        ensures
            res == is_zero(self@),
    {
        digest_is_null(self)
    }

    /// Return the bytes of the digest.
    pub fn as_bytes(&self) -> (res: &[u8])
        ensures
            res@ == self@,
    {
        match self {
            ObjectId::Sha1(digest) => digest.as_slice(),
            ObjectId::Sha256(digest) => digest.as_slice(),
        }
    }
}

/// An id is as long as its kind asks for, and it is the null id of its kind exactly if it consists of zero bytes.
pub proof fn law_null_id_is_unique(id: ObjectId)
    ensures
        id@.len() == if id is Sha1 { 20int } else { 32int },
        id@.len() == digest_len(id.spec_kind()),
        is_zero(id@) <==> id@ == null_digest(id.spec_kind()),
        is_zero(id@) <==> !(exists|i: int| 0 <= i < id@.len() && id@[i] != 0),
{
    assert(is_zero(id@) ==> id@ =~= null_digest(id.spec_kind()));
}

} // verus!
