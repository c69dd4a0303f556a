//! Public-key records of a DID document: who controls the key, its id, its
//! bytes, and the text form in which the bytes are published.
use vstd::prelude::*;
use base58::ToBase58;

verus! {

/// The text form of the key bytes.
#[derive(Clone, Copy, Debug, PartialEq, Eq)]
pub enum PublicKeyItemFormat {
    Pem,
    Base58,
    Hex,
}

#[derive(Clone, Copy, Debug, PartialEq, Eq)]
pub enum PublicKeyItemType {
    Ed25519VerificationKey2018,
    RsaVerificationKey2018,
    EcdsaSecp256k1VerificationKey2019,
}

/// A public-key record as a mathematical value.
pub struct PublicKeyView {
    pub controller: Seq<char>,
    pub id: Seq<char>,
    pub key_bytes: Seq<u8>,
    pub key_format: PublicKeyItemFormat,
    pub key_type: PublicKeyItemType,
}

#[derive(Clone, Debug)]
pub struct PublicKeyItem {
    controller: String,
    id: String,
    key_bytes: Vec<u8>,
    key_format: PublicKeyItemFormat,
    key_type: PublicKeyItemType,
}

impl View for PublicKeyItem {
    type V = PublicKeyView;

    closed spec fn view(&self) -> PublicKeyView {
        PublicKeyView {
            controller: self.controller@,
            id: self.id@,
            key_bytes: self.key_bytes@,
            key_format: self.key_format,
            key_type: self.key_type,
        }
    }
}

/// What base58 makes of the bytes.
pub uninterp spec fn base58_of(b: Seq<u8>) -> Seq<char>;

pub open spec fn hex_table() -> Seq<char> {
    seq!['0', '1', '2', '3', '4', '5', '6', '7', '8', '9', 'a', 'b', 'c', 'd', 'e', 'f']
}

/// Each byte as two lowercase hexadecimal digits, the high one first.
pub open spec fn hex_of(b: Seq<u8>) -> Seq<char>
    decreases b.len(),
{
    if b.len() == 0 {
        Seq::empty()
    } else {
        hex_of(b.drop_last()) + seq![
            hex_table()[(b.last() / 16) as int],
            hex_table()[(b.last() % 16) as int],
        ]
    }
}

/// The published text of the key bytes in the record's format; PEM is
/// published as an empty text.
pub open spec fn key_text(k: PublicKeyView) -> Seq<char> {
    match k.key_format {
        PublicKeyItemFormat::Pem => Seq::empty(),
        PublicKeyItemFormat::Base58 => base58_of(k.key_bytes),
        PublicKeyItemFormat::Hex => hex_of(k.key_bytes),
    }
}

/// Relies on base58's `ToBase58::to_base58` on `[u8]`: the text depends on the
/// bytes alone.
#[verifier::external_body]
fn base58_encode(b: &[u8]) -> (r: String)
    ensures
        r@ == base58_of(b@),
{
    b.to_base58()
}

/// Relies on `hex::encode`: two lowercase digits for each byte, in order.
#[verifier::external_body]
fn hex_encode(b: &[u8]) -> (r: String)
    ensures
        r@ == hex_of(b@),
{
    hex::encode(b)
}

impl PublicKeyItem {
    pub fn new(
        controller: String,
        id: String,
        key_type: PublicKeyItemType,
        key_bytes: Vec<u8>,
        key_format: PublicKeyItemFormat,
    ) -> (r: Self)
        ensures
            r@ == (PublicKeyView {
                controller: controller@,
                id: id@,
                key_bytes: key_bytes@,
                key_format,
                key_type,
            }),
    {
        PublicKeyItem { controller, id, key_bytes, key_format, key_type }
    }

    pub fn controller(&self) -> (r: &str)
        ensures
            r@ == self@.controller,
    {
        self.controller.as_str()
    }

    pub fn id(&self) -> (r: &str)
        ensures
            r@ == self@.id,
    {
        self.id.as_str()
    }

    pub fn key_bytes(&self) -> (r: &[u8])
        ensures
            r@ == self@.key_bytes,
    {
        self.key_bytes.as_slice()
    }

    pub fn key_format(&self) -> (r: PublicKeyItemFormat)
        ensures
            r == self@.key_format,
    {
        self.key_format
    }

    pub fn key_type(&self) -> (r: PublicKeyItemType)
        ensures
            r == self@.key_type,
    {
        self.key_type
    }

    /// The key bytes as published: base58 or lowercase hexadecimal text, or an
    /// empty text for PEM.
    pub fn encoded_key(&self) -> (r: String)
        ensures
            r@ == key_text(self@),
    {
        match self.key_format {
            PublicKeyItemFormat::Pem => String::new(),
            PublicKeyItemFormat::Base58 => base58_encode(self.key_bytes.as_slice()),
            PublicKeyItemFormat::Hex => hex_encode(self.key_bytes.as_slice()),
        }
    }
}

} // verus!
