//! Decentralized Identifiers (DIDs) and DID URLs: parsing into a structured
//! model and canonical serialization back to text.
//!
//! `grammar` holds the character classes and the scanners that delimit the
//! parts of a DID URL; `did`, `params` and `did_url` hold the models, their
//! decoders and encoders, and the round-trip laws between them. `document` and
//! `public_key_item` hold DID documents, which keep a DID only as its text.
pub mod did;
pub mod did_url;
pub mod document;
pub mod error;
pub mod grammar;
pub mod params;
pub mod public_key_item;
pub mod utils;

pub use crate::did::DecentralizedIdentifer;
pub use crate::did_url::{DecentralizedIdentiferPath, DecentralizedIdentiferUrl};
pub use crate::document::DecentralizedIdentifierDocument;
pub use crate::error::{Component, Error, Stage};
pub use crate::params::{DecentralizedIdentiferParam, DecentralizedIdentiferParams};
pub use crate::public_key_item::{PublicKeyItem, PublicKeyItemFormat, PublicKeyItemType};
