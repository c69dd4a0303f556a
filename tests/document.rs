use did::{DecentralizedIdentifierDocument, PublicKeyItem, PublicKeyItemFormat, PublicKeyItemType};

fn item(format: PublicKeyItemFormat, bytes: Vec<u8>) -> PublicKeyItem {
    PublicKeyItem::new(
        "did:example:123".to_string(),
        "did:example:123#key-1".to_string(),
        PublicKeyItemType::RsaVerificationKey2018,
        bytes,
        format,
    )
}

#[test]
fn document_holds_keys_in_order() {
    let mut doc = DecentralizedIdentifierDocument::new("did:example:123".to_string());
    assert_eq!(doc.context(), "https://www.w3.org/2019/did/v1");
    assert_eq!(doc.id(), "did:example:123");
    assert!(doc.public_key().is_empty());
    doc.add_public_key_item(item(PublicKeyItemFormat::Base58, vec![0, 255, 0]));
    doc.add_public_key_item(item(PublicKeyItemFormat::Hex, vec![1]));
    assert_eq!(doc.public_key().len(), 2);
    assert_eq!(doc.public_key()[0].key_bytes(), &[0, 255, 0]);
    assert_eq!(doc.public_key()[1].key_format(), PublicKeyItemFormat::Hex);
}

#[test]
fn key_text_in_each_format() {
    assert_eq!(item(PublicKeyItemFormat::Hex, vec![0, 255, 10]).encoded_key(), "00ff0a");
    assert_eq!(item(PublicKeyItemFormat::Base58, b"abc".to_vec()).encoded_key(), "ZiCa");
    assert_eq!(item(PublicKeyItemFormat::Base58, vec![0, 97, 98, 99]).encoded_key(), "1ZiCa");
    assert_eq!(item(PublicKeyItemFormat::Pem, vec![1, 2]).encoded_key(), "");
    let k = item(PublicKeyItemFormat::Hex, vec![]);
    assert_eq!(k.encoded_key(), "");
    assert_eq!(k.controller(), "did:example:123");
    assert_eq!(k.id(), "did:example:123#key-1");
    assert_eq!(k.key_type(), PublicKeyItemType::RsaVerificationKey2018);
}
