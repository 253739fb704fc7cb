use did_registry::codec::{decode_doc, encode_doc};
use did_registry::document::Status;
use did_registry::registry::{DidError, DID};

#[test]
fn round_trip_after_registration() {
    let mut r = DID::new();
    let id = "bob_near".to_string();
    assert_eq!(r.reg_did_using_account(&id, vec![0, 1, 2], 7), Ok(()));
    let doc = r.get_document(&id).unwrap();
    let bytes = encode_doc(doc);
    let back = decode_doc(&bytes).unwrap();
    assert_eq!(back, *doc);
}

#[test]
fn round_trip_after_add_key() {
    let mut r = DID::new();
    let id = "bob_near".to_string();
    assert_eq!(r.reg_did_using_account(&id, vec![0, 1, 2], 7), Ok(()));
    assert_eq!(r.add_key(&id, vec![9, 9], "carol".to_string(), 8), Ok(()));
    let doc = r.get_document(&id).unwrap();
    let bytes = encode_doc(doc);
    let back = decode_doc(&bytes).unwrap();
    assert_eq!(back, *doc);
}

#[test]
fn round_trip_after_deactivation() {
    let mut r = DID::new();
    let id = "bob_near".to_string();
    assert_eq!(r.reg_did_using_account(&id, vec![0, 1, 2], 7), Ok(()));
    assert_eq!(r.deactive_did(&id), Ok(()));
    let doc = r.get_document(&id).unwrap();
    let bytes = encode_doc(doc);
    let back = decode_doc(&bytes).unwrap();
    assert_eq!(back, *doc);
    assert_eq!(back.status, Status::Deactivated);
}

#[test]
fn round_trip_keeps_non_ascii_identity() {
    let mut r = DID::new();
    let id = "bj\u{00f6}rn_\u{6f22}".to_string();
    assert_eq!(r.reg_did_using_account(&id, vec![255, 0, 128], 42), Ok(()));
    let doc = r.get_document(&id).unwrap();
    let bytes = encode_doc(doc);
    let back = decode_doc(&bytes).unwrap();
    assert_eq!(back, *doc);
    assert_eq!(back.public_keys[0].controller, id);
}

#[test]
fn decode_rejects_malformed_bytes() {
    // Too short for even a status tag.
    assert!(decode_doc(&Vec::new()).is_none());
    // An unknown status tag.
    assert!(decode_doc(&vec![9u8]).is_none());
    // Trailing garbage after a well-formed encoding.
    let mut r = DID::new();
    let id = "bob".to_string();
    assert_eq!(r.reg_did_using_account(&id, vec![1], 1), Ok(()));
    let mut bytes = encode_doc(r.get_document(&id).unwrap());
    bytes.push(0);
    assert!(decode_doc(&bytes).is_none());
    // A truncated encoding.
    let bytes = encode_doc(r.get_document(&id).unwrap());
    let truncated = bytes[..bytes.len() - 1].to_vec();
    assert!(decode_doc(&truncated).is_none());
}

#[test]
fn error_values_are_distinct() {
    assert_ne!(DidError::AlreadyRegistered, DidError::NotRegistered);
    assert_ne!(DidError::NotValid, DidError::KeyNotFound);
}
