use did_registry::document::{Service, Status};
use did_registry::registry::{gen_did, DidError, DID};

fn pk_bytes(v: &[u8]) -> Vec<u8> {
    v.to_vec()
}

#[test]
fn set_get_message() {
    let mut contract = DID::default();
    let _ = &mut contract;
}

#[test]
fn gen_did_prefixes_identity_key() {
    assert_eq!(gen_did("bob"), "did:near:bob".to_string());
    assert_eq!(gen_did(""), "did:near:".to_string());
}

#[test]
fn register_creates_valid_document() {
    let mut r = DID::new();
    let id = "bob_near".to_string();
    assert_eq!(r.reg_did_using_account(&id, pk_bytes(&[0, 1, 2]), 7), Ok(()));
    assert_eq!(r.get_status(&id), Some(Status::Valid));
    let doc = r.get_document(&id).unwrap();
    assert_eq!(doc.status, Status::Valid);
    assert_eq!(doc.public_keys.len(), 1);
    assert_eq!(doc.public_keys[0].controller, id);
    assert_eq!(doc.public_keys[0].pk, vec![0u8, 1, 2]);
    assert!(doc.public_keys[0].is_authentication);
    assert_eq!(doc.authentication, vec![0u32]);
    assert_eq!(doc.created, Some(7));
    assert_eq!(doc.updated, None);
    assert!(doc.contexts.is_empty());
    assert!(doc.controllers.is_empty());
}

#[test]
fn register_twice_fails_and_keeps_document() {
    let mut r = DID::new();
    let id = "bob_near".to_string();
    assert_eq!(r.reg_did_using_account(&id, pk_bytes(&[0, 1, 2]), 7), Ok(()));
    let before = r.get_document(&id).unwrap().clone();
    assert_eq!(
        r.reg_did_using_account(&id, pk_bytes(&[9, 9]), 8),
        Err(DidError::AlreadyRegistered)
    );
    let after = r.get_document(&id).unwrap();
    assert_eq!(*after, before);
}

#[test]
fn register_after_deactivation_fails() {
    let mut r = DID::new();
    let id = "bob_near".to_string();
    assert_eq!(r.reg_did_using_account(&id, pk_bytes(&[1]), 1), Ok(()));
    assert_eq!(r.deactive_did(&id), Ok(()));
    assert_eq!(
        r.reg_did_using_account(&id, pk_bytes(&[1]), 2),
        Err(DidError::AlreadyRegistered)
    );
    assert_eq!(r.get_status(&id), Some(Status::Deactivated));
}

#[test]
fn deactivate_unregistered_fails_and_changes_nothing() {
    let mut r = DID::new();
    let id = "nobody".to_string();
    assert_eq!(r.deactive_did(&id), Err(DidError::NotRegistered));
    assert_eq!(r.get_status(&id), None);
    assert!(r.get_document(&id).is_none());
}

#[test]
fn deactivate_clears_document_and_keeps_tombstone() {
    let mut r = DID::new();
    let id = "bob_near".to_string();
    assert_eq!(r.reg_did_using_account(&id, pk_bytes(&[0, 1, 2]), 7), Ok(()));
    assert_eq!(
        r.add_key(&id, pk_bytes(&[9, 9]), "carol".to_string(), 8),
        Ok(())
    );
    r.add_service(&id, Service::new("msg".to_string(), "https://example.org".to_string()));
    assert_eq!(r.deactive_did(&id), Ok(()));
    assert_eq!(r.get_status(&id), Some(Status::Deactivated));
    let doc = r.get_document(&id).unwrap();
    assert!(doc.contexts.is_empty());
    assert!(doc.public_keys.is_empty());
    assert!(doc.authentication.is_empty());
    assert!(doc.controllers.is_empty());
    assert_eq!(doc.created, None);
    assert_eq!(doc.updated, None);
    assert!(r.get_service(&gen_did("bob_near")).is_none());
}

#[test]
fn add_key_appends_without_touching_authentication() {
    let mut r = DID::new();
    let id = "bob_near".to_string();
    assert_eq!(r.reg_did_using_account(&id, pk_bytes(&[0, 1, 2]), 7), Ok(()));
    assert_eq!(
        r.add_key(&id, pk_bytes(&[9, 9]), "carol".to_string(), 11),
        Ok(())
    );
    let doc = r.get_document(&id).unwrap();
    assert_eq!(doc.public_keys.len(), 2);
    assert_eq!(doc.public_keys[1].pk, vec![9u8, 9]);
    assert_eq!(doc.public_keys[1].controller, id);
    assert!(!doc.public_keys[1].is_authentication);
    assert_eq!(doc.authentication, vec![0u32]);
    assert_eq!(doc.updated, Some(11));
    assert_eq!(doc.created, Some(7));
}

#[test]
fn add_key_n_times_grows_key_list_by_n() {
    let mut r = DID::new();
    let id = "bob_near".to_string();
    assert_eq!(r.reg_did_using_account(&id, pk_bytes(&[0]), 1), Ok(()));
    for i in 0..5u8 {
        assert_eq!(
            r.add_key(&id, pk_bytes(&[i, i]), "c".to_string(), 2 + i as u64),
            Ok(())
        );
    }
    let doc = r.get_document(&id).unwrap();
    assert_eq!(doc.public_keys.len(), 1 + 5);
    assert_eq!(doc.authentication, vec![0u32]);
}

#[test]
fn add_key_fails_when_not_valid() {
    let mut r = DID::new();
    let id = "bob_near".to_string();
    // Absent document: treated as not valid.
    assert_eq!(
        r.add_key(&id, pk_bytes(&[1]), "c".to_string(), 1),
        Err(DidError::NotValid)
    );
    assert!(r.get_document(&id).is_none());
    // Deactivated document: not valid either, keys stay cleared.
    assert_eq!(r.reg_did_using_account(&id, pk_bytes(&[1]), 1), Ok(()));
    assert_eq!(r.deactive_did(&id), Ok(()));
    assert_eq!(
        r.add_key(&id, pk_bytes(&[2]), "c".to_string(), 3),
        Err(DidError::NotValid)
    );
    let doc = r.get_document(&id).unwrap();
    assert!(doc.public_keys.is_empty());
}

#[test]
fn remove_key_renumbers_authentication_references() {
    let mut r = DID::new();
    let id = "bob_near".to_string();
    assert_eq!(r.reg_did_using_account(&id, pk_bytes(&[0, 0]), 1), Ok(()));
    assert_eq!(r.add_key(&id, pk_bytes(&[1, 1]), "c".to_string(), 2), Ok(()));
    assert_eq!(r.add_key(&id, pk_bytes(&[2, 2]), "c".to_string(), 3), Ok(()));
    // Removing a key past the authentication reference keeps it as is.
    assert_eq!(r.remove_key(&id, &pk_bytes(&[1, 1]), 4), Ok(()));
    let doc = r.get_document(&id).unwrap();
    assert_eq!(doc.public_keys.len(), 2);
    assert_eq!(doc.public_keys[0].pk, vec![0u8, 0]);
    assert_eq!(doc.public_keys[1].pk, vec![2u8, 2]);
    assert_eq!(doc.authentication, vec![0u32]);
    assert_eq!(doc.updated, Some(4));
    // Removing the referenced key drops its reference and shifts the rest.
    assert_eq!(r.remove_key(&id, &pk_bytes(&[0, 0]), 5), Ok(()));
    let doc = r.get_document(&id).unwrap();
    assert_eq!(doc.public_keys.len(), 1);
    assert_eq!(doc.public_keys[0].pk, vec![2u8, 2]);
    assert_eq!(doc.authentication, Vec::<u32>::new());
    assert_eq!(doc.updated, Some(5));
}

#[test]
fn remove_key_reports_missing_key_and_invalid_status() {
    let mut r = DID::new();
    let id = "bob_near".to_string();
    assert_eq!(
        r.remove_key(&id, &pk_bytes(&[1]), 1),
        Err(DidError::NotValid)
    );
    assert_eq!(r.reg_did_using_account(&id, pk_bytes(&[1]), 1), Ok(()));
    assert_eq!(
        r.remove_key(&id, &pk_bytes(&[7]), 2),
        Err(DidError::KeyNotFound)
    );
    let doc = r.get_document(&id).unwrap();
    assert_eq!(doc.public_keys.len(), 1);
    assert_eq!(doc.updated, None);
    assert_eq!(r.deactive_did(&id), Ok(()));
    assert_eq!(
        r.remove_key(&id, &pk_bytes(&[1]), 3),
        Err(DidError::NotValid)
    );
}

#[test]
fn add_service_stores_under_derived_did_and_overwrites() {
    let mut r = DID::new();
    let id = "bob_near".to_string();
    let s1 = Service::new("messaging".to_string(), "https://one.example".to_string());
    let s2 = Service::new("messaging".to_string(), "https://two.example".to_string());
    r.add_service(&id, s1);
    let did = gen_did("bob_near");
    assert_eq!(did, "did:near:bob_near".to_string());
    let got = r.get_service(&did).unwrap();
    assert_eq!(got.endpoint, "https://one.example".to_string());
    r.add_service(&id, s2);
    let got = r.get_service(&did).unwrap();
    assert_eq!(got.endpoint, "https://two.example".to_string());
    assert_eq!(got.service_type, "messaging".to_string());
}

#[test]
fn scenario_register_add_key_deactivate() {
    let mut r = DID::new();
    let bob = "bob".to_string();
    assert_eq!(r.reg_did_using_account(&bob, pk_bytes(&[0, 1, 2]), 1), Ok(()));
    assert_eq!(r.get_status(&bob), Some(Status::Valid));
    assert_eq!(
        r.add_key(&bob, pk_bytes(&[9, 9]), "carol".to_string(), 2),
        Ok(())
    );
    {
        let doc = r.get_document(&bob).unwrap();
        assert_eq!(doc.public_keys.len(), 2);
        assert_eq!(doc.authentication, vec![0u32]);
    }
    assert_eq!(r.deactive_did(&bob), Ok(()));
    assert_eq!(r.get_status(&bob), Some(Status::Deactivated));
    assert_eq!(r.get_document(&bob).unwrap().public_keys.len(), 0);
}
