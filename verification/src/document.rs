//! The DID document data model: status lifecycle, public keys, services,
//! and the well-formedness conditions that tie them together.
use vstd::prelude::*;

verus! {

/// Lifecycle status of a DID document. An absent entry in the registry means
/// "never registered"; a `Deactivated` entry is a permanent tombstone.
#[derive(Clone, Copy, PartialEq, Eq, Structural, Debug)]
pub enum Status {
    Valid,
    Deactivated,
}

/// One public key held by a DID document: the identity key it belongs to,
/// the raw key bytes, and whether it is authentication-capable.
#[derive(Clone, PartialEq, Eq, Debug)]
pub struct PublicKey {
    pub controller: String,
    pub pk: Vec<u8>,
    pub is_authentication: bool,
}

/// Mathematical model of a `PublicKey`.
#[verifier::ext_equal]
pub struct PublicKeyView {
    pub controller: Seq<char>,
    pub pk: Seq<u8>,
    pub is_authentication: bool,
}

impl View for PublicKey {
    type V = PublicKeyView;

    open spec fn view(&self) -> PublicKeyView {
        PublicKeyView {
            controller: self.controller@,
            pk: self.pk@,
            is_authentication: self.is_authentication,
        }
    }
}

impl PublicKey {
    /// A key that also authenticates the identity (used at registration).
    pub fn new_pk_and_auth(controller: &String, pk: Vec<u8>) -> (r: PublicKey)
        ensures
            r@ == (PublicKeyView { controller: controller@, pk: pk@, is_authentication: true }),
    {
        PublicKey { controller: controller.clone(), pk, is_authentication: true }
    }

    /// A key present in the document but not authentication-capable.
    pub fn new_pk(controller: &String, pk: Vec<u8>) -> (r: PublicKey)
        ensures
            r@ == (PublicKeyView { controller: controller@, pk: pk@, is_authentication: false }),
    {
        PublicKey { controller: controller.clone(), pk, is_authentication: false }
    }
}

/// A service endpoint record associated with one derived DID.
#[derive(Clone, PartialEq, Eq, Debug)]
pub struct Service {
    pub service_type: String,
    pub endpoint: String,
}

/// Mathematical model of a `Service`.
#[verifier::ext_equal]
pub struct ServiceView {
    pub service_type: Seq<char>,
    pub endpoint: Seq<char>,
}

impl View for Service {
    type V = ServiceView;

    open spec fn view(&self) -> ServiceView {
        ServiceView { service_type: self.service_type@, endpoint: self.endpoint@ }
    }
}

impl Service {
    pub fn new(service_type: String, endpoint: String) -> (r: Service)
        ensures
            r@ == (ServiceView { service_type: service_type@, endpoint: endpoint@ }),
    {
        Service { service_type, endpoint }
    }
}

/// One DID document: all attribute families for a single identity key.
#[derive(Clone, PartialEq, Eq, Debug)]
pub struct DidDocument {
    pub status: Status,
    pub contexts: Vec<String>,
    pub public_keys: Vec<PublicKey>,
    pub authentication: Vec<u32>,
    pub controllers: Vec<String>,
    pub created: Option<u64>,
    pub updated: Option<u64>,
}

/// Mathematical model of a `DidDocument`.
#[verifier::ext_equal]
pub struct DidDocumentView {
    pub status: Status,
    pub contexts: Seq<Seq<char>>,
    pub public_keys: Seq<PublicKeyView>,
    pub authentication: Seq<u32>,
    pub controllers: Seq<Seq<char>>,
    pub created: Option<u64>,
    pub updated: Option<u64>,
}

impl View for DidDocument {
    type V = DidDocumentView;

    open spec fn view(&self) -> DidDocumentView {
        DidDocumentView {
            status: self.status,
            contexts: self.contexts@.map_values(|s: String| s@),
            public_keys: self.public_keys@.map_values(|k: PublicKey| k@),
            authentication: self.authentication@,
            controllers: self.controllers@.map_values(|s: String| s@),
            created: self.created,
            updated: self.updated,
        }
    }
}

/// All attribute families are empty and both timestamps are unset.
pub open spec fn doc_cleared(d: DidDocumentView) -> bool {
    &&& d.contexts.len() == 0
    &&& d.public_keys.len() == 0
    &&& d.authentication.len() == 0
    &&& d.controllers.len() == 0
    &&& d.created is None
    &&& d.updated is None
}

/// Well-formedness of one document stored under identity key `key`:
/// every authentication reference is a valid index into `public_keys`,
/// every key is owned by this identity, and a deactivated document keeps
/// nothing but its tombstone status.
pub open spec fn doc_wf(d: DidDocumentView, key: Seq<char>) -> bool {
    &&& forall|i: int|
        0 <= i < d.authentication.len() ==> (#[trigger] d.authentication[i]) < d.public_keys.len()
    &&& forall|i: int|
        0 <= i < d.public_keys.len() ==> (#[trigger] d.public_keys[i]).controller == key
    &&& d.status is Deactivated ==> doc_cleared(d)
}

/// The document created by a successful registration: status `Valid`, the
/// presented key as the single (authentication-capable) public key,
/// authentication reference `0`, and `created` set to the call's timestamp.
pub open spec fn fresh_doc(key: Seq<char>, pk: Seq<u8>, now: u64) -> DidDocumentView {
    DidDocumentView {
        status: Status::Valid,
        contexts: Seq::empty(),
        public_keys: seq![
            PublicKeyView { controller: key, pk: pk, is_authentication: true },
        ],
        authentication: seq![0u32],
        controllers: Seq::empty(),
        created: Some(now),
        updated: None,
    }
}

/// The tombstone left by deactivation: status `Deactivated`, everything else
/// cleared.
pub open spec fn tombstone_doc() -> DidDocumentView {
    DidDocumentView {
        status: Status::Deactivated,
        contexts: Seq::empty(),
        public_keys: Seq::empty(),
        authentication: Seq::empty(),
        controllers: Seq::empty(),
        created: None,
        updated: None,
    }
}

} // verus!
