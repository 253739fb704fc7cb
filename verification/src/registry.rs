//! The registry state machine: one DID document per identity key, with the
//! lifecycle, key-management, and service-endpoint rules enforced before any
//! mutation. Every operation receives an already-authenticated caller
//! identity (and, where relevant, the public key the caller signed with and
//! a monotonic timestamp) from the execution environment.
use vstd::prelude::*;
use vstd::string::StringExecFns;
use crate::document::{
    doc_wf, fresh_doc, tombstone_doc, DidDocument, DidDocumentView, PublicKey, PublicKeyView,
    Service, ServiceView, Status,
};
use crate::store::StrMap;

verus! {

/// Why an operation was rejected. A rejected precondition aborts the call
/// with no partial state change.
#[derive(Clone, Copy, PartialEq, Eq, Structural, Debug)]
pub enum DidError {
    /// Registration attempted for an identity key that already has a status
    /// entry (valid or tombstoned).
    AlreadyRegistered,
    /// The operation requires an existing document and found none.
    NotRegistered,
    /// The operation requires `Status::Valid` and found a different or
    /// absent status.
    NotValid,
    /// The key to remove does not occur in the document.
    KeyNotFound,
}

/// The DID derived from an identity key: a fixed method prefix followed by
/// the key. It is always derivable and never independently mutable.
pub open spec fn spec_gen_did(account_id: Seq<char>) -> Seq<char> {
    "did:near:"@ + account_id
}

/// Derive the DID string for an identity key.
pub fn gen_did(account_id: &str) -> (r: String)
    ensures
        r@ == spec_gen_did(account_id@),
{
    "did:near:".to_owned().concat(account_id)
}

/// The registry: the sole owner of all DID document state. Documents are
/// keyed by identity key; service records are keyed by derived DID.
pub struct DID {
    documents: StrMap<DidDocument>,
    services: StrMap<Service>,
}

/// The new document produced by a successful `add_key`: the presented bytes
/// are appended as a non-authentication key, `updated` is set to the call's
/// timestamp, and every other family is untouched.
pub open spec fn add_key_doc(
    d: DidDocumentView,
    key: Seq<char>,
    pk: Seq<u8>,
    now: u64,
) -> DidDocumentView {
    DidDocumentView {
        public_keys: d.public_keys.push(
            PublicKeyView { controller: key, pk: pk, is_authentication: false },
        ),
        updated: Some(now),
        ..d
    }
}

/// Index of the first public-key entry holding exactly the bytes `pk`.
pub open spec fn find_pk(pks: Seq<PublicKeyView>, pk: Seq<u8>) -> Option<int>
    decreases pks.len(),
{
    if pks.len() == 0 {
        None
    } else if pks[0].pk == pk {
        Some(0int)
    } else {
        match find_pk(pks.drop_first(), pk) {
            None => None,
            Some(i) => Some(i + 1),
        }
    }
}

/// When `find_pk` finds an index, that index is in range and holds `pk`.
proof fn lemma_find_pk_is_match(pks: Seq<PublicKeyView>, pk: Seq<u8>)
    ensures
        find_pk(pks, pk) matches Some(i) ==> 0 <= i < pks.len() && pks[i].pk == pk,
    decreases pks.len(),
{
    if pks.len() > 0 && pks[0].pk != pk {
        lemma_find_pk_is_match(pks.drop_first(), pk);
    }
}

/// `find_pk` returns the first match.
proof fn lemma_find_pk_some(pks: Seq<PublicKeyView>, pk: Seq<u8>, i: int)
    requires
        0 <= i < pks.len(),
        pks[i].pk == pk,
        forall|j: int| 0 <= j < i ==> (#[trigger] pks[j]).pk != pk,
    ensures
        find_pk(pks, pk) == Some(i),
    decreases i,
{
    if i > 0 {
        assert(pks[0].pk != pk);
        assert forall|j: int| 0 <= j < i - 1 implies (#[trigger] pks.drop_first()[j]).pk != pk by {
            assert(pks.drop_first()[j] == pks[j + 1]);
        }
        assert(pks.drop_first()[i - 1] == pks[i]);
        lemma_find_pk_some(pks.drop_first(), pk, i - 1);
    }
}

/// `find_pk` finds nothing when no entry matches.
proof fn lemma_find_pk_none(pks: Seq<PublicKeyView>, pk: Seq<u8>)
    requires
        forall|j: int| 0 <= j < pks.len() ==> (#[trigger] pks[j]).pk != pk,
    ensures
        find_pk(pks, pk) is None,
    decreases pks.len(),
{
    if pks.len() > 0 {
        assert forall|j: int| 0 <= j < pks.drop_first().len() implies (#[trigger] pks.drop_first()[
            j
        ]).pk != pk by {
            assert(pks.drop_first()[j] == pks[j + 1]);
        }
        lemma_find_pk_none(pks.drop_first(), pk);
    }
}

/// Authentication references after removing the public key at index `j`:
/// references to `j` disappear, references past `j` shift down by one, the
/// rest keep their value and their relative order.
pub open spec fn renumber_auth(auth: Seq<u32>, j: int) -> Seq<u32>
    decreases auth.len(),
{
    if auth.len() == 0 {
        Seq::empty()
    } else {
        let rest = renumber_auth(auth.drop_last(), j);
        let r = auth.last();
        if r as int == j {
            rest
        } else if r as int > j {
            rest.push((r - 1) as u32)
        } else {
            rest.push(r)
        }
    }
}

/// Renumbered references stay valid for the shortened key list.
proof fn lemma_renumber_auth_bounds(auth: Seq<u32>, j: int, n: int)
    requires
        0 <= j < n,
        forall|i: int| 0 <= i < auth.len() ==> (#[trigger] auth[i]) < n,
    ensures
        forall|i: int|
            0 <= i < renumber_auth(auth, j).len() ==> (#[trigger] renumber_auth(auth, j)[i]) < n
                - 1,
    decreases auth.len(),
{
    if auth.len() > 0 {
        assert forall|i: int| 0 <= i < auth.drop_last().len() implies (#[trigger] auth.drop_last()[
            i
        ]) < n by {
            assert(auth.drop_last()[i] == auth[i]);
        }
        lemma_renumber_auth_bounds(auth.drop_last(), j, n);
        assert(auth.last() == auth[auth.len() - 1]);
        let rest = renumber_auth(auth.drop_last(), j);
        let r = auth.last();
        assert forall|i: int| 0 <= i < renumber_auth(auth, j).len() implies (
        #[trigger] renumber_auth(auth, j)[i]) < n - 1 by {
            if r as int != j {
                if i < rest.len() {
                    assert(renumber_auth(auth, j)[i] == rest[i]);
                } else {
                    assert(renumber_auth(auth, j)[i] == renumber_auth(auth, j).last());
                }
            }
        }
    }
}

/// The new document produced by a successful `remove_key`: the key at index
/// `j` is gone, the authentication references are renumbered to match, and
/// `updated` is set to the call's timestamp.
pub open spec fn remove_key_doc(d: DidDocumentView, j: int, now: u64) -> DidDocumentView {
    DidDocumentView {
        public_keys: d.public_keys.remove(j),
        authentication: renumber_auth(d.authentication, j),
        updated: Some(now),
        ..d
    }
}

/// Byte-for-byte equality of two key strings.
fn bytes_eq(a: &Vec<u8>, b: &Vec<u8>) -> (r: bool)
    ensures
        r == (a@ == b@),
{
    if a.len() != b.len() {
        return false;
    }
    let n = a.len();
    let mut i: usize = 0;
    while i < n
        invariant
            n == a@.len(),
            n == b@.len(),
            i <= n,
            forall|j: int| 0 <= j < i ==> a@[j] == b@[j],
        decreases n - i,
    {
        if a[i] != b[i] {
            return false;
        }
        i = i + 1;
    }
    proof {
        assert(a@ =~= b@);
    }
    true
}

/// Index of the first stored key holding exactly `pk`, if any.
fn find_key_index(pks: &Vec<PublicKey>, pk: &Vec<u8>) -> (r: Option<usize>)
    ensures
        match r {
            Some(i) => find_pk(pks@.map_values(|k: PublicKey| k@), pk@) == Some(i as int),
            None => find_pk(pks@.map_values(|k: PublicKey| k@), pk@) is None,
        },
{
    let ghost view = pks@.map_values(|k: PublicKey| k@);
    let n = pks.len();
    let mut i: usize = 0;
    while i < n
        invariant
            n == pks@.len(),
            i <= n,
            view == pks@.map_values(|k: PublicKey| k@),
            forall|j: int| 0 <= j < i ==> (#[trigger] view[j]).pk != pk@,
        decreases n - i,
    {
        if bytes_eq(&pks[i].pk, pk) {
            proof {
                lemma_find_pk_some(view, pk@, i as int);
            }
            return Some(i);
        }
        i = i + 1;
    }
    proof {
        lemma_find_pk_none(view, pk@);
    }
    None
}

/// Renumber the authentication references for the removal of index `j`.
fn renumber_auth_exec(auth: &Vec<u32>, j: usize) -> (r: Vec<u32>)
    ensures
        r@ == renumber_auth(auth@, j as int),
{
    let mut out: Vec<u32> = Vec::new();
    let n = auth.len();
    let mut i: usize = 0;
    while i < n
        invariant
            n == auth@.len(),
            i <= n,
            out@ == renumber_auth(auth@.subrange(0, i as int), j as int),
        decreases n - i,
    {
        proof {
            assert(auth@.subrange(0, i as int + 1).drop_last() =~= auth@.subrange(0, i as int));
            assert(auth@.subrange(0, i as int + 1).last() == auth@[i as int]);
        }
        let r = auth[i];
        if r as usize == j {
        } else if r as usize > j {
            out.push(r - 1);
        } else {
            out.push(r);
        }
        i = i + 1;
    }
    proof {
        assert(auth@.subrange(0, n as int) =~= auth@);
    }
    out
}

impl DID {
    /// The documents table, keyed by identity key.
    pub closed spec fn docs(self) -> Map<Seq<char>, DidDocumentView> {
        self.documents@
    }

    /// The service table, keyed by derived DID.
    pub closed spec fn svcs(self) -> Map<Seq<char>, ServiceView> {
        self.services@
    }

    /// Registry invariant: both tables are well-formed stores and every
    /// stored document is well-formed for its key.
    pub closed spec fn wf(self) -> bool {
        &&& self.documents.wf()
        &&& self.services.wf()
        &&& forall|k: Seq<char>|
            self.documents@.contains_key(k) ==> doc_wf(#[trigger] self.documents@[k], k)
    }

    /// Every document a well-formed registry stores is itself well-formed:
    /// its authentication references index into its public keys, its keys
    /// are owned by its identity, and a deactivated document is cleared.
    pub proof fn lemma_wf_doc(self, k: Seq<char>)
        requires
            self.wf(),
            self.docs().contains_key(k),
        ensures
            doc_wf(self.docs()[k], k),
    {
    }

    /// An empty registry: nothing registered, no services.
    pub fn new() -> (r: DID)
        ensures
            r.wf(),
            r.docs() == Map::<Seq<char>, DidDocumentView>::empty(),
            r.svcs() == Map::<Seq<char>, ServiceView>::empty(),
    {
        DID { documents: StrMap::new(), services: StrMap::new() }
    }

    /// Register a DID document for the caller. Fails with `AlreadyRegistered`
    /// (and changes nothing) when a status entry exists, tombstoned or not;
    /// otherwise creates a valid document holding exactly the presented key,
    /// authentication reference `0`, and `created = now`.
    pub fn reg_did_using_account(
        &mut self,
        account_id: &String,
        account_pk: Vec<u8>,
        now: u64,
    ) -> (r: Result<(), DidError>)
        requires
            old(self).wf(),
        ensures
            final (self).wf(),
            old(self).docs().contains_key(account_id@) ==> r == Err::<(), DidError>(
                DidError::AlreadyRegistered,
            ) && *final (self) == *old(self),
            !old(self).docs().contains_key(account_id@) ==> r == Ok::<(), DidError>(()) && final (
            self).docs() == old(self).docs().insert(
                account_id@,
                fresh_doc(account_id@, account_pk@, now),
            ) && final (self).svcs() == old(self).svcs(),
    {
        let ghost pk0 = account_pk@;
        if self.documents.contains_key(account_id) {
            return Err(DidError::AlreadyRegistered);
        }
        let mut public_keys: Vec<PublicKey> = Vec::new();
        public_keys.push(PublicKey::new_pk_and_auth(account_id, account_pk));
        let mut authentication: Vec<u32> = Vec::new();
        authentication.push(0u32);
        let doc = DidDocument {
            status: Status::Valid,
            contexts: Vec::new(),
            public_keys,
            authentication,
            controllers: Vec::new(),
            created: Some(now),
            updated: None,
        };
        proof {
            assert(doc@ =~= fresh_doc(account_id@, pk0, now));
        }
        self.documents.insert(account_id, doc);
        Ok(())
    }

    /// Deactivate the caller's document. Fails with `NotRegistered` (and
    /// changes nothing) when no status entry exists; otherwise any status is
    /// accepted: the status becomes a `Deactivated` tombstone, every other
    /// attribute family is cleared, and the service record stored under the
    /// caller's derived DID is dropped.
    pub fn deactive_did(&mut self, account_id: &String) -> (r: Result<(), DidError>)
        requires
            old(self).wf(),
        ensures
            final (self).wf(),
            !old(self).docs().contains_key(account_id@) ==> r == Err::<(), DidError>(
                DidError::NotRegistered,
            ) && *final (self) == *old(self),
            old(self).docs().contains_key(account_id@) ==> r == Ok::<(), DidError>(()) && final (
            self).docs() == old(self).docs().insert(account_id@, tombstone_doc()) && final (
            self).svcs() == old(self).svcs().remove(spec_gen_did(account_id@)),
    {
        if !self.documents.contains_key(account_id) {
            return Err(DidError::NotRegistered);
        }
        let doc = DidDocument {
            status: Status::Deactivated,
            contexts: Vec::new(),
            public_keys: Vec::new(),
            authentication: Vec::new(),
            controllers: Vec::new(),
            created: None,
            updated: None,
        };
        proof {
            assert(doc@ =~= tombstone_doc());
        }
        self.documents.insert(account_id, doc);
        let did = gen_did(account_id.as_str());
        self.services.remove(&did);
        Ok(())
    }

    /// Append a key to the caller's document. Fails with `NotValid` (and
    /// changes nothing) when the document is absent or not `Status::Valid`.
    /// The new key is present but not authentication-capable: the
    /// authentication references are untouched. `controller` is audit
    /// payload only and is not recorded in the document.
    #[allow(unused_variables)]
    pub fn add_key(
        &mut self,
        account_id: &String,
        pk: Vec<u8>,
        controller: String,
        now: u64,
    ) -> (r: Result<(), DidError>)
        requires
            old(self).wf(),
        ensures
            final (self).wf(),
            !(old(self).docs().contains_key(account_id@) && old(self).docs()[account_id@].status
                is Valid) ==> r == Err::<(), DidError>(DidError::NotValid) && *final (self) == *old(
            self),
            old(self).docs().contains_key(account_id@) && old(self).docs()[account_id@].status
                is Valid ==> r == Ok::<(), DidError>(()) && final (self).docs() == old(
            self).docs().insert(
                account_id@,
                add_key_doc(old(self).docs()[account_id@], account_id@, pk@, now),
            ) && final (self).svcs() == old(self).svcs(),
    {
        let ghost pk0 = pk@;
        let valid = match self.documents.get(account_id) {
            None => false,
            Some(d) => d.status == Status::Valid,
        };
        if !valid {
            return Err(DidError::NotValid);
        }
        let ghost m0 = self.documents@;
        let mut doc = match self.documents.take(account_id) {
            Some(d) => d,
            None => {
                return Err(DidError::NotValid);
            },
        };
        let ghost d0 = doc@;
        doc.public_keys.push(PublicKey::new_pk(account_id, pk));
        doc.updated = Some(now);
        proof {
            assert(doc@ =~= add_key_doc(d0, account_id@, pk0, now));
        }
        self.documents.insert(account_id, doc);
        proof {
            assert(self.documents@ =~= m0.insert(account_id@, add_key_doc(d0, account_id@, pk0, now)));
        }
        Ok(())
    }

    /// Remove the key holding exactly `pk` from the caller's document.
    /// Fails with `NotValid` (and changes nothing) when the document is
    /// absent or not `Status::Valid`, and with `KeyNotFound` (and changes
    /// nothing) when no stored key matches. On success the first matching
    /// key is removed, any authentication reference to it is dropped,
    /// references past it are renumbered, and `updated` is set.
    pub fn remove_key(&mut self, account_id: &String, pk: &Vec<u8>, now: u64) -> (r: Result<
        (),
        DidError,
    >)
        requires
            old(self).wf(),
        ensures
            final (self).wf(),
            !(old(self).docs().contains_key(account_id@) && old(self).docs()[account_id@].status
                is Valid) ==> r == Err::<(), DidError>(DidError::NotValid) && *final (self) == *old(
            self),
            old(self).docs().contains_key(account_id@) && old(self).docs()[account_id@].status
                is Valid && find_pk(old(self).docs()[account_id@].public_keys, pk@) is None ==> r
                == Err::<(), DidError>(DidError::KeyNotFound) && *final (self) == *old(self),
            old(self).docs().contains_key(account_id@) && old(self).docs()[account_id@].status
                is Valid ==> (find_pk(old(self).docs()[account_id@].public_keys, pk@) matches Some(
                j,
            ) ==> r == Ok::<(), DidError>(()) && final (self).docs() == old(self).docs().insert(
                account_id@,
                remove_key_doc(old(self).docs()[account_id@], j, now),
            ) && final (self).svcs() == old(self).svcs()),
    {
        let valid = match self.documents.get(account_id) {
            None => false,
            Some(d) => d.status == Status::Valid,
        };
        if !valid {
            return Err(DidError::NotValid);
        }
        let idx = match self.documents.get(account_id) {
            None => {
                return Err(DidError::NotValid);
            },
            Some(d) => find_key_index(&d.public_keys, pk),
        };
        let j = match idx {
            None => {
                return Err(DidError::KeyNotFound);
            },
            Some(j) => j,
        };
        let ghost m0 = self.documents@;
        let mut doc = match self.documents.take(account_id) {
            Some(d) => d,
            None => {
                return Err(DidError::NotValid);
            },
        };
        let ghost d0 = doc@;
        proof {
            lemma_find_pk_is_match(d0.public_keys, pk@);
        }
        let _removed = doc.public_keys.remove(j);
        let new_auth = renumber_auth_exec(&doc.authentication, j);
        doc.authentication = new_auth;
        doc.updated = Some(now);
        proof {
            assert(doc@.public_keys =~= remove_key_doc(d0, j as int, now).public_keys);
            assert(doc@ =~= remove_key_doc(d0, j as int, now));
            lemma_renumber_auth_bounds(d0.authentication, j as int, d0.public_keys.len() as int);
        }
        self.documents.insert(account_id, doc);
        proof {
            assert(self.documents@ =~= m0.insert(account_id@, remove_key_doc(d0, j as int, now)));
        }
        Ok(())
    }

    /// Store a service record for the caller, retrievable under the derived
    /// DID `did:near:<identity key>`. A second call overwrites rather than
    /// duplicates.
    pub fn add_service(&mut self, account_id: &String, ser: Service)
        requires
            old(self).wf(),
        ensures
            final (self).wf(),
            final (self).svcs() == old(self).svcs().insert(spec_gen_did(account_id@), ser@),
            final (self).docs() == old(self).docs(),
    {
        let did = gen_did(account_id.as_str());
        self.services.insert(&did, ser);
    }

    /// Look up the status stored for an identity key; `None` means the key
    /// was never registered.
    pub fn get_status(&self, account_id: &String) -> (r: Option<Status>)
        requires
            self.wf(),
        ensures
            match r {
                Some(s) => self.docs().contains_key(account_id@) && s == self.docs()[
                    account_id@
                ].status,
                None => !self.docs().contains_key(account_id@),
            },
    {
        match self.documents.get(account_id) {
            Some(d) => Some(d.status),
            None => None,
        }
    }

    /// Resolve the full document stored for an identity key.
    pub fn get_document<'a>(&'a self, account_id: &String) -> (r: Option<&'a DidDocument>)
        requires
            self.wf(),
        ensures
            match r {
                Some(d) => self.docs().contains_key(account_id@) && d@ == self.docs()[account_id@],
                None => !self.docs().contains_key(account_id@),
            },
    {
        self.documents.get(account_id)
    }

    /// Resolve a service record by derived DID.
    pub fn get_service<'a>(&'a self, did: &String) -> (r: Option<&'a Service>)
        requires
            self.wf(),
        ensures
            match r {
                Some(s) => self.svcs().contains_key(did@) && s@ == self.svcs()[did@],
                None => !self.svcs().contains_key(did@),
            },
    {
        self.services.get(did)
    }
}

impl Default for DID {
    /// Same as `DID::new`: an empty registry.
    fn default() -> (r: DID)
        ensures
            r.wf(),
            r.docs() == Map::<Seq<char>, DidDocumentView>::empty(),
            r.svcs() == Map::<Seq<char>, ServiceView>::empty(),
    {
        DID::new()
    }
}

} // verus!
