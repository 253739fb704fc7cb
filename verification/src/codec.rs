//! A byte serialization for DID documents, with a proved round trip:
//! decoding an encoded document yields the document back.
//!
//! Layout, in order: status tag; contexts; public keys; authentication
//! references; controllers; `created`; `updated`. Every count and length is
//! a little-endian `u64`; characters are little-endian `u32` Unicode
//! scalars; booleans and option tags are one byte.
use vstd::prelude::*;
use vstd::bytes::{
    lemma_auto_spec_u32_to_from_le_bytes, lemma_auto_spec_u64_to_from_le_bytes,
    spec_u32_from_le_bytes, spec_u32_to_le_bytes, spec_u64_from_le_bytes, spec_u64_to_le_bytes,
    u32_from_le_bytes, u64_from_le_bytes, u32_to_le_bytes, u64_to_le_bytes,
};
use vstd::utf8::{char_is_scalar, char_u32_cast, is_scalar};
use crate::document::{DidDocument, DidDocumentView, PublicKey, PublicKeyView, Status};

verus! {

pub open spec fn enc_u8(x: u8) -> Seq<u8> {
    seq![x]
}

pub open spec fn enc_bool(b: bool) -> Seq<u8> {
    if b {
        seq![1u8]
    } else {
        seq![0u8]
    }
}

pub open spec fn enc_u32(x: u32) -> Seq<u8> {
    spec_u32_to_le_bytes(x)
}

pub open spec fn enc_u64(x: u64) -> Seq<u8> {
    spec_u64_to_le_bytes(x)
}

pub open spec fn enc_char(c: char) -> Seq<u8> {
    enc_u32(c as u32)
}

pub open spec fn enc_chars(s: Seq<char>) -> Seq<u8>
    decreases s.len(),
{
    if s.len() == 0 {
        Seq::empty()
    } else {
        enc_char(s[0]) + enc_chars(s.drop_first())
    }
}

pub open spec fn enc_string(s: Seq<char>) -> Seq<u8> {
    enc_u64(s.len() as u64) + enc_chars(s)
}

pub open spec fn enc_strings_items(ss: Seq<Seq<char>>) -> Seq<u8>
    decreases ss.len(),
{
    if ss.len() == 0 {
        Seq::empty()
    } else {
        enc_string(ss[0]) + enc_strings_items(ss.drop_first())
    }
}

pub open spec fn enc_strings(ss: Seq<Seq<char>>) -> Seq<u8> {
    enc_u64(ss.len() as u64) + enc_strings_items(ss)
}

pub open spec fn enc_bytes(b: Seq<u8>) -> Seq<u8> {
    enc_u64(b.len() as u64) + b
}

pub open spec fn enc_pk(k: PublicKeyView) -> Seq<u8> {
    enc_string(k.controller) + enc_bytes(k.pk) + enc_bool(k.is_authentication)
}

pub open spec fn enc_pks_items(ks: Seq<PublicKeyView>) -> Seq<u8>
    decreases ks.len(),
{
    if ks.len() == 0 {
        Seq::empty()
    } else {
        enc_pk(ks[0]) + enc_pks_items(ks.drop_first())
    }
}

pub open spec fn enc_pks(ks: Seq<PublicKeyView>) -> Seq<u8> {
    enc_u64(ks.len() as u64) + enc_pks_items(ks)
}

pub open spec fn enc_u32s_items(xs: Seq<u32>) -> Seq<u8>
    decreases xs.len(),
{
    if xs.len() == 0 {
        Seq::empty()
    } else {
        enc_u32(xs[0]) + enc_u32s_items(xs.drop_first())
    }
}

pub open spec fn enc_u32s(xs: Seq<u32>) -> Seq<u8> {
    enc_u64(xs.len() as u64) + enc_u32s_items(xs)
}

pub open spec fn enc_opt_u64(o: Option<u64>) -> Seq<u8> {
    match o {
        None => seq![0u8],
        Some(x) => seq![1u8] + enc_u64(x),
    }
}

pub open spec fn enc_status(st: Status) -> Seq<u8> {
    match st {
        Status::Valid => seq![0u8],
        Status::Deactivated => seq![1u8],
    }
}

/// The byte encoding of a whole document.
pub open spec fn spec_encode_doc(d: DidDocumentView) -> Seq<u8> {
    enc_status(d.status) + enc_strings(d.contexts) + enc_pks(d.public_keys) + enc_u32s(
        d.authentication,
    ) + enc_strings(d.controllers) + enc_opt_u64(d.created) + enc_opt_u64(d.updated)
}

// Decoders consume a prefix of the byte stream and return the decoded value
// together with the remaining bytes, or `None` when the stream is malformed.

pub open spec fn dec_u8(s: Seq<u8>) -> Option<(u8, Seq<u8>)> {
    if s.len() >= 1 {
        Some((s[0], s.skip(1)))
    } else {
        None
    }
}

pub open spec fn dec_bool(s: Seq<u8>) -> Option<(bool, Seq<u8>)> {
    match dec_u8(s) {
        None => None,
        Some((t, r)) => if t == 0 {
            Some((false, r))
        } else if t == 1 {
            Some((true, r))
        } else {
            None
        },
    }
}

pub open spec fn dec_u32(s: Seq<u8>) -> Option<(u32, Seq<u8>)> {
    if s.len() >= 4 {
        Some((spec_u32_from_le_bytes(s.take(4)), s.skip(4)))
    } else {
        None
    }
}

pub open spec fn dec_u64(s: Seq<u8>) -> Option<(u64, Seq<u8>)> {
    if s.len() >= 8 {
        Some((spec_u64_from_le_bytes(s.take(8)), s.skip(8)))
    } else {
        None
    }
}

pub open spec fn dec_char(s: Seq<u8>) -> Option<(char, Seq<u8>)> {
    match dec_u32(s) {
        None => None,
        Some((v, r)) => if is_scalar(v) {
            Some((v as char, r))
        } else {
            None
        },
    }
}

pub open spec fn dec_chars(s: Seq<u8>, n: nat) -> Option<(Seq<char>, Seq<u8>)>
    decreases n,
{
    if n == 0 {
        Some((Seq::empty(), s))
    } else {
        match dec_char(s) {
            None => None,
            Some((c, r)) => match dec_chars(r, (n - 1) as nat) {
                None => None,
                Some((cs, r2)) => Some((seq![c] + cs, r2)),
            },
        }
    }
}

pub open spec fn dec_string(s: Seq<u8>) -> Option<(Seq<char>, Seq<u8>)> {
    match dec_u64(s) {
        None => None,
        Some((n, r)) => dec_chars(r, n as nat),
    }
}

pub open spec fn dec_bytes(s: Seq<u8>) -> Option<(Seq<u8>, Seq<u8>)> {
    match dec_u64(s) {
        None => None,
        Some((n, r)) => if r.len() >= n as int {
            Some((r.take(n as int), r.skip(n as int)))
        } else {
            None
        },
    }
}

pub open spec fn dec_strings_items(s: Seq<u8>, n: nat) -> Option<(Seq<Seq<char>>, Seq<u8>)>
    decreases n,
{
    if n == 0 {
        Some((Seq::empty(), s))
    } else {
        match dec_string(s) {
            None => None,
            Some((v, r)) => match dec_strings_items(r, (n - 1) as nat) {
                None => None,
                Some((vs, r2)) => Some((seq![v] + vs, r2)),
            },
        }
    }
}

pub open spec fn dec_strings(s: Seq<u8>) -> Option<(Seq<Seq<char>>, Seq<u8>)> {
    match dec_u64(s) {
        None => None,
        Some((n, r)) => dec_strings_items(r, n as nat),
    }
}

pub open spec fn dec_pk(s: Seq<u8>) -> Option<(PublicKeyView, Seq<u8>)> {
    match dec_string(s) {
        None => None,
        Some((controller, r)) => match dec_bytes(r) {
            None => None,
            Some((pk, r2)) => match dec_bool(r2) {
                None => None,
                Some((auth, r3)) => Some(
                    (PublicKeyView { controller, pk, is_authentication: auth }, r3),
                ),
            },
        },
    }
}

pub open spec fn dec_pks_items(s: Seq<u8>, n: nat) -> Option<(Seq<PublicKeyView>, Seq<u8>)>
    decreases n,
{
    if n == 0 {
        Some((Seq::empty(), s))
    } else {
        match dec_pk(s) {
            None => None,
            Some((v, r)) => match dec_pks_items(r, (n - 1) as nat) {
                None => None,
                Some((vs, r2)) => Some((seq![v] + vs, r2)),
            },
        }
    }
}

pub open spec fn dec_pks(s: Seq<u8>) -> Option<(Seq<PublicKeyView>, Seq<u8>)> {
    match dec_u64(s) {
        None => None,
        Some((n, r)) => dec_pks_items(r, n as nat),
    }
}

pub open spec fn dec_u32s_items(s: Seq<u8>, n: nat) -> Option<(Seq<u32>, Seq<u8>)>
    decreases n,
{
    if n == 0 {
        Some((Seq::empty(), s))
    } else {
        match dec_u32(s) {
            None => None,
            Some((v, r)) => match dec_u32s_items(r, (n - 1) as nat) {
                None => None,
                Some((vs, r2)) => Some((seq![v] + vs, r2)),
            },
        }
    }
}

pub open spec fn dec_u32s(s: Seq<u8>) -> Option<(Seq<u32>, Seq<u8>)> {
    match dec_u64(s) {
        None => None,
        Some((n, r)) => dec_u32s_items(r, n as nat),
    }
}

pub open spec fn dec_opt_u64(s: Seq<u8>) -> Option<(Option<u64>, Seq<u8>)> {
    match dec_u8(s) {
        None => None,
        Some((t, r)) => if t == 0 {
            Some((None, r))
        } else if t == 1 {
            match dec_u64(r) {
                None => None,
                Some((x, r2)) => Some((Some(x), r2)),
            }
        } else {
            None
        },
    }
}

pub open spec fn dec_status(s: Seq<u8>) -> Option<(Status, Seq<u8>)> {
    match dec_u8(s) {
        None => None,
        Some((t, r)) => if t == 0 {
            Some((Status::Valid, r))
        } else if t == 1 {
            Some((Status::Deactivated, r))
        } else {
            None
        },
    }
}

/// The document held in the byte stream, when the stream is a well-formed
/// encoding consumed exactly to its end.
pub open spec fn spec_decode_doc(s: Seq<u8>) -> Option<DidDocumentView> {
    match dec_status(s) {
        None => None,
        Some((status, r1)) => match dec_strings(r1) {
            None => None,
            Some((contexts, r2)) => match dec_pks(r2) {
                None => None,
                Some((public_keys, r3)) => match dec_u32s(r3) {
                    None => None,
                    Some((authentication, r4)) => match dec_strings(r4) {
                        None => None,
                        Some((controllers, r5)) => match dec_opt_u64(r5) {
                            None => None,
                            Some((created, r6)) => match dec_opt_u64(r6) {
                                None => None,
                                Some((updated, r7)) => if r7.len() == 0 {
                                    Some(
                                        DidDocumentView {
                                            status,
                                            contexts,
                                            public_keys,
                                            authentication,
                                            controllers,
                                            created,
                                            updated,
                                        },
                                    )
                                } else {
                                    None
                                },
                            },
                        },
                    },
                },
            },
        },
    }
}

/// Sequence lengths small enough for their 64-bit length prefixes. Every
/// document that exists at run time satisfies this.
pub open spec fn doc_size_ok(d: DidDocumentView) -> bool {
    &&& d.contexts.len() <= u64::MAX
    &&& forall|i: int| 0 <= i < d.contexts.len() ==> (#[trigger] d.contexts[i]).len() <= u64::MAX
    &&& d.public_keys.len() <= u64::MAX
    &&& forall|i: int|
        0 <= i < d.public_keys.len() ==> (#[trigger] d.public_keys[i]).controller.len() <= u64::MAX
            && d.public_keys[i].pk.len() <= u64::MAX
    &&& d.authentication.len() <= u64::MAX
    &&& d.controllers.len() <= u64::MAX
    &&& forall|i: int|
        0 <= i < d.controllers.len() ==> (#[trigger] d.controllers[i]).len() <= u64::MAX
}

proof fn lemma_dec_u8(x: u8, rest: Seq<u8>)
    ensures
        dec_u8(enc_u8(x) + rest) == Some((x, rest)),
{
    assert((enc_u8(x) + rest)[0] == x);
    assert((enc_u8(x) + rest).skip(1) =~= rest);
}

proof fn lemma_dec_bool(b: bool, rest: Seq<u8>)
    ensures
        dec_bool(enc_bool(b) + rest) == Some((b, rest)),
{
    if b {
        lemma_dec_u8(1u8, rest);
        assert(enc_bool(b) + rest =~= enc_u8(1u8) + rest);
    } else {
        lemma_dec_u8(0u8, rest);
        assert(enc_bool(b) + rest =~= enc_u8(0u8) + rest);
    }
}

proof fn lemma_dec_u32(x: u32, rest: Seq<u8>)
    ensures
        dec_u32(enc_u32(x) + rest) == Some((x, rest)),
{
    lemma_auto_spec_u32_to_from_le_bytes();
    assert((enc_u32(x) + rest).take(4) =~= enc_u32(x));
    assert((enc_u32(x) + rest).skip(4) =~= rest);
}

proof fn lemma_dec_u64(x: u64, rest: Seq<u8>)
    ensures
        dec_u64(enc_u64(x) + rest) == Some((x, rest)),
{
    lemma_auto_spec_u64_to_from_le_bytes();
    assert((enc_u64(x) + rest).take(8) =~= enc_u64(x));
    assert((enc_u64(x) + rest).skip(8) =~= rest);
}

proof fn lemma_dec_char(c: char, rest: Seq<u8>)
    ensures
        dec_char(enc_char(c) + rest) == Some((c, rest)),
{
    lemma_dec_u32(c as u32, rest);
    char_is_scalar(c);
    char_u32_cast(c, c as u32);
}

proof fn lemma_dec_chars(s: Seq<char>, rest: Seq<u8>)
    ensures
        dec_chars(enc_chars(s) + rest, s.len()) == Some((s, rest)),
    decreases s.len(),
{
    if s.len() == 0 {
        assert(enc_chars(s) + rest =~= rest);
    } else {
        assert(enc_chars(s) + rest =~= enc_char(s[0]) + (enc_chars(s.drop_first()) + rest));
        lemma_dec_char(s[0], enc_chars(s.drop_first()) + rest);
        lemma_dec_chars(s.drop_first(), rest);
        assert(seq![s[0]] + s.drop_first() =~= s);
    }
}

proof fn lemma_dec_string(s: Seq<char>, rest: Seq<u8>)
    requires
        s.len() <= u64::MAX,
    ensures
        dec_string(enc_string(s) + rest) == Some((s, rest)),
{
    assert(enc_string(s) + rest =~= enc_u64(s.len() as u64) + (enc_chars(s) + rest));
    lemma_dec_u64(s.len() as u64, enc_chars(s) + rest);
    lemma_dec_chars(s, rest);
}

proof fn lemma_dec_bytes(b: Seq<u8>, rest: Seq<u8>)
    requires
        b.len() <= u64::MAX,
    ensures
        dec_bytes(enc_bytes(b) + rest) == Some((b, rest)),
{
    assert(enc_bytes(b) + rest =~= enc_u64(b.len() as u64) + (b + rest));
    lemma_dec_u64(b.len() as u64, b + rest);
    assert((b + rest).take(b.len() as int) =~= b);
    assert((b + rest).skip(b.len() as int) =~= rest);
}

proof fn lemma_dec_strings_items(ss: Seq<Seq<char>>, rest: Seq<u8>)
    requires
        forall|i: int| 0 <= i < ss.len() ==> (#[trigger] ss[i]).len() <= u64::MAX,
    ensures
        dec_strings_items(enc_strings_items(ss) + rest, ss.len()) == Some((ss, rest)),
    decreases ss.len(),
{
    if ss.len() == 0 {
        assert(enc_strings_items(ss) + rest =~= rest);
    } else {
        assert(enc_strings_items(ss) + rest =~= enc_string(ss[0]) + (enc_strings_items(
            ss.drop_first(),
        ) + rest));
        lemma_dec_string(ss[0], enc_strings_items(ss.drop_first()) + rest);
        assert forall|i: int| 0 <= i < ss.drop_first().len() implies (#[trigger] ss.drop_first()[
            i
        ]).len() <= u64::MAX by {
            assert(ss.drop_first()[i] == ss[i + 1]);
        }
        lemma_dec_strings_items(ss.drop_first(), rest);
        assert(seq![ss[0]] + ss.drop_first() =~= ss);
    }
}

proof fn lemma_dec_strings(ss: Seq<Seq<char>>, rest: Seq<u8>)
    requires
        ss.len() <= u64::MAX,
        forall|i: int| 0 <= i < ss.len() ==> (#[trigger] ss[i]).len() <= u64::MAX,
    ensures
        dec_strings(enc_strings(ss) + rest) == Some((ss, rest)),
{
    assert(enc_strings(ss) + rest =~= enc_u64(ss.len() as u64) + (enc_strings_items(ss) + rest));
    lemma_dec_u64(ss.len() as u64, enc_strings_items(ss) + rest);
    lemma_dec_strings_items(ss, rest);
}

proof fn lemma_dec_pk(k: PublicKeyView, rest: Seq<u8>)
    requires
        k.controller.len() <= u64::MAX,
        k.pk.len() <= u64::MAX,
    ensures
        dec_pk(enc_pk(k) + rest) == Some((k, rest)),
{
    assert(enc_pk(k) + rest =~= enc_string(k.controller) + (enc_bytes(k.pk) + (enc_bool(
        k.is_authentication,
    ) + rest)));
    lemma_dec_string(k.controller, enc_bytes(k.pk) + (enc_bool(k.is_authentication) + rest));
    lemma_dec_bytes(k.pk, enc_bool(k.is_authentication) + rest);
    lemma_dec_bool(k.is_authentication, rest);
    assert((PublicKeyView {
        controller: k.controller,
        pk: k.pk,
        is_authentication: k.is_authentication,
    }) =~= k);
}

proof fn lemma_dec_pks_items(ks: Seq<PublicKeyView>, rest: Seq<u8>)
    requires
        forall|i: int|
            0 <= i < ks.len() ==> (#[trigger] ks[i]).controller.len() <= u64::MAX && ks[i].pk.len()
                <= u64::MAX,
    ensures
        dec_pks_items(enc_pks_items(ks) + rest, ks.len()) == Some((ks, rest)),
    decreases ks.len(),
{
    if ks.len() == 0 {
        assert(enc_pks_items(ks) + rest =~= rest);
    } else {
        assert(enc_pks_items(ks) + rest =~= enc_pk(ks[0]) + (enc_pks_items(ks.drop_first())
            + rest));
        lemma_dec_pk(ks[0], enc_pks_items(ks.drop_first()) + rest);
        assert forall|i: int| 0 <= i < ks.drop_first().len() implies (#[trigger] ks.drop_first()[
            i
        ]).controller.len() <= u64::MAX && ks.drop_first()[i].pk.len() <= u64::MAX by {
            assert(ks.drop_first()[i] == ks[i + 1]);
        }
        lemma_dec_pks_items(ks.drop_first(), rest);
        assert(seq![ks[0]] + ks.drop_first() =~= ks);
    }
}

proof fn lemma_dec_pks(ks: Seq<PublicKeyView>, rest: Seq<u8>)
    requires
        ks.len() <= u64::MAX,
        forall|i: int|
            0 <= i < ks.len() ==> (#[trigger] ks[i]).controller.len() <= u64::MAX && ks[i].pk.len()
                <= u64::MAX,
    ensures
        dec_pks(enc_pks(ks) + rest) == Some((ks, rest)),
{
    assert(enc_pks(ks) + rest =~= enc_u64(ks.len() as u64) + (enc_pks_items(ks) + rest));
    lemma_dec_u64(ks.len() as u64, enc_pks_items(ks) + rest);
    lemma_dec_pks_items(ks, rest);
}

proof fn lemma_dec_u32s_items(xs: Seq<u32>, rest: Seq<u8>)
    ensures
        dec_u32s_items(enc_u32s_items(xs) + rest, xs.len()) == Some((xs, rest)),
    decreases xs.len(),
{
    if xs.len() == 0 {
        assert(enc_u32s_items(xs) + rest =~= rest);
    } else {
        assert(enc_u32s_items(xs) + rest =~= enc_u32(xs[0]) + (enc_u32s_items(xs.drop_first())
            + rest));
        lemma_dec_u32(xs[0], enc_u32s_items(xs.drop_first()) + rest);
        lemma_dec_u32s_items(xs.drop_first(), rest);
        assert(seq![xs[0]] + xs.drop_first() =~= xs);
    }
}

proof fn lemma_dec_u32s(xs: Seq<u32>, rest: Seq<u8>)
    requires
        xs.len() <= u64::MAX,
    ensures
        dec_u32s(enc_u32s(xs) + rest) == Some((xs, rest)),
{
    assert(enc_u32s(xs) + rest =~= enc_u64(xs.len() as u64) + (enc_u32s_items(xs) + rest));
    lemma_dec_u64(xs.len() as u64, enc_u32s_items(xs) + rest);
    lemma_dec_u32s_items(xs, rest);
}

proof fn lemma_dec_opt_u64(o: Option<u64>, rest: Seq<u8>)
    ensures
        dec_opt_u64(enc_opt_u64(o) + rest) == Some((o, rest)),
{
    match o {
        None => {
            lemma_dec_u8(0u8, rest);
            assert(enc_opt_u64(o) + rest =~= enc_u8(0u8) + rest);
        },
        Some(x) => {
            assert(enc_opt_u64(o) + rest =~= enc_u8(1u8) + (enc_u64(x) + rest));
            lemma_dec_u8(1u8, enc_u64(x) + rest);
            lemma_dec_u64(x, rest);
        },
    }
}

proof fn lemma_dec_status(st: Status, rest: Seq<u8>)
    ensures
        dec_status(enc_status(st) + rest) == Some((st, rest)),
{
    match st {
        Status::Valid => {
            lemma_dec_u8(0u8, rest);
            assert(enc_status(st) + rest =~= enc_u8(0u8) + rest);
        },
        Status::Deactivated => {
            lemma_dec_u8(1u8, rest);
            assert(enc_status(st) + rest =~= enc_u8(1u8) + rest);
        },
    }
}

proof fn lemma_enc_chars_push(s: Seq<char>, v: char)
    ensures
        enc_chars(s.push(v)) == enc_chars(s) + enc_char(v),
    decreases s.len(),
{
    if s.len() == 0 {
        assert(s =~= Seq::<char>::empty());
        assert(s.push(v).drop_first() =~= Seq::<char>::empty());
        assert(s.push(v)[0] == v);
        assert(enc_chars(Seq::<char>::empty()) == Seq::<u8>::empty());
        assert(enc_chars(s.push(v)) == enc_char(v) + Seq::<u8>::empty());
        assert(enc_char(v) + Seq::<u8>::empty() =~= Seq::<u8>::empty() + enc_char(v));
    } else {
        assert(s.push(v)[0] == s[0]);
        assert(s.push(v).drop_first() =~= s.drop_first().push(v));
        lemma_enc_chars_push(s.drop_first(), v);
        assert(enc_chars(s.push(v)) == enc_char(s[0]) + enc_chars(s.drop_first().push(v)));
        assert(enc_chars(s) == enc_char(s[0]) + enc_chars(s.drop_first()));
        assert(enc_char(s[0]) + (enc_chars(s.drop_first()) + enc_char(v)) =~= (enc_char(s[0])
            + enc_chars(s.drop_first())) + enc_char(v));
    }
}

proof fn lemma_enc_strings_items_push(s: Seq<Seq<char>>, v: Seq<char>)
    ensures
        enc_strings_items(s.push(v)) == enc_strings_items(s) + enc_string(v),
    decreases s.len(),
{
    if s.len() == 0 {
        assert(s =~= Seq::<Seq<char>>::empty());
        assert(s.push(v).drop_first() =~= Seq::<Seq<char>>::empty());
        assert(s.push(v)[0] == v);
        assert(enc_strings_items(Seq::<Seq<char>>::empty()) == Seq::<u8>::empty());
        assert(enc_strings_items(s.push(v)) == enc_string(v) + Seq::<u8>::empty());
        assert(enc_string(v) + Seq::<u8>::empty() =~= Seq::<u8>::empty() + enc_string(v));
    } else {
        assert(s.push(v)[0] == s[0]);
        assert(s.push(v).drop_first() =~= s.drop_first().push(v));
        lemma_enc_strings_items_push(s.drop_first(), v);
        assert(enc_strings_items(s.push(v)) == enc_string(s[0]) + enc_strings_items(s.drop_first().push(v)));
        assert(enc_strings_items(s) == enc_string(s[0]) + enc_strings_items(s.drop_first()));
        assert(enc_string(s[0]) + (enc_strings_items(s.drop_first()) + enc_string(v)) =~= (enc_string(s[0])
            + enc_strings_items(s.drop_first())) + enc_string(v));
    }
}

proof fn lemma_enc_pks_items_push(s: Seq<PublicKeyView>, v: PublicKeyView)
    ensures
        enc_pks_items(s.push(v)) == enc_pks_items(s) + enc_pk(v),
    decreases s.len(),
{
    if s.len() == 0 {
        assert(s =~= Seq::<PublicKeyView>::empty());
        assert(s.push(v).drop_first() =~= Seq::<PublicKeyView>::empty());
        assert(s.push(v)[0] == v);
        assert(enc_pks_items(Seq::<PublicKeyView>::empty()) == Seq::<u8>::empty());
        assert(enc_pks_items(s.push(v)) == enc_pk(v) + Seq::<u8>::empty());
        assert(enc_pk(v) + Seq::<u8>::empty() =~= Seq::<u8>::empty() + enc_pk(v));
    } else {
        assert(s.push(v)[0] == s[0]);
        assert(s.push(v).drop_first() =~= s.drop_first().push(v));
        lemma_enc_pks_items_push(s.drop_first(), v);
        assert(enc_pks_items(s.push(v)) == enc_pk(s[0]) + enc_pks_items(s.drop_first().push(v)));
        assert(enc_pks_items(s) == enc_pk(s[0]) + enc_pks_items(s.drop_first()));
        assert(enc_pk(s[0]) + (enc_pks_items(s.drop_first()) + enc_pk(v)) =~= (enc_pk(s[0])
            + enc_pks_items(s.drop_first())) + enc_pk(v));
    }
}

proof fn lemma_enc_u32s_items_push(s: Seq<u32>, v: u32)
    ensures
        enc_u32s_items(s.push(v)) == enc_u32s_items(s) + enc_u32(v),
    decreases s.len(),
{
    if s.len() == 0 {
        assert(s =~= Seq::<u32>::empty());
        assert(s.push(v).drop_first() =~= Seq::<u32>::empty());
        assert(s.push(v)[0] == v);
        assert(enc_u32s_items(Seq::<u32>::empty()) == Seq::<u8>::empty());
        assert(enc_u32s_items(s.push(v)) == enc_u32(v) + Seq::<u8>::empty());
        assert(enc_u32(v) + Seq::<u8>::empty() =~= Seq::<u8>::empty() + enc_u32(v));
    } else {
        assert(s.push(v)[0] == s[0]);
        assert(s.push(v).drop_first() =~= s.drop_first().push(v));
        lemma_enc_u32s_items_push(s.drop_first(), v);
        assert(enc_u32s_items(s.push(v)) == enc_u32(s[0]) + enc_u32s_items(s.drop_first().push(v)));
        assert(enc_u32s_items(s) == enc_u32(s[0]) + enc_u32s_items(s.drop_first()));
        assert(enc_u32(s[0]) + (enc_u32s_items(s.drop_first()) + enc_u32(v)) =~= (enc_u32(s[0])
            + enc_u32s_items(s.drop_first())) + enc_u32(v));
    }
}

fn push_u8_val(out: &mut Vec<u8>, x: u8)
    ensures
        final (out)@ == old(out)@ + enc_u8(x),
{
    out.push(x);
    proof {
        assert(out@ =~= old(out)@ + enc_u8(x));
    }
}

fn push_u32_val(out: &mut Vec<u8>, x: u32)
    ensures
        final (out)@ == old(out)@ + enc_u32(x),
{
    let mut b = u32_to_le_bytes(x);
    out.append(&mut b);
}

fn push_u64_val(out: &mut Vec<u8>, x: u64)
    ensures
        final (out)@ == old(out)@ + enc_u64(x),
{
    let mut b = u64_to_le_bytes(x);
    out.append(&mut b);
}

fn push_bool_val(out: &mut Vec<u8>, b: bool)
    ensures
        final (out)@ == old(out)@ + enc_bool(b),
{
    if b {
        push_u8_val(out, 1);
    } else {
        push_u8_val(out, 0);
    }
}

fn push_status_val(out: &mut Vec<u8>, st: Status)
    ensures
        final (out)@ == old(out)@ + enc_status(st),
{
    match st {
        Status::Valid => push_u8_val(out, 0),
        Status::Deactivated => push_u8_val(out, 1),
    }
}

fn push_opt_u64_val(out: &mut Vec<u8>, o: &Option<u64>)
    ensures
        final (out)@ == old(out)@ + enc_opt_u64(*o),
{
    match o {
        None => push_u8_val(out, 0),
        Some(x) => {
            push_u8_val(out, 1);
            push_u64_val(out, *x);
        },
    }
}

fn push_char_val(out: &mut Vec<u8>, c: char)
    ensures
        final (out)@ == old(out)@ + enc_char(c),
{
    push_u32_val(out, c as u32);
}

fn push_string_val(out: &mut Vec<u8>, s: &String)
    ensures
        final (out)@ == old(out)@ + enc_string(s@),
{
    let n = s.as_str().unicode_len();
    push_u64_val(out, n as u64);
    let ghost base = out@;
    let mut i: usize = 0;
    while i < n
        invariant
            n == s@.len(),
            i <= n,
            out@ == base + enc_chars(s@.take(i as int)),
        decreases n - i,
    {
        let c = s.as_str().get_char(i);
        push_char_val(out, c);
        proof {
            lemma_enc_chars_push(s@.take(i as int), c);
            assert(s@.take(i as int + 1) =~= s@.take(i as int).push(s@[i as int]));
            assert(base + (enc_chars(s@.take(i as int)) + enc_char(c)) =~= (base + enc_chars(
                s@.take(i as int),
            )) + enc_char(c));
        }
        i = i + 1;
    }
    proof {
        assert(s@.take(n as int) =~= s@);
        assert(old(out)@ + (enc_u64(s@.len() as u64) + enc_chars(s@)) =~= (old(out)@ + enc_u64(
            s@.len() as u64,
        )) + enc_chars(s@));
    }
}

fn push_bytes_val(out: &mut Vec<u8>, b: &Vec<u8>)
    ensures
        final (out)@ == old(out)@ + enc_bytes(b@),
{
    let n = b.len();
    push_u64_val(out, n as u64);
    let ghost base = out@;
    let mut i: usize = 0;
    while i < n
        invariant
            n == b@.len(),
            i <= n,
            out@ == base + b@.take(i as int),
        decreases n - i,
    {
        out.push(b[i]);
        proof {
            assert(b@.take(i as int + 1) =~= b@.take(i as int).push(b@[i as int]));
            assert(out@ =~= base + b@.take(i as int + 1));
        }
        i = i + 1;
    }
    proof {
        assert(b@.take(n as int) =~= b@);
        assert(old(out)@ + (enc_u64(b@.len() as u64) + b@) =~= (old(out)@ + enc_u64(
            b@.len() as u64,
        )) + b@);
    }
}

fn push_pk_val(out: &mut Vec<u8>, k: &PublicKey)
    ensures
        final (out)@ == old(out)@ + enc_pk(k@),
{
    push_string_val(out, &k.controller);
    push_bytes_val(out, &k.pk);
    push_bool_val(out, k.is_authentication);
    proof {
        assert(old(out)@ + (enc_string(k@.controller) + enc_bytes(k@.pk) + enc_bool(
            k@.is_authentication,
        )) =~= ((old(out)@ + enc_string(k@.controller)) + enc_bytes(k@.pk)) + enc_bool(
            k@.is_authentication,
        ));
    }
}

fn push_strings_val(out: &mut Vec<u8>, ss: &Vec<String>)
    ensures
        final (out)@ == old(out)@ + enc_strings(ss@.map_values(|s: String| s@)),
{
    let ghost vs = ss@.map_values(|s: String| s@);
    let n = ss.len();
    push_u64_val(out, n as u64);
    let ghost base = out@;
    let mut i: usize = 0;
    while i < n
        invariant
            n == ss@.len(),
            i <= n,
            vs == ss@.map_values(|s: String| s@),
            out@ == base + enc_strings_items(vs.take(i as int)),
        decreases n - i,
    {
        push_string_val(out, &ss[i]);
        proof {
            lemma_enc_strings_items_push(vs.take(i as int), vs[i as int]);
            assert(vs.take(i as int + 1) =~= vs.take(i as int).push(vs[i as int]));
            assert(base + (enc_strings_items(vs.take(i as int)) + enc_string(vs[i as int])) =~= (
            base + enc_strings_items(vs.take(i as int))) + enc_string(vs[i as int]));
        }
        i = i + 1;
    }
    proof {
        assert(vs.take(n as int) =~= vs);
        assert(old(out)@ + (enc_u64(vs.len() as u64) + enc_strings_items(vs)) =~= (old(out)@
            + enc_u64(vs.len() as u64)) + enc_strings_items(vs));
    }
}

fn push_pks_val(out: &mut Vec<u8>, ks: &Vec<PublicKey>)
    ensures
        final (out)@ == old(out)@ + enc_pks(ks@.map_values(|k: PublicKey| k@)),
{
    let ghost vs = ks@.map_values(|k: PublicKey| k@);
    let n = ks.len();
    push_u64_val(out, n as u64);
    let ghost base = out@;
    let mut i: usize = 0;
    while i < n
        invariant
            n == ks@.len(),
            i <= n,
            vs == ks@.map_values(|k: PublicKey| k@),
            out@ == base + enc_pks_items(vs.take(i as int)),
        decreases n - i,
    {
        push_pk_val(out, &ks[i]);
        proof {
            lemma_enc_pks_items_push(vs.take(i as int), vs[i as int]);
            assert(vs.take(i as int + 1) =~= vs.take(i as int).push(vs[i as int]));
            assert(base + (enc_pks_items(vs.take(i as int)) + enc_pk(vs[i as int])) =~= (base
                + enc_pks_items(vs.take(i as int))) + enc_pk(vs[i as int]));
        }
        i = i + 1;
    }
    proof {
        assert(vs.take(n as int) =~= vs);
        assert(old(out)@ + (enc_u64(vs.len() as u64) + enc_pks_items(vs)) =~= (old(out)@ + enc_u64(
            vs.len() as u64,
        )) + enc_pks_items(vs));
    }
}

fn push_u32s_val(out: &mut Vec<u8>, xs: &Vec<u32>)
    ensures
        final (out)@ == old(out)@ + enc_u32s(xs@),
{
    let n = xs.len();
    push_u64_val(out, n as u64);
    let ghost base = out@;
    let mut i: usize = 0;
    while i < n
        invariant
            n == xs@.len(),
            i <= n,
            out@ == base + enc_u32s_items(xs@.take(i as int)),
        decreases n - i,
    {
        push_u32_val(out, xs[i]);
        proof {
            lemma_enc_u32s_items_push(xs@.take(i as int), xs@[i as int]);
            assert(xs@.take(i as int + 1) =~= xs@.take(i as int).push(xs@[i as int]));
            assert(base + (enc_u32s_items(xs@.take(i as int)) + enc_u32(xs@[i as int])) =~= (base
                + enc_u32s_items(xs@.take(i as int))) + enc_u32(xs@[i as int]));
        }
        i = i + 1;
    }
    proof {
        assert(xs@.take(n as int) =~= xs@);
        assert(old(out)@ + (enc_u64(xs@.len() as u64) + enc_u32s_items(xs@)) =~= (old(out)@
            + enc_u64(xs@.len() as u64)) + enc_u32s_items(xs@));
    }
}

/// Serialize a document to bytes.
pub fn encode_doc(doc: &DidDocument) -> (r: Vec<u8>)
    ensures
        r@ == spec_encode_doc(doc@),
{
    let mut out: Vec<u8> = Vec::new();
    push_status_val(&mut out, doc.status);
    push_strings_val(&mut out, &doc.contexts);
    push_pks_val(&mut out, &doc.public_keys);
    push_u32s_val(&mut out, &doc.authentication);
    push_strings_val(&mut out, &doc.controllers);
    push_opt_u64_val(&mut out, &doc.created);
    push_opt_u64_val(&mut out, &doc.updated);
    proof {
        assert(out@ =~= spec_encode_doc(doc@));
    }
    out
}

/// Relies on char::from_u32: `Some` exactly on Unicode scalar values, and
/// the returned character casts back to the argument.
#[verifier::external_body]
fn char_from_u32(v: u32) -> (r: Option<char>)
    ensures
        r matches Some(c) ==> c as u32 == v,
        r is Some <==> is_scalar(v),
{
    char::from_u32(v)
}

/// Relies on String::push: appends the given character to the string.
#[verifier::external_body]
fn string_push_char(s: &mut String, c: char)
    ensures
        final (s)@ == old(s)@.push(c),
{
    s.push(c);
}

fn read_u8(bytes: &Vec<u8>, pos: usize) -> (r: Option<(u8, usize)>)
    requires
        pos <= bytes@.len(),
    ensures
        match r {
            Some(p) => p.1 <= bytes@.len() && dec_u8(bytes@.skip(pos as int)) == Some(
                (p.0, bytes@.skip(p.1 as int)),
            ),
            None => dec_u8(bytes@.skip(pos as int)) is None,
        },
{
    if pos < bytes.len() {
        let x = bytes[pos];
        proof {
            assert(bytes@.skip(pos as int)[0] == bytes@[pos as int]);
            assert(bytes@.skip(pos as int).skip(1) =~= bytes@.skip(pos as int + 1));
        }
        Some((x, pos + 1))
    } else {
        None
    }
}

fn read_u32(bytes: &Vec<u8>, pos: usize) -> (r: Option<(u32, usize)>)
    requires
        pos <= bytes@.len(),
    ensures
        match r {
            Some(p) => p.1 <= bytes@.len() && dec_u32(bytes@.skip(pos as int)) == Some(
                (p.0, bytes@.skip(p.1 as int)),
            ),
            None => dec_u32(bytes@.skip(pos as int)) is None,
        },
{
    if bytes.len() - pos >= 4 {
        let sl = vstd::slice::slice_subrange(bytes.as_slice(), pos, pos + 4);
        let x = u32_from_le_bytes(sl);
        proof {
            assert(bytes@.skip(pos as int).take(4) =~= bytes@.subrange(pos as int, pos as int + 4));
            assert(bytes@.skip(pos as int).skip(4) =~= bytes@.skip(pos as int + 4));
        }
        Some((x, pos + 4))
    } else {
        None
    }
}

fn read_u64(bytes: &Vec<u8>, pos: usize) -> (r: Option<(u64, usize)>)
    requires
        pos <= bytes@.len(),
    ensures
        match r {
            Some(p) => p.1 <= bytes@.len() && dec_u64(bytes@.skip(pos as int)) == Some(
                (p.0, bytes@.skip(p.1 as int)),
            ),
            None => dec_u64(bytes@.skip(pos as int)) is None,
        },
{
    if bytes.len() - pos >= 8 {
        let sl = vstd::slice::slice_subrange(bytes.as_slice(), pos, pos + 8);
        let x = u64_from_le_bytes(sl);
        proof {
            assert(bytes@.skip(pos as int).take(8) =~= bytes@.subrange(pos as int, pos as int + 8));
            assert(bytes@.skip(pos as int).skip(8) =~= bytes@.skip(pos as int + 8));
        }
        Some((x, pos + 8))
    } else {
        None
    }
}

fn read_bool(bytes: &Vec<u8>, pos: usize) -> (r: Option<(bool, usize)>)
    requires
        pos <= bytes@.len(),
    ensures
        match r {
            Some(p) => p.1 <= bytes@.len() && dec_bool(bytes@.skip(pos as int)) == Some(
                (p.0, bytes@.skip(p.1 as int)),
            ),
            None => dec_bool(bytes@.skip(pos as int)) is None,
        },
{
    match read_u8(bytes, pos) {
        None => None,
        Some((t, p2)) => {
            if t == 0 {
                Some((false, p2))
            } else if t == 1 {
                Some((true, p2))
            } else {
                None
            }
        },
    }
}

fn read_status(bytes: &Vec<u8>, pos: usize) -> (r: Option<(Status, usize)>)
    requires
        pos <= bytes@.len(),
    ensures
        match r {
            Some(p) => p.1 <= bytes@.len() && dec_status(bytes@.skip(pos as int)) == Some(
                (p.0, bytes@.skip(p.1 as int)),
            ),
            None => dec_status(bytes@.skip(pos as int)) is None,
        },
{
    match read_u8(bytes, pos) {
        None => None,
        Some((t, p2)) => {
            if t == 0 {
                Some((Status::Valid, p2))
            } else if t == 1 {
                Some((Status::Deactivated, p2))
            } else {
                None
            }
        },
    }
}

fn read_opt_u64(bytes: &Vec<u8>, pos: usize) -> (r: Option<(Option<u64>, usize)>)
    requires
        pos <= bytes@.len(),
    ensures
        match r {
            Some(p) => p.1 <= bytes@.len() && dec_opt_u64(bytes@.skip(pos as int)) == Some(
                (p.0, bytes@.skip(p.1 as int)),
            ),
            None => dec_opt_u64(bytes@.skip(pos as int)) is None,
        },
{
    match read_u8(bytes, pos) {
        None => None,
        Some((t, p2)) => {
            if t == 0 {
                Some((None, p2))
            } else if t == 1 {
                match read_u64(bytes, p2) {
                    None => None,
                    Some((x, p3)) => Some((Some(x), p3)),
                }
            } else {
                None
            }
        },
    }
}

fn read_char(bytes: &Vec<u8>, pos: usize) -> (r: Option<(char, usize)>)
    requires
        pos <= bytes@.len(),
    ensures
        match r {
            Some(p) => p.1 <= bytes@.len() && dec_char(bytes@.skip(pos as int)) == Some(
                (p.0, bytes@.skip(p.1 as int)),
            ),
            None => dec_char(bytes@.skip(pos as int)) is None,
        },
{
    match read_u32(bytes, pos) {
        None => None,
        Some((v, p2)) => match char_from_u32(v) {
            None => None,
            Some(c) => {
                proof {
                    char_u32_cast(c, v);
                }
                Some((c, p2))
            },
        },
    }
}

#[verifier::loop_isolation(false)]
fn read_string(bytes: &Vec<u8>, pos: usize) -> (r: Option<(String, usize)>)
    requires
        pos <= bytes@.len(),
    ensures
        match r {
            Some(p) => p.1 <= bytes@.len() && dec_string(bytes@.skip(pos as int)) == Some(
                (p.0@, bytes@.skip(p.1 as int)),
            ),
            None => dec_string(bytes@.skip(pos as int)) is None,
        },
{
    let (n, p0) = match read_u64(bytes, pos) {
        None => {
            return None;
        },
        Some(p) => p,
    };
    let mut s = String::new();
    let mut cur: usize = p0;
    let mut i: u64 = 0;
    while i < n
        invariant
            cur <= bytes@.len(),
            i <= n,
            dec_chars(bytes@.skip(p0 as int), n as nat) == (match dec_chars(
                bytes@.skip(cur as int),
                (n - i) as nat,
            ) {
                None => None::<(Seq<char>, Seq<u8>)>,
                Some((cs, rr)) => Some((s@ + cs, rr)),
            }),
        decreases n - i,
    {
        match read_char(bytes, cur) {
            None => {
                return None;
            },
            Some((c, p2)) => {
                let ghost s_old = s@;
                string_push_char(&mut s, c);
                proof {
                    let rest = dec_chars(bytes@.skip(p2 as int), (n - (i + 1)) as nat);
                    match rest {
                        None => {},
                        Some((cs, rr)) => {
                            assert(s_old + (seq![c] + cs) =~= s_old.push(c) + cs);
                        },
                    }
                }
                cur = p2;
                i = i + 1;
            },
        }
    }
    proof {
        assert(s@ + Seq::<char>::empty() =~= s@);
    }
    Some((s, cur))
}

fn read_bytes(bytes: &Vec<u8>, pos: usize) -> (r: Option<(Vec<u8>, usize)>)
    requires
        pos <= bytes@.len(),
    ensures
        match r {
            Some(p) => p.1 <= bytes@.len() && dec_bytes(bytes@.skip(pos as int)) == Some(
                (p.0@, bytes@.skip(p.1 as int)),
            ),
            None => dec_bytes(bytes@.skip(pos as int)) is None,
        },
{
    let (n, p0) = match read_u64(bytes, pos) {
        None => {
            return None;
        },
        Some(p) => p,
    };
    if n <= (bytes.len() - p0) as u64 {
        let end = p0 + (n as usize);
        let sl = vstd::slice::slice_subrange(bytes.as_slice(), p0, end);
        let v = vstd::slice::slice_to_vec(sl);
        proof {
            assert(bytes@.skip(p0 as int).take(n as int) =~= bytes@.subrange(
                p0 as int,
                p0 as int + n as int,
            ));
            assert(bytes@.skip(p0 as int).skip(n as int) =~= bytes@.skip(p0 as int + n as int));
        }
        Some((v, end))
    } else {
        None
    }
}

#[verifier::loop_isolation(false)]
fn read_strings(bytes: &Vec<u8>, pos: usize) -> (r: Option<(Vec<String>, usize)>)
    requires
        pos <= bytes@.len(),
    ensures
        match r {
            Some(p) => p.1 <= bytes@.len() && dec_strings(bytes@.skip(pos as int)) == Some(
                (p.0@.map_values(|s: String| s@), bytes@.skip(p.1 as int)),
            ),
            None => dec_strings(bytes@.skip(pos as int)) is None,
        },
{
    let (n, p0) = match read_u64(bytes, pos) {
        None => {
            return None;
        },
        Some(p) => p,
    };
    let mut acc: Vec<String> = Vec::new();
    let mut cur: usize = p0;
    let mut i: u64 = 0;
    while i < n
        invariant
            cur <= bytes@.len(),
            i <= n,
            dec_strings_items(bytes@.skip(p0 as int), n as nat) == (match dec_strings_items(
                bytes@.skip(cur as int),
                (n - i) as nat,
            ) {
                None => None::<(Seq<Seq<char>>, Seq<u8>)>,
                Some((vs, rr)) => Some((acc@.map_values(|s: String| s@) + vs, rr)),
            }),
        decreases n - i,
    {
        match read_string(bytes, cur) {
            None => {
                return None;
            },
            Some((s, p2)) => {
                let ghost acc_old = acc@.map_values(|s: String| s@);
                let ghost sv = s@;
                acc.push(s);
                proof {
                    assert(acc@.map_values(|s: String| s@) =~= acc_old.push(sv));
                    let rest = dec_strings_items(bytes@.skip(p2 as int), (n - (i + 1)) as nat);
                    match rest {
                        None => {},
                        Some((vs, rr)) => {
                            assert(acc_old + (seq![sv] + vs) =~= acc_old.push(sv) + vs);
                        },
                    }
                }
                cur = p2;
                i = i + 1;
            },
        }
    }
    proof {
        assert(acc@.map_values(|s: String| s@) + Seq::<Seq<char>>::empty() =~= acc@.map_values(
            |s: String| s@,
        ));
    }
    Some((acc, cur))
}

fn read_pk(bytes: &Vec<u8>, pos: usize) -> (r: Option<(PublicKey, usize)>)
    requires
        pos <= bytes@.len(),
    ensures
        match r {
            Some(p) => p.1 <= bytes@.len() && dec_pk(bytes@.skip(pos as int)) == Some(
                (p.0@, bytes@.skip(p.1 as int)),
            ),
            None => dec_pk(bytes@.skip(pos as int)) is None,
        },
{
    let (controller, p1) = match read_string(bytes, pos) {
        None => {
            return None;
        },
        Some(p) => p,
    };
    let (pk, p2) = match read_bytes(bytes, p1) {
        None => {
            return None;
        },
        Some(p) => p,
    };
    let (auth, p3) = match read_bool(bytes, p2) {
        None => {
            return None;
        },
        Some(p) => p,
    };
    let k = PublicKey { controller, pk, is_authentication: auth };
    proof {
        assert(k@ =~= dec_pk(bytes@.skip(pos as int)).unwrap().0);
    }
    Some((k, p3))
}

#[verifier::loop_isolation(false)]
fn read_pks(bytes: &Vec<u8>, pos: usize) -> (r: Option<(Vec<PublicKey>, usize)>)
    requires
        pos <= bytes@.len(),
    ensures
        match r {
            Some(p) => p.1 <= bytes@.len() && dec_pks(bytes@.skip(pos as int)) == Some(
                (p.0@.map_values(|k: PublicKey| k@), bytes@.skip(p.1 as int)),
            ),
            None => dec_pks(bytes@.skip(pos as int)) is None,
        },
{
    let (n, p0) = match read_u64(bytes, pos) {
        None => {
            return None;
        },
        Some(p) => p,
    };
    let mut acc: Vec<PublicKey> = Vec::new();
    let mut cur: usize = p0;
    let mut i: u64 = 0;
    while i < n
        invariant
            cur <= bytes@.len(),
            i <= n,
            dec_pks_items(bytes@.skip(p0 as int), n as nat) == (match dec_pks_items(
                bytes@.skip(cur as int),
                (n - i) as nat,
            ) {
                None => None::<(Seq<PublicKeyView>, Seq<u8>)>,
                Some((vs, rr)) => Some((acc@.map_values(|k: PublicKey| k@) + vs, rr)),
            }),
        decreases n - i,
    {
        match read_pk(bytes, cur) {
            None => {
                return None;
            },
            Some((k, p2)) => {
                let ghost acc_old = acc@.map_values(|k: PublicKey| k@);
                let ghost kv = k@;
                acc.push(k);
                proof {
                    assert(acc@.map_values(|k: PublicKey| k@) =~= acc_old.push(kv));
                    let rest = dec_pks_items(bytes@.skip(p2 as int), (n - (i + 1)) as nat);
                    match rest {
                        None => {},
                        Some((vs, rr)) => {
                            assert(acc_old + (seq![kv] + vs) =~= acc_old.push(kv) + vs);
                        },
                    }
                }
                cur = p2;
                i = i + 1;
            },
        }
    }
    proof {
        assert(acc@.map_values(|k: PublicKey| k@) + Seq::<PublicKeyView>::empty()
            =~= acc@.map_values(|k: PublicKey| k@));
    }
    Some((acc, cur))
}

#[verifier::loop_isolation(false)]
fn read_u32s(bytes: &Vec<u8>, pos: usize) -> (r: Option<(Vec<u32>, usize)>)
    requires
        pos <= bytes@.len(),
    ensures
        match r {
            Some(p) => p.1 <= bytes@.len() && dec_u32s(bytes@.skip(pos as int)) == Some(
                (p.0@, bytes@.skip(p.1 as int)),
            ),
            None => dec_u32s(bytes@.skip(pos as int)) is None,
        },
{
    let (n, p0) = match read_u64(bytes, pos) {
        None => {
            return None;
        },
        Some(p) => p,
    };
    let mut acc: Vec<u32> = Vec::new();
    let mut cur: usize = p0;
    let mut i: u64 = 0;
    while i < n
        invariant
            cur <= bytes@.len(),
            i <= n,
            dec_u32s_items(bytes@.skip(p0 as int), n as nat) == (match dec_u32s_items(
                bytes@.skip(cur as int),
                (n - i) as nat,
            ) {
                None => None::<(Seq<u32>, Seq<u8>)>,
                Some((vs, rr)) => Some((acc@ + vs, rr)),
            }),
        decreases n - i,
    {
        match read_u32(bytes, cur) {
            None => {
                return None;
            },
            Some((x, p2)) => {
                let ghost acc_old = acc@;
                acc.push(x);
                proof {
                    let rest = dec_u32s_items(bytes@.skip(p2 as int), (n - (i + 1)) as nat);
                    match rest {
                        None => {},
                        Some((vs, rr)) => {
                            assert(acc_old + (seq![x] + vs) =~= acc_old.push(x) + vs);
                        },
                    }
                }
                cur = p2;
                i = i + 1;
            },
        }
    }
    proof {
        assert(acc@ + Seq::<u32>::empty() =~= acc@);
    }
    Some((acc, cur))
}

/// Deserialize a document from bytes; `None` when the bytes are not a
/// well-formed encoding consumed exactly to the end.
pub fn decode_doc(bytes: &Vec<u8>) -> (r: Option<DidDocument>)
    ensures
        match r {
            Some(d) => spec_decode_doc(bytes@) == Some(d@),
            None => spec_decode_doc(bytes@) is None,
        },
{
    proof {
        assert(bytes@.skip(0) =~= bytes@);
    }
    let (status, p1) = match read_status(bytes, 0) {
        None => {
            return None;
        },
        Some(p) => p,
    };
    let (contexts, p2) = match read_strings(bytes, p1) {
        None => {
            return None;
        },
        Some(p) => p,
    };
    let (public_keys, p3) = match read_pks(bytes, p2) {
        None => {
            return None;
        },
        Some(p) => p,
    };
    let (authentication, p4) = match read_u32s(bytes, p3) {
        None => {
            return None;
        },
        Some(p) => p,
    };
    let (controllers, p5) = match read_strings(bytes, p4) {
        None => {
            return None;
        },
        Some(p) => p,
    };
    let (created, p6) = match read_opt_u64(bytes, p5) {
        None => {
            return None;
        },
        Some(p) => p,
    };
    let (updated, p7) = match read_opt_u64(bytes, p6) {
        None => {
            return None;
        },
        Some(p) => p,
    };
    if p7 == bytes.len() {
        let d = DidDocument {
            status,
            contexts,
            public_keys,
            authentication,
            controllers,
            created,
            updated,
        };
        proof {
            assert(bytes@.skip(p7 as int).len() == 0);
            assert(d@ =~= spec_decode_doc(bytes@).unwrap());
        }
        Some(d)
    } else {
        None
    }
}

/// Round trip: decoding an encoded document yields the document back, for
/// every document whose sequence lengths fit their 64-bit prefixes.
pub proof fn lemma_codec_round_trip(d: DidDocumentView)
    requires
        doc_size_ok(d),
    ensures
        spec_decode_doc(spec_encode_doc(d)) == Some(d),
{
    let t6 = enc_opt_u64(d.updated);
    let t5 = enc_opt_u64(d.created) + t6;
    let t4 = enc_strings(d.controllers) + t5;
    let t3 = enc_u32s(d.authentication) + t4;
    let t2 = enc_pks(d.public_keys) + t3;
    let t1 = enc_strings(d.contexts) + t2;
    assert(spec_encode_doc(d) =~= enc_status(d.status) + t1);
    lemma_dec_status(d.status, t1);
    assert(t1 =~= enc_strings(d.contexts) + t2);
    lemma_dec_strings(d.contexts, t2);
    lemma_dec_pks(d.public_keys, t3);
    lemma_dec_u32s(d.authentication, t4);
    lemma_dec_strings(d.controllers, t5);
    lemma_dec_opt_u64(d.created, t6);
    assert(t6 =~= enc_opt_u64(d.updated) + Seq::<u8>::empty());
    lemma_dec_opt_u64(d.updated, Seq::<u8>::empty());
    assert((DidDocumentView {
        status: d.status,
        contexts: d.contexts,
        public_keys: d.public_keys,
        authentication: d.authentication,
        controllers: d.controllers,
        created: d.created,
        updated: d.updated,
    }) =~= d);
}

} // verus!
