//! The signed message envelope.
//!
//! A message couples a destination, a source authority, a payload and the
//! sender's knowledge of the destination's key. Destination and payload are
//! opaque to this library: it holds them in their encoded form. The
//! signature covers the signing bytes (destination, destination key,
//! payload) and never the authority itself nor the cached wire bytes.
use crate::authority::{
    AuthorityView, Prefix, copy_bytes, RoutingError, SrcAuthority, VerifyStatus, authority_status,
    last_key, table_view,
};
use crate::codec::{
    enc_authority, enc_key_opt, key_opt_view, lemma_authority_unique, lemma_key_opt_unique,
    read_authority, read_key_opt, write_authority, write_key_opt,
};
use crate::crypto::{
    bls_public_key, bls_signature, bls_verifies, content_hash, hash_content, public_key, sign,
    verify_signature,
};
use crate::wire::{
    enc_bytes, lemma_bytes_unique, lemma_occurs_join, lemma_occurs_split, lemma_occurs_whole,
    occurs_at, read_bytes, write_bytes,
};
use vstd::prelude::*;

verus! {

/// The content of a message, without its cached wire bytes and hash.
pub struct MessageView {
    pub dst: Seq<u8>,
    pub src: AuthorityView,
    pub variant: Seq<u8>,
    pub dst_key: Option<Seq<u8>>,
}

/// The wire encoding of a message: destination, authority, payload, destination key.
pub open spec fn enc_message(v: MessageView) -> Seq<u8> {
    enc_bytes(v.dst) + enc_authority(v.src) + enc_bytes(v.variant) + enc_key_opt(v.dst_key)
}

/// The bytes a message's signature covers.
pub open spec fn signing_bytes(dst: Seq<u8>, dst_key: Option<Seq<u8>>, variant: Seq<u8>) -> Seq<u8> {
    enc_bytes(dst) + enc_key_opt(dst_key) + enc_bytes(variant)
}

/// The bytes the signature of the message `v` covers.
pub open spec fn message_signing_bytes(v: MessageView) -> Seq<u8> {
    signing_bytes(v.dst, v.dst_key, v.variant)
}

/// The message whose encoding the bytes are, if there is one.
pub open spec fn decoded(b: Seq<u8>) -> Option<MessageView> {
    if exists|v: MessageView| enc_message(v) == b {
        Some(choose|v: MessageView| enc_message(v) == b)
    } else {
        None
    }
}

/// The message's signature verifies under the key it names: a node's own key,
/// or the last key of a section's proof chain.
pub open spec fn signature_holds(v: MessageView) -> bool {
    match v.src {
        AuthorityView::Node { public_id, signature } => bls_verifies(
            public_id,
            signature,
            message_signing_bytes(v),
        ),
        AuthorityView::Section { prefix: _, signature, proof } => bls_verifies(
            last_key(proof),
            signature,
            message_signing_bytes(v),
        ),
    }
}

/// The outcome of verifying a message against the trusted keys `table`.
pub open spec fn message_status(v: MessageView, table: Seq<(Seq<u8>, Seq<u8>)>) -> Result<
    VerifyStatus,
    RoutingError,
> {
    authority_status(v.src, message_signing_bytes(v), table)
}

/// A node's identity: its BLS secret key, in its bincode serialisation.
pub struct FullId {
    pub secret_key: Vec<u8>,
}

/// Message sent over the network.
pub struct Message {
    dst: Vec<u8>,
    src: SrcAuthority,
    variant: Vec<u8>,
    dst_key: Option<Vec<u8>>,
    /// The bytes last sent or received.
    serialized: Vec<u8>,
    /// The digest of `serialized`.
    hash: Vec<u8>,
}

impl View for Message {
    type V = MessageView;

    closed spec fn view(&self) -> MessageView {
        MessageView {
            dst: self.dst@,
            src: self.src@,
            variant: self.variant@,
            dst_key: key_opt_view(self.dst_key),
        }
    }
}

/// Status of an incoming message.
pub enum MessageStatus {
    /// Message is useful and should be handled.
    Useful,
    /// Message is useless and should be discarded.
    Useless,
    /// Message trust can't be established.
    Untrusted,
    /// The message cannot be handled in the current state.
    Unknown,
}

/// Encodes the bytes a message's signature covers.
pub fn serialize_for_signing(dst: &Vec<u8>, dst_key: &Option<Vec<u8>>, variant: &Vec<u8>) -> (r: Vec<u8>)
    ensures
        r@ == signing_bytes(dst@, key_opt_view(*dst_key), variant@),
{
    let mut out = Vec::new();
    write_bytes(&mut out, dst);
    write_key_opt(&mut out, dst_key);
    write_bytes(&mut out, variant);
    assert(out@ =~= signing_bytes(dst@, key_opt_view(*dst_key), variant@));
    out
}

/// The parts of a message's encoding occur one after the other.
pub proof fn lemma_message_split(v: MessageView, s: Seq<u8>, p: int)
    requires
        occurs_at(enc_message(v), s, p),
    ensures
        occurs_at(enc_bytes(v.dst), s, p),
        occurs_at(enc_authority(v.src), s, p + enc_bytes(v.dst).len()),
        occurs_at(
            enc_bytes(v.variant),
            s,
            p + enc_bytes(v.dst).len() + enc_authority(v.src).len(),
        ),
        occurs_at(
            enc_key_opt(v.dst_key),
            s,
            p + enc_bytes(v.dst).len() + enc_authority(v.src).len() + enc_bytes(v.variant).len(),
        ),
{
    let a = enc_bytes(v.dst);
    let b = enc_authority(v.src);
    let c = enc_bytes(v.variant);
    lemma_occurs_split(a + b + c, enc_key_opt(v.dst_key), s, p);
    lemma_occurs_split(a + b, c, s, p);
    lemma_occurs_split(a, b, s, p);
}

pub proof fn lemma_message_unique(v: MessageView, w: MessageView, s: Seq<u8>, p: int)
    requires
        occurs_at(enc_message(v), s, p),
        occurs_at(enc_message(w), s, p),
        s.len() <= u64::MAX,
    ensures
        v == w,
{
    lemma_message_split(v, s, p);
    lemma_message_split(w, s, p);
    lemma_bytes_unique(v.dst, w.dst, s, p);
    let q = p + enc_bytes(v.dst).len();
    lemma_authority_unique(v.src, w.src, s, q);
    let r = q + enc_authority(v.src).len();
    lemma_bytes_unique(v.variant, w.variant, s, r);
    lemma_key_opt_unique(v.dst_key, w.dst_key, s, r + enc_bytes(v.variant).len());
}

/// Decoding the encoding of a message gives that message back.
pub proof fn lemma_round_trip(v: MessageView)
    requires
        enc_message(v).len() <= u64::MAX,
    ensures
        decoded(enc_message(v)) == Some(v),
{
    let s = enc_message(v);
    lemma_occurs_whole(s);
    let w = choose|w: MessageView| enc_message(w) == s;
    lemma_occurs_whole(enc_message(w));
    lemma_message_unique(v, w, s, 0);
}

/// What a message's signature covers does not depend on its source authority:
/// two messages that differ at most in their authority sign the same bytes.
pub proof fn lemma_signing_excludes_src(a: MessageView, b: MessageView)
    requires
        a.dst == b.dst,
        a.dst_key == b.dst_key,
        a.variant == b.variant,
    ensures
        message_signing_bytes(a) == message_signing_bytes(b),
{
}

/// A message sent as its wire bytes and read back is the same message, and
/// its signature still holds if it passed verification against any table.
pub proof fn lemma_wire_round_trip(m: Message, table: Seq<(Seq<u8>, Seq<u8>)>)
    requires
        m.wf(),
        m.wire().len() <= u64::MAX,
        message_status(m@, table) is Ok,
    ensures
        decoded(m.wire()) == Some(m@),
        signature_holds(m@),
{
    lemma_round_trip(m@);
}

/// A node-signed message is fully trusted exactly when its signature verifies
/// under the node's own key, whatever keys the verifier trusts.
pub proof fn lemma_node_self_sufficient(v: MessageView, table: Seq<(Seq<u8>, Seq<u8>)>)
    requires
        v.src is Node,
    ensures
        (message_status(v, table) == Ok::<VerifyStatus, RoutingError>(VerifyStatus::Full))
            == signature_holds(v),
        message_status(v, table) is Err ==> message_status(v, table) == Err::<
            VerifyStatus,
            RoutingError,
        >(RoutingError::FailedSignature),
{
}

impl Message {
    /// The bytes last sent or received.
    pub closed spec fn wire(&self) -> Seq<u8> {
        self.serialized@
    }

    /// The message's digest.
    pub closed spec fn digest(&self) -> Seq<u8> {
        self.hash@
    }

    /// The cached wire bytes are the encoding of the message, and the digest is theirs.
    pub open spec fn wf(&self) -> bool {
        &&& self.wire() == enc_message(self@)
        &&& self.digest() == content_hash(self.wire())
    }

    /// Deserializes a message on receipt, checking its signature.
    pub fn from_bytes(bytes: &Vec<u8>) -> (r: Result<Message, RoutingError>)
        ensures
            match decoded(bytes@) {
                None => r is Err && r->Err_0 == RoutingError::InvalidMessage,
                Some(v) => if signature_holds(v) {
                    &&& r is Ok
                    &&& r->Ok_0@ == v
                    &&& r->Ok_0.wire() == bytes@
                    &&& r->Ok_0.digest() == content_hash(bytes@)
                } else {
                    r is Err && r->Err_0 == RoutingError::FailedSignature
                },
            },
            r is Ok ==> r->Ok_0.wf(),
    {
        let len = bytes.len();
        assert(bytes@.len() <= u64::MAX);
        let msg = match Self::parse(bytes) {
            Some(m) => m,
            None => {
                assert(decoded(bytes@) is None);
                return Err(RoutingError::InvalidMessage);
            },
        };
        proof {
            let v = msg@;
            lemma_occurs_whole(bytes@);
            assert forall|w: MessageView| enc_message(w) == bytes@ implies w == v by {
                lemma_message_unique(v, w, bytes@, 0);
            }
            assert(decoded(bytes@) == Some(v));
        }
        let signed = serialize_for_signing(&msg.dst, &msg.dst_key, &msg.variant);
        let valid = match &msg.src {
            SrcAuthority::Node { public_id, signature } => verify_signature(public_id, signature, &signed),
            SrcAuthority::Section { prefix: _, signature, proof } => verify_signature(
                proof.last_key(),
                signature,
                &signed,
            ),
        };
        if !valid {
            return Err(RoutingError::FailedSignature);
        }
        let hash = hash_content(bytes);
        let serialized = copy_bytes(bytes);
        Ok(Message { serialized, hash, ..msg })
    }

    /// Reads the fields of a message from its exact encoding; the cached bytes
    /// and hash of the result are left empty.
    fn parse(bytes: &Vec<u8>) -> (r: Option<Message>)
        ensures
            match r {
                Some(m) => enc_message(m@) == bytes@,
                None => forall|v: MessageView| enc_message(v) != bytes@,
            },
    {
        let len = bytes.len();
        assert(bytes@.len() <= u64::MAX);
        let (dst, p1) = match read_bytes(bytes, 0) {
            Some(x) => x,
            None => {
                assert forall|v: MessageView| enc_message(v) != bytes@ by {
                    if enc_message(v) == bytes@ {
                        lemma_occurs_whole(bytes@);
                        lemma_message_split(v, bytes@, 0);
                    }
                }
                return None;
            },
        };
        let (src, p2) = match read_authority(bytes, p1) {
            Some(x) => x,
            None => {
                assert forall|v: MessageView| enc_message(v) != bytes@ by {
                    if enc_message(v) == bytes@ {
                        lemma_occurs_whole(bytes@);
                        lemma_message_split(v, bytes@, 0);
                        lemma_bytes_unique(v.dst, dst@, bytes@, 0);
                    }
                }
                return None;
            },
        };
        let (variant, p3) = match read_bytes(bytes, p2) {
            Some(x) => x,
            None => {
                assert forall|v: MessageView| enc_message(v) != bytes@ by {
                    if enc_message(v) == bytes@ {
                        lemma_occurs_whole(bytes@);
                        lemma_message_split(v, bytes@, 0);
                        lemma_bytes_unique(v.dst, dst@, bytes@, 0);
                        lemma_authority_unique(v.src, src@, bytes@, p1 as int);
                    }
                }
                return None;
            },
        };
        let (dst_key, p4) = match read_key_opt(bytes, p3) {
            Some(x) => x,
            None => {
                assert forall|v: MessageView| enc_message(v) != bytes@ by {
                    if enc_message(v) == bytes@ {
                        lemma_occurs_whole(bytes@);
                        lemma_message_split(v, bytes@, 0);
                        lemma_bytes_unique(v.dst, dst@, bytes@, 0);
                        lemma_authority_unique(v.src, src@, bytes@, p1 as int);
                        lemma_bytes_unique(v.variant, variant@, bytes@, p2 as int);
                    }
                }
                return None;
            },
        };
        let m = Message { dst, src, variant, dst_key, serialized: Vec::new(), hash: Vec::new() };
        proof {
            let a = enc_bytes(m@.dst);
            let b = enc_authority(m@.src);
            let c = enc_bytes(m@.variant);
            lemma_occurs_join(a, b, bytes@, 0);
            lemma_occurs_join(a + b, c, bytes@, 0);
            lemma_occurs_join(a + b + c, enc_key_opt(m@.dst_key), bytes@, 0);
        }
        if p4 != bytes.len() {
            assert forall|v: MessageView| enc_message(v) != bytes@ by {
                if enc_message(v) == bytes@ {
                    lemma_occurs_whole(bytes@);
                    lemma_message_unique(v, m@, bytes@, 0);
                }
            }
            return None;
        }
        assert(bytes@.subrange(0, p4 as int) =~= bytes@);
        Some(m)
    }

    /// The bytes to send across the wire: the cached bytes, never re-encoded.
    pub fn to_bytes(&self) -> (r: Vec<u8>)
        ensures
            r@ == self.wire(),
    {
        copy_bytes(&self.serialized)
    }

    /// Assembles a message whose signature is taken as given, and caches its
    /// encoding and hash.
    pub fn new_signed(src: SrcAuthority, dst: Vec<u8>, dst_key: Option<Vec<u8>>, variant: Vec<u8>) -> (r: Message)
        ensures
            r@ == (MessageView { dst: dst@, src: src@, variant: variant@, dst_key: key_opt_view(dst_key) }),
            r.wf(),
    {
        let mut serialized = Vec::new();
        write_bytes(&mut serialized, &dst);
        write_authority(&mut serialized, &src);
        write_bytes(&mut serialized, &variant);
        write_key_opt(&mut serialized, &dst_key);
        let hash = hash_content(&serialized);
        let m = Message { dst, src, variant, dst_key, serialized, hash };
        assert(m.serialized@ =~= enc_message(m@));
        m
    }

    /// Creates a message signed by a single node.
    pub fn single_src(id: &FullId, dst: Vec<u8>, dst_key: Option<Vec<u8>>, variant: Vec<u8>) -> (r: Result<Message, RoutingError>)
        ensures
            match (
                bls_public_key(id.secret_key@),
                bls_signature(id.secret_key@, signing_bytes(dst@, key_opt_view(dst_key), variant@)),
            ) {
                (Some(pk), Some(sig)) => {
                    &&& r is Ok
                    &&& r->Ok_0@ == (MessageView {
                        dst: dst@,
                        src: AuthorityView::Node { public_id: pk, signature: sig },
                        variant: variant@,
                        dst_key: key_opt_view(dst_key),
                    })
                    &&& r->Ok_0.wf()
                },
                _ => r is Err && r->Err_0 == RoutingError::InvalidSecretKey,
            },
    {
        let signed = serialize_for_signing(&dst, &dst_key, &variant);
        let signature = match sign(&id.secret_key, &signed) {
            Some(s) => s,
            None => return Err(RoutingError::InvalidSecretKey),
        };
        let public_id = match public_key(&id.secret_key) {
            Some(k) => k,
            None => return Err(RoutingError::InvalidSecretKey),
        };
        Ok(Self::new_signed(SrcAuthority::Node { public_id, signature }, dst, dst_key, variant))
    }

    /// Decides how far this message can be trusted against the trusted
    /// (prefix, section key) pairs of `their_keys`.
    pub fn verify(&self, their_keys: &Vec<(Prefix, Vec<u8>)>) -> (r: Result<VerifyStatus, RoutingError>)
        ensures
            r == message_status(self@, table_view(their_keys@)),
    {
        let signed = serialize_for_signing(&self.dst, &self.dst_key, &self.variant);
        self.src.verify(&signed, their_keys)
    }

    /// The encoded destination.
    pub fn dst(&self) -> (r: &Vec<u8>)
        ensures
            r@ == self@.dst,
    {
        &self.dst
    }

    /// The encoded payload.
    pub fn variant(&self) -> (r: &Vec<u8>)
        ensures
            r@ == self@.variant,
    {
        &self.variant
    }

    /// The source authority.
    pub fn src(&self) -> (r: &SrcAuthority)
        ensures
            r@ == self@.src,
    {
        &self.src
    }

    /// The sender's knowledge of the destination section's key.
    pub fn dst_key(&self) -> (r: &Option<Vec<u8>>)
        ensures
            key_opt_view(*r) == self@.dst_key,
    {
        &self.dst_key
    }

    /// The digest of the message's wire bytes.
    pub fn hash(&self) -> (r: &Vec<u8>)
        ensures
            r@ == self.digest(),
    {
        &self.hash
    }
}

} // verus!
