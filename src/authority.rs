//! Source authorities: who vouches for a message, and how far the receiver
//! can trust that voucher.
//!
//! A node vouches with its own key. A section vouches with its collective
//! key, together with a proof chain: a list of key transitions, each signed
//! by the key before it, from an older section key up to the signing key.
use crate::crypto::{bls_verifies, verify_signature};
use vstd::prelude::*;

verus! {

/// A section prefix in the name space, one byte per bit (each 0 or 1).
pub struct Prefix {
    pub bits: Vec<u8>,
}

impl View for Prefix {
    type V = Seq<u8>;

    open spec fn view(&self) -> Seq<u8> {
        self.bits@
    }
}

/// One key transition of a proof chain: the new key, signed by the previous key.
pub struct Link {
    pub key: Vec<u8>,
    pub signature: Vec<u8>,
}

/// The content of a link.
pub struct LinkView {
    pub key: Seq<u8>,
    pub signature: Seq<u8>,
}

impl View for Link {
    type V = LinkView;

    open spec fn view(&self) -> LinkView {
        LinkView { key: self.key@, signature: self.signature@ }
    }
}

/// An ordered chain of section keys: a first key and the transitions after it.
pub struct ProofChain {
    pub head: Vec<u8>,
    pub links: Vec<Link>,
}

/// The content of a proof chain.
pub struct ChainView {
    pub head: Seq<u8>,
    pub links: Seq<LinkView>,
}

/// The contents of a list of links.
pub open spec fn links_view(links: Seq<Link>) -> Seq<LinkView> {
    links.map_values(|l: Link| l@)
}

impl View for ProofChain {
    type V = ChainView;

    open spec fn view(&self) -> ChainView {
        ChainView { head: self.head@, links: links_view(self.links@) }
    }
}

/// Proof of a message's origin.
pub enum SrcAuthority {
    /// A single node, signing with its own key.
    Node { public_id: Vec<u8>, signature: Vec<u8> },
    /// A section, signing with its collective key, the last key of `proof`.
    Section { prefix: Prefix, signature: Vec<u8>, proof: ProofChain },
}

/// The content of a source authority.
pub enum AuthorityView {
    Node { public_id: Seq<u8>, signature: Seq<u8> },
    Section { prefix: Seq<u8>, signature: Seq<u8>, proof: ChainView },
}

impl View for SrcAuthority {
    type V = AuthorityView;

    open spec fn view(&self) -> AuthorityView {
        match self {
            SrcAuthority::Node { public_id, signature } => AuthorityView::Node {
                public_id: public_id@,
                signature: signature@,
            },
            SrcAuthority::Section { prefix, signature, proof } => AuthorityView::Section {
                prefix: prefix@,
                signature: signature@,
                proof: proof@,
            },
        }
    }
}

/// Trust established for a message whose signature is valid.
#[derive(PartialEq, Eq, Debug, Clone, Copy, Structural)]
pub enum VerifyStatus {
    /// The message is signed by a key that the receiver trusts.
    Full,
    /// The message is consistent, but its key is not anchored in the receiver's
    /// trust: it should be relayed to nodes that may know more, not acted upon.
    Unknown,
}

/// The errors of this library.
#[derive(PartialEq, Eq, Debug, Clone, Copy, Structural)]
pub enum RoutingError {
    /// A signature, of the message or of a proof chain link, does not verify.
    FailedSignature,
    /// The message's authority is not trusted.
    UntrustedMessage,
    /// The bytes are not the encoding of a message.
    InvalidMessage,
    /// The secret key given for signing is not a valid key.
    InvalidSecretKey,
}

/// The key before the `i`-th transition of the chain.
pub open spec fn prev_key(c: ChainView, i: int) -> Seq<u8> {
    if i == 0 {
        c.head
    } else {
        c.links[i - 1].key
    }
}

/// The most recent key of the chain.
pub open spec fn last_key(c: ChainView) -> Seq<u8> {
    if c.links.len() == 0 {
        c.head
    } else {
        c.links.last().key
    }
}

/// Every key of the chain, oldest first.
pub open spec fn chain_keys(c: ChainView) -> Seq<Seq<u8>> {
    seq![c.head] + c.links.map_values(|l: LinkView| l.key)
}

/// The `i`-th transition is signed by the key before it.
pub open spec fn link_valid(c: ChainView, i: int) -> bool {
    bls_verifies(prev_key(c, i), c.links[i].signature, c.links[i].key)
}

/// Every transition of the chain is signed by the key before it.
pub open spec fn chain_valid(c: ChainView) -> bool {
    forall|i: int| 0 <= i < c.links.len() ==> #[trigger] link_valid(c, i)
}

/// `p` is `q` or one of its ancestors.
pub open spec fn is_ancestor(p: Seq<u8>, q: Seq<u8>) -> bool {
    p.len() <= q.len() && q.subrange(0, p.len() as int) == p
}

/// The view of a table of trusted (prefix, section key) pairs.
pub open spec fn table_view(t: Seq<(Prefix, Vec<u8>)>) -> Seq<(Seq<u8>, Seq<u8>)> {
    t.map_values(|e: (Prefix, Vec<u8>)| (e.0@, e.1@))
}

/// Some trusted key for the section `prefix`, or one of its ancestors, is a key of the chain.
pub open spec fn anchored(prefix: Seq<u8>, c: ChainView, table: Seq<(Seq<u8>, Seq<u8>)>) -> bool {
    exists|j: int| #[trigger] anchors(prefix, c, table, j)
}

/// What verifying the authority `a` over the signed bytes `msg` gives, against
/// the trusted keys `table`.
pub open spec fn authority_status(a: AuthorityView, msg: Seq<u8>, table: Seq<(Seq<u8>, Seq<u8>)>) -> Result<
    VerifyStatus,
    RoutingError,
> {
    match a {
        AuthorityView::Node { public_id, signature } => if bls_verifies(public_id, signature, msg) {
            Ok(VerifyStatus::Full)
        } else {
            Err(RoutingError::FailedSignature)
        },
        AuthorityView::Section { prefix, signature, proof } => if !bls_verifies(
            last_key(proof),
            signature,
            msg,
        ) || !chain_valid(proof) {
            Err(RoutingError::FailedSignature)
        } else if anchored(prefix, proof, table) {
            Ok(VerifyStatus::Full)
        } else {
            Ok(VerifyStatus::Unknown)
        },
    }
}

impl VerifyStatus {
    /// Succeeds only on full trust.
    pub fn require_full(self) -> (r: Result<(), RoutingError>)
        ensures
            r == (match self {
                VerifyStatus::Full => Ok(()),
                VerifyStatus::Unknown => Err(RoutingError::UntrustedMessage),
            }),
    {
        match self {
            VerifyStatus::Full => Ok(()),
            VerifyStatus::Unknown => Err(RoutingError::UntrustedMessage),
        }
    }
}

/// Whether two byte strings are equal.
pub fn bytes_eq(a: &Vec<u8>, b: &Vec<u8>) -> (r: bool)
    ensures
        r == (a@ == b@),
{
    if a.len() != b.len() {
        return false;
    }
    let mut i: usize = 0;
    while i < a.len()
        invariant
            a@.len() == b@.len(),
            i <= a.len(),
            forall|k: int| 0 <= k < i ==> a@[k] == b@[k],
        decreases a.len() - i,
    {
        if a[i] != b[i] {
            return false;
        }
        i = i + 1;
    }
    assert(a@ =~= b@);
    true
}

impl Prefix {
    /// Whether this prefix is `other` or one of its ancestors.
    pub fn is_ancestor_of(&self, other: &Prefix) -> (r: bool)
        ensures
            r == is_ancestor(self@, other@),
    {
        if self.bits.len() > other.bits.len() {
            return false;
        }
        let mut i: usize = 0;
        while i < self.bits.len()
            invariant
                self.bits@.len() <= other.bits@.len(),
                i <= self.bits@.len(),
                forall|k: int| 0 <= k < i ==> self.bits@[k] == other.bits@[k],
            decreases self.bits.len() - i,
        {
            if self.bits[i] != other.bits[i] {
                assert(other.bits@.subrange(0, self.bits@.len() as int)[i as int] == other.bits@[i as int]);
                return false;
            }
            i = i + 1;
        }
        assert(other.bits@.subrange(0, self.bits@.len() as int) =~= self.bits@);
        true
    }
}

/// A copy of a byte string.
pub fn copy_bytes(b: &Vec<u8>) -> (r: Vec<u8>)
    ensures
        r@ == b@,
{
    let mut r: Vec<u8> = Vec::new();
    let mut i: usize = 0;
    while i < b.len()
        invariant
            i <= b.len(),
            r@ == b@.subrange(0, i as int),
        decreases b.len() - i,
    {
        r.push(b[i]);
        i = i + 1;
        assert(r@ =~= b@.subrange(0, i as int));
    }
    assert(b@.subrange(0, i as int) =~= b@);
    r
}

impl Prefix {
    /// A copy of this prefix.
    pub fn copy(&self) -> (r: Prefix)
        ensures
            r@ == self@,
    {
        Prefix { bits: copy_bytes(&self.bits) }
    }
}

impl ProofChain {
    /// A copy of this chain.
    pub fn copy(&self) -> (r: ProofChain)
        ensures
            r@ == self@,
    {
        let mut links: Vec<Link> = Vec::new();
        let mut i: usize = 0;
        while i < self.links.len()
            invariant
                i <= self.links@.len(),
                links_view(links@) == links_view(self.links@).subrange(0, i as int),
            decreases self.links.len() - i,
        {
            let l = Link { key: copy_bytes(&self.links[i].key), signature: copy_bytes(&self.links[i].signature) };
            assert(l@ == self.links@[i as int]@);
            let ghost before = links@;
            links.push(l);
            assert(links_view(links@) =~= links_view(before).push(l@));
            i = i + 1;
            assert(links_view(links@) =~= links_view(self.links@).subrange(0, i as int));
        }
        assert(links_view(self.links@).subrange(0, i as int) =~= links_view(self.links@));
        ProofChain { head: copy_bytes(&self.head), links }
    }

    /// The most recent key of the chain.
    pub fn last_key(&self) -> (r: &Vec<u8>)
        ensures
            r@ == last_key(self@),
    {
        if self.links.len() == 0 {
            &self.head
        } else {
            &self.links[self.links.len() - 1].key
        }
    }

    /// Whether every transition is signed by the key before it.
    pub fn self_verify(&self) -> (r: bool)
        ensures
            r == chain_valid(self@),
    {
        let mut i: usize = 0;
        while i < self.links.len()
            invariant
                i <= self.links@.len(),
                forall|k: int| 0 <= k < i ==> #[trigger] link_valid(self@, k),
            decreases self.links.len() - i,
        {
            let prev = if i == 0 {
                &self.head
            } else {
                &self.links[i - 1].key
            };
            if !verify_signature(prev, &self.links[i].signature, &self.links[i].key) {
                assert(!link_valid(self@, i as int));
                return false;
            }
            i = i + 1;
        }
        true
    }

    /// Whether `key` is one of the chain's keys.
    pub fn has_key(&self, key: &Vec<u8>) -> (r: bool)
        ensures
            r == chain_keys(self@).contains(key@),
    {
        let ghost keys = chain_keys(self@);
        assert(keys[0] == self.head@);
        if bytes_eq(&self.head, key) {
            return true;
        }
        let mut i: usize = 0;
        while i < self.links.len()
            invariant
                i <= self.links@.len(),
                keys == chain_keys(self@),
                forall|k: int| 0 <= k < i + 1 ==> keys[k] != key@,
            decreases self.links.len() - i,
        {
            assert(keys[i + 1] == self.links@[i as int]@.key);
            if bytes_eq(&self.links[i].key, key) {
                return true;
            }
            i = i + 1;
        }
        assert(keys.len() == self.links@.len() + 1);
        assert(!keys.contains(key@));
        false
    }
}

/// The `j`-th trusted entry is for `prefix` or one of its ancestors, and its key is a key of `c`.
pub open spec fn anchors(prefix: Seq<u8>, c: ChainView, table: Seq<(Seq<u8>, Seq<u8>)>, j: int) -> bool {
    0 <= j < table.len() && is_ancestor(table[j].0, prefix) && chain_keys(c).contains(table[j].1)
}

/// The trusted entry that anchors `proof` for the section `prefix`, preferring
/// the longest (most specific) prefix; `None` if no entry anchors it.
pub fn anchor_entry(prefix: &Prefix, proof: &ProofChain, table: &Vec<(Prefix, Vec<u8>)>) -> (r: Option<usize>)
    ensures
        match r {
            Some(j) => anchors(prefix@, proof@, table_view(table@), j as int) && forall|k: int|
                #[trigger] anchors(prefix@, proof@, table_view(table@), k) ==> table_view(table@)[k].0.len()
                    <= table_view(table@)[j as int].0.len(),
            None => !anchored(prefix@, proof@, table_view(table@)),
        },
{
    let ghost t = table_view(table@);
    let mut best: Option<usize> = None;
    let mut j: usize = 0;
    while j < table.len()
        invariant
            j <= table@.len(),
            t == table_view(table@),
            match best {
                Some(b) => b < j && anchors(prefix@, proof@, t, b as int) && forall|k: int|
                    0 <= k < j && #[trigger] anchors(prefix@, proof@, t, k) ==> t[k].0.len() <= t[b as int].0.len(),
                None => forall|k: int| 0 <= k < j ==> !#[trigger] anchors(prefix@, proof@, t, k),
            },
        decreases table.len() - j,
    {
        let entry = &table[j];
        assert(t[j as int].0 == entry.0@ && t[j as int].1 == entry.1@);
        if entry.0.is_ancestor_of(prefix) && proof.has_key(&entry.1) {
            match best {
                Some(b) => {
                    assert(t[b as int].0.len() == table@[b as int].0.bits@.len());
                    if entry.0.bits.len() > table[b].0.bits.len() {
                        best = Some(j);
                    }
                },
                None => {
                    best = Some(j);
                },
            }
        }
        j = j + 1;
    }
    proof {
        if best is None {
            assert forall|k: int| 0 <= k < t.len() && is_ancestor(#[trigger] t[k].0, prefix@) implies !chain_keys(proof@).contains(t[k].1) by {
                assert(!anchors(prefix@, proof@, t, k));
            }
        }
    }
    best
}

impl SrcAuthority {
    /// Decides the trust in a message whose signed bytes are `msg`, against
    /// the trusted (prefix, section key) pairs of `table`.
    pub fn verify(&self, msg: &Vec<u8>, table: &Vec<(Prefix, Vec<u8>)>) -> (r: Result<
        VerifyStatus,
        RoutingError,
    >)
        ensures
            r == authority_status(self@, msg@, table_view(table@)),
    {
        match self {
            SrcAuthority::Node { public_id, signature } => {
                if verify_signature(public_id, signature, msg) {
                    Ok(VerifyStatus::Full)
                } else {
                    Err(RoutingError::FailedSignature)
                }
            },
            SrcAuthority::Section { prefix, signature, proof } => {
                if !verify_signature(proof.last_key(), signature, msg) || !proof.self_verify() {
                    Err(RoutingError::FailedSignature)
                } else if anchor_entry(prefix, proof, table).is_some() {
                    Ok(VerifyStatus::Full)
                } else {
                    Ok(VerifyStatus::Unknown)
                }
            },
        }
    }
}

/// A verifier that trusts any one key of a valid chain, for the message's own
/// section, fully trusts a message signed by the chain's last key.
pub proof fn lemma_anchored_at(prefix: Seq<u8>, signature: Seq<u8>, c: ChainView, msg: Seq<u8>, k: int)
    requires
        chain_valid(c),
        bls_verifies(last_key(c), signature, msg),
        0 <= k < chain_keys(c).len(),
    ensures
        authority_status(
            AuthorityView::Section { prefix, signature, proof: c },
            msg,
            seq![(prefix, chain_keys(c)[k])],
        ) == Ok::<VerifyStatus, RoutingError>(VerifyStatus::Full),
{
    let table = seq![(prefix, chain_keys(c)[k])];
    assert(prefix.subrange(0, prefix.len() as int) =~= prefix);
    assert(is_ancestor(table[0].0, prefix));
    assert(chain_keys(c).contains(table[0].1));
    assert(anchors(prefix, c, table, 0));
}

/// A verifier that trusts no key of a valid chain neither trusts nor rejects
/// a message signed by the chain's last key: its trust is unknown.
pub proof fn lemma_unanchored(
    prefix: Seq<u8>,
    signature: Seq<u8>,
    c: ChainView,
    msg: Seq<u8>,
    table: Seq<(Seq<u8>, Seq<u8>)>,
)
    requires
        chain_valid(c),
        bls_verifies(last_key(c), signature, msg),
        forall|j: int| 0 <= j < table.len() ==> !chain_keys(c).contains(#[trigger] table[j].1),
    ensures
        authority_status(AuthorityView::Section { prefix, signature, proof: c }, msg, table)
            == Ok::<VerifyStatus, RoutingError>(VerifyStatus::Unknown),
{
}

/// A chain with a transition that its previous key did not sign is rejected,
/// whatever keys the verifier trusts.
pub proof fn lemma_tampered_link(
    prefix: Seq<u8>,
    signature: Seq<u8>,
    c: ChainView,
    msg: Seq<u8>,
    table: Seq<(Seq<u8>, Seq<u8>)>,
    i: int,
)
    requires
        0 <= i < c.links.len(),
        !link_valid(c, i),
    ensures
        authority_status(AuthorityView::Section { prefix, signature, proof: c }, msg, table)
            == Err::<VerifyStatus, RoutingError>(RoutingError::FailedSignature),
{
}

} // verus!
