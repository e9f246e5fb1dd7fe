//! Accumulation of elder signature shares into a section signature.
//!
//! An accumulating message holds the plain message the elders agreed to
//! sign and one slot per current elder. Each valid share fills its elder's
//! slot; once at least the threshold of slots are filled, the shares are
//! combined into the section's signature and the plain message becomes a
//! section-signed `Message`, exactly once.
use crate::authority::{
    AuthorityView, ChainView, Prefix, ProofChain, SrcAuthority, copy_bytes, last_key,
};
use crate::codec::key_opt_view;
use crate::crypto::{
    bls_combined, bls_share_verifies, bls_verifies, combine_signatures, no_coefficients,
    verify_share, verify_signature,
};
use crate::wire::{enc_u64, lemma_u64_len, lemma_u64_unique, occurs_at, read_u64};
use crate::message::{Message, MessageView, serialize_for_signing, signing_bytes};
use vstd::prelude::*;

verus! {

/// The unsigned content that elders agree to sign.
pub struct PlainMessage {
    pub dst: Vec<u8>,
    pub dst_key: Option<Vec<u8>>,
    pub variant: Vec<u8>,
}

/// An elder of the section: its share index in the section key set and its
/// public key share.
pub struct Elder {
    pub index: u64,
    pub key_share: Vec<u8>,
}

/// What became of a share that was not rejected.
#[derive(PartialEq, Eq, Debug, Clone, Copy, Structural)]
pub enum ShareOutcome {
    /// The share filled its elder's slot.
    Added,
    /// The elder's slot was already filled: nothing changed.
    Duplicate,
    /// The message was already finalized: nothing changed.
    Ignored,
}

/// Why a share was rejected.
#[derive(PartialEq, Eq, Debug, Clone, Copy, Structural)]
pub enum ShareError {
    /// The signer is not a current elder.
    UnknownElder,
    /// The share does not verify under the elder's public key share.
    InvalidShare,
}

/// Why no message was finalized.
#[derive(PartialEq, Eq, Debug, Clone, Copy, Structural)]
pub enum FinalizeError {
    /// The message was finalized before.
    AlreadyFinalized,
    /// Fewer shares than the threshold are held.
    NotEnoughShares,
    /// The shares could not be combined under the section key set.
    CombineFailed,
    /// The combined signature does not verify under the proof chain's last key.
    InvalidSignature,
}

/// The state of an accumulating message.
pub struct AccumulatorView {
    pub dst: Seq<u8>,
    pub dst_key: Option<Seq<u8>>,
    pub variant: Seq<u8>,
    /// (share index, public key share) of each elder.
    pub elders: Seq<(u64, Seq<u8>)>,
    /// The share held for each elder, in the order of `elders`.
    pub shares: Seq<Option<Seq<u8>>>,
    pub threshold: nat,
    pub key_set: Seq<u8>,
    pub prefix: Seq<u8>,
    pub proof: ChainView,
    pub finalized: bool,
}

/// A plain message collecting signature shares.
pub struct AccumulatingMessage {
    content: PlainMessage,
    signing: Vec<u8>,
    elders: Vec<Elder>,
    shares: Vec<Option<Vec<u8>>>,
    threshold: usize,
    key_set: Vec<u8>,
    prefix: Prefix,
    proof: ProofChain,
    finalized: bool,
}

impl View for AccumulatingMessage {
    type V = AccumulatorView;

    closed spec fn view(&self) -> AccumulatorView {
        AccumulatorView {
            dst: self.content.dst@,
            dst_key: key_opt_view(self.content.dst_key),
            variant: self.content.variant@,
            elders: elders_view(self.elders@),
            shares: self.shares@.map_values(|s: Option<Vec<u8>>| key_opt_view(s)),
            threshold: self.threshold as nat,
            key_set: self.key_set@,
            prefix: self.prefix@,
            proof: self.proof@,
            finalized: self.finalized,
        }
    }
}

/// The (share index, public key share) of each elder.
pub open spec fn elders_view(es: Seq<Elder>) -> Seq<(u64, Seq<u8>)> {
    es.map_values(|e: Elder| (e.index, e.key_share@))
}

/// No two elders share an index.
pub open spec fn distinct_indices(es: Seq<(u64, Seq<u8>)>) -> bool {
    forall|i: int, j: int| 0 <= i < es.len() && 0 <= j < es.len() && i != j ==> #[trigger] es[i].0 != #[trigger] es[j].0
}

/// The bytes the elders sign.
pub open spec fn plain_signing_bytes(v: AccumulatorView) -> Seq<u8> {
    signing_bytes(v.dst, v.dst_key, v.variant)
}

/// The position of the elder with share index `idx`, if it is an elder.
pub open spec fn elder_slot(es: Seq<(u64, Seq<u8>)>, idx: u64) -> Option<int> {
    if exists|i: int| 0 <= i < es.len() && es[i].0 == idx {
        Some(choose|i: int| 0 <= i < es.len() && es[i].0 == idx)
    } else {
        None
    }
}

/// The number of shares held.
pub open spec fn share_count(s: Seq<Option<Seq<u8>>>) -> nat
    decreases s.len(),
{
    if s.len() == 0 {
        0
    } else {
        share_count(s.drop_last()) + if s.last() is Some {
            1nat
        } else {
            0nat
        }
    }
}

/// The shares held, each with its elder's share index, in the order of the elders.
pub open spec fn collected(es: Seq<(u64, Seq<u8>)>, s: Seq<Option<Seq<u8>>>) -> Seq<(u64, Seq<u8>)>
    decreases s.len(),
{
    if s.len() == 0 || es.len() < s.len() {
        seq![]
    } else {
        let before = collected(es, s.drop_last());
        match s.last() {
            Some(sig) => before.push((es[s.len() - 1].0, sig)),
            None => before,
        }
    }
}

/// What a share from the elder with index `idx` gives.
pub open spec fn share_outcome(v: AccumulatorView, idx: u64, share: Seq<u8>) -> Result<
    ShareOutcome,
    ShareError,
> {
    if v.finalized {
        Ok(ShareOutcome::Ignored)
    } else {
        match elder_slot(v.elders, idx) {
            None => Err(ShareError::UnknownElder),
            Some(i) => if v.shares[i] is Some {
                Ok(ShareOutcome::Duplicate)
            } else if !bls_share_verifies(v.elders[i].1, share, plain_signing_bytes(v)) {
                Err(ShareError::InvalidShare)
            } else {
                Ok(ShareOutcome::Added)
            },
        }
    }
}

/// The state after a share from the elder with index `idx`.
pub open spec fn after_share(v: AccumulatorView, idx: u64, share: Seq<u8>) -> AccumulatorView {
    if share_outcome(v, idx, share) == Ok::<ShareOutcome, ShareError>(ShareOutcome::Added) {
        AccumulatorView { shares: v.shares.update(elder_slot(v.elders, idx).unwrap(), Some(share)), ..v }
    } else {
        v
    }
}

/// The section signature a finalization attempt produces, or why it fails.
pub open spec fn finalize_signature(v: AccumulatorView) -> Result<Seq<u8>, FinalizeError> {
    if v.finalized {
        Err(FinalizeError::AlreadyFinalized)
    } else if share_count(v.shares) < v.threshold {
        Err(FinalizeError::NotEnoughShares)
    } else if no_coefficients(v.key_set) {
        Err(FinalizeError::CombineFailed)
    } else {
        match bls_combined(v.key_set, collected(v.elders, v.shares)) {
            None => Err(FinalizeError::CombineFailed),
            Some(sig) => if bls_verifies(last_key(v.proof), sig, plain_signing_bytes(v)) {
                Ok(sig)
            } else {
                Err(FinalizeError::InvalidSignature)
            },
        }
    }
}

/// The message a finalization with the section signature `sig` produces.
pub open spec fn finalized_message(v: AccumulatorView, sig: Seq<u8>) -> MessageView {
    MessageView {
        dst: v.dst,
        src: AuthorityView::Section { prefix: v.prefix, signature: sig, proof: v.proof },
        variant: v.variant,
        dst_key: v.dst_key,
    }
}

impl AccumulatorView {
    /// One slot per elder, and no two elders with one index.
    pub open spec fn wf(&self) -> bool {
        &&& self.shares.len() == self.elders.len()
        &&& distinct_indices(self.elders)
    }
}

/// Only a quorum of shares can finalize: with fewer shares than the threshold,
/// or after a finalization, no signature is produced.
pub proof fn lemma_quorum_needed(v: AccumulatorView)
    ensures
        finalize_signature(v) is Ok ==> share_count(v.shares) >= v.threshold && !v.finalized,
{
}

/// Shares from two different elders leave the same state whichever arrives
/// first, so the signature finalized from them does not depend on their order.
pub proof fn lemma_shares_commute(v: AccumulatorView, i: u64, a: Seq<u8>, j: u64, b: Seq<u8>)
    requires
        v.wf(),
        i != j,
    ensures
        after_share(after_share(v, i, a), j, b) == after_share(after_share(v, j, b), i, a),
        finalize_signature(after_share(after_share(v, i, a), j, b)) == finalize_signature(
            after_share(after_share(v, j, b), i, a),
        ),
{
    let si = elder_slot(v.elders, i);
    let sj = elder_slot(v.elders, j);
    if let (Some(x), Some(y)) = (si, sj) {
        assert(v.elders[x].0 == i);
        assert(v.elders[y].0 == j);
        assert(x != y);
    }
    let va = after_share(v, i, a);
    let vb = after_share(v, j, b);
    assert(va.elders == v.elders);
    assert(vb.elders == v.elders);
    if let Some(y) = sj {
        assert(va.shares[y] == v.shares[y]);
    }
    if let Some(x) = si {
        assert(vb.shares[x] == v.shares[x]);
    }
    let l = after_share(va, j, b);
    let r = after_share(vb, i, a);
    assert(l.shares =~= r.shares);
}

/// Once finalized, a message accepts no share and cannot be finalized again.
pub proof fn lemma_finalized_once(v: AccumulatorView, idx: u64, share: Seq<u8>)
    requires
        v.finalized,
    ensures
        share_outcome(v, idx, share) == Ok::<ShareOutcome, ShareError>(ShareOutcome::Ignored),
        after_share(v, idx, share) == v,
        finalize_signature(v) == Err::<Seq<u8>, FinalizeError>(FinalizeError::AlreadyFinalized),
{
}

impl AccumulatingMessage {
    /// Starts collecting shares over `content` from `elders`, of which
    /// `threshold` must sign; `key_set` is the section's serialised public key
    /// set, and `prefix` and `proof` the section's prefix and proof chain.
    pub fn new(
        content: PlainMessage,
        elders: Vec<Elder>,
        threshold: usize,
        key_set: Vec<u8>,
        prefix: Prefix,
        proof: ProofChain,
    ) -> (r: AccumulatingMessage)
        requires
            distinct_indices(elders_view(elders@)),
        ensures
            r.inv(),
            r@ == (AccumulatorView {
                dst: content.dst@,
                dst_key: key_opt_view(content.dst_key),
                variant: content.variant@,
                elders: elders_view(elders@),
                shares: Seq::new(elders@.len(), |i: int| None),
                threshold: threshold as nat,
                key_set: key_set@,
                prefix: prefix@,
                proof: proof@,
                finalized: false,
            }),
    {
        let signing = serialize_for_signing(&content.dst, &content.dst_key, &content.variant);
        let mut shares: Vec<Option<Vec<u8>>> = Vec::new();
        let mut i: usize = 0;
        while i < elders.len()
            invariant
                i <= elders@.len(),
                shares@.len() == i,
                forall|k: int| 0 <= k < i ==> shares@[k] is None,
            decreases elders.len() - i,
        {
            shares.push(None);
            i = i + 1;
        }
        let r = AccumulatingMessage {
            content,
            signing,
            elders,
            shares,
            threshold,
            key_set,
            prefix,
            proof,
            finalized: false,
        };
        assert(r@.shares =~= Seq::new(r.elders@.len(), |i: int| None));
        r
    }

    /// The state is well formed and the cached signing bytes match the content.
    pub closed spec fn inv(&self) -> bool {
        &&& self@.wf()
        &&& self.signing@ == plain_signing_bytes(self@)
    }

    /// Records the share `share` from the elder with index `elder_index`.
    pub fn add_share(&mut self, elder_index: u64, share: Vec<u8>) -> (r: Result<ShareOutcome, ShareError>)
        requires
            old(self).inv(),
        ensures
            final(self).inv(),
            r == share_outcome(old(self)@, elder_index, share@),
            final(self)@ == after_share(old(self)@, elder_index, share@),
    {
        if self.finalized {
            return Ok(ShareOutcome::Ignored);
        }
        let ghost v = self@;
        let i = match self.position(elder_index) {
            Some(i) => i,
            None => {
                assert(elder_slot(v.elders, elder_index) is None);
                return Err(ShareError::UnknownElder);
            },
        };
        proof {
            assert(v.elders[i as int].0 == elder_index);
            assert(elder_slot(v.elders, elder_index) == Some(i as int));
        }
        assert(v.shares[i as int] == key_opt_view(self.shares@[i as int]));
        if self.shares[i].is_some() {
            return Ok(ShareOutcome::Duplicate);
        }
        assert(v.elders[i as int].1 == self.elders@[i as int].key_share@);
        if !verify_share(&self.elders[i].key_share, &share, &self.signing) {
            return Err(ShareError::InvalidShare);
        }
        let ghost s = share@;
        self.shares.set(i, Some(share));
        assert(self@.shares =~= v.shares.update(i as int, Some(s)));
        Ok(ShareOutcome::Added)
    }

    /// The position of the elder with share index `idx`.
    fn position(&self, idx: u64) -> (r: Option<usize>)
        ensures
            match r {
                Some(i) => i < self@.elders.len() && self@.elders[i as int].0 == idx,
                None => forall|k: int| 0 <= k < self@.elders.len() ==> #[trigger] self@.elders[k].0 != idx,
            },
    {
        let ghost v = self@;
        let mut i: usize = 0;
        while i < self.elders.len()
            invariant
                i <= self.elders@.len(),
                v == self@,
                forall|k: int| 0 <= k < i ==> #[trigger] v.elders[k].0 != idx,
            decreases self.elders.len() - i,
        {
            assert(v.elders[i as int].0 == self.elders@[i as int].index);
            if self.elders[i].index == idx {
                return Some(i);
            }
            i = i + 1;
        }
        None
    }

    /// The shares held, each with its elder's share index.
    fn collect(&self) -> (r: Vec<(u64, Vec<u8>)>)
        requires
            self.inv(),
        ensures
            crate::crypto::shares_view(r@) == collected(self@.elders, self@.shares),
    {
        let ghost v = self@;
        let mut r: Vec<(u64, Vec<u8>)> = Vec::new();
        let mut i: usize = 0;
        while i < self.shares.len()
            invariant
                i <= self.shares@.len(),
                v == self@,
                v.wf(),
                crate::crypto::shares_view(r@) == collected(v.elders, v.shares.subrange(0, i as int)),
            decreases self.shares.len() - i,
        {
            let ghost before = r@;
            let ghost sub = v.shares.subrange(0, i + 1);
            assert(sub.drop_last() =~= v.shares.subrange(0, i as int));
            assert(sub.last() == v.shares[i as int]);
            assert(v.shares[i as int] == key_opt_view(self.shares@[i as int]));
            assert(v.elders[i as int].0 == self.elders@[i as int].index);
            match &self.shares[i] {
                Some(s) => {
                    r.push((self.elders[i].index, copy_bytes(s)));
                    assert(crate::crypto::shares_view(r@) =~= crate::crypto::shares_view(before).push(
                        (v.elders[i as int].0, s@),
                    ));
                },
                None => {},
            }
            i = i + 1;
        }
        assert(v.shares.subrange(0, i as int) =~= v.shares);
        r
    }

    fn count(&self) -> (r: usize)
        requires
            self.inv(),
        ensures
            r == share_count(self@.shares),
    {
        let ghost v = self@;
        let mut n: usize = 0;
        let mut i: usize = 0;
        while i < self.shares.len()
            invariant
                i <= self.shares@.len(),
                v == self@,
                n == share_count(v.shares.subrange(0, i as int)),
                n <= i,
            decreases self.shares.len() - i,
        {
            let ghost sub = v.shares.subrange(0, i + 1);
            assert(sub.drop_last() =~= v.shares.subrange(0, i as int));
            assert(sub.last() == v.shares[i as int]);
            assert(v.shares[i as int] == key_opt_view(self.shares@[i as int]));
            if self.shares[i].is_some() {
                n = n + 1;
            }
            i = i + 1;
        }
        assert(v.shares.subrange(0, i as int) =~= v.shares);
        n
    }

    /// Combines the shares held into the section signature and builds the
    /// section-signed message, once a quorum of shares is held.
    pub fn try_finalize(&mut self) -> (r: Result<Message, FinalizeError>)
        requires
            old(self).inv(),
        ensures
            final(self).inv(),
            match finalize_signature(old(self)@) {
                Ok(sig) => {
                    &&& r is Ok
                    &&& r->Ok_0@ == finalized_message(old(self)@, sig)
                    &&& r->Ok_0.wf()
                    &&& final(self)@ == (AccumulatorView { finalized: true, ..old(self)@ })
                },
                Err(e) => r is Err && r->Err_0 == e && final(self)@ == old(self)@,
            },
    {
        if self.finalized {
            return Err(FinalizeError::AlreadyFinalized);
        }
        if self.count() < self.threshold {
            return Err(FinalizeError::NotEnoughShares);
        }
        proof {
            lemma_u64_len(0);
        }
        match read_u64(&self.key_set, 0) {
            Some((n, _)) => {
                if n == 0 {
                    return Err(FinalizeError::CombineFailed);
                }
                proof {
                    if no_coefficients(self.key_set@) {
                        lemma_u64_unique(n, 0, self.key_set@, 0);
                    }
                }
            },
            None => {
                assert(!occurs_at(enc_u64(0), self.key_set@, 0));
            },
        }
        let shares = self.collect();
        let signature = match combine_signatures(&self.key_set, &shares) {
            Some(s) => s,
            None => return Err(FinalizeError::CombineFailed),
        };
        if !verify_signature(self.proof.last_key(), &signature, &self.signing) {
            return Err(FinalizeError::InvalidSignature);
        }
        let src = SrcAuthority::Section { prefix: self.prefix.copy(), signature, proof: self.proof.copy() };
        let dst_key = match &self.content.dst_key {
            Some(k) => Some(copy_bytes(k)),
            None => None,
        };
        let m = Message::new_signed(src, copy_bytes(&self.content.dst), dst_key, copy_bytes(&self.content.variant));
        self.finalized = true;
        Ok(m)
    }

    /// Removes the elder with share index `elder_index`, with any share it
    /// gave, so that a departed elder's share never enters the combination.
    pub fn remove_elder(&mut self, elder_index: u64) -> (r: bool)
        requires
            old(self).inv(),
        ensures
            final(self).inv(),
            r == (elder_slot(old(self)@.elders, elder_index) is Some),
            match elder_slot(old(self)@.elders, elder_index) {
                Some(i) => final(self)@ == (AccumulatorView {
                    elders: old(self)@.elders.remove(i),
                    shares: old(self)@.shares.remove(i),
                    ..old(self)@
                }),
                None => final(self)@ == old(self)@,
            },
    {
        let ghost v = self@;
        let i = match self.position(elder_index) {
            Some(i) => i,
            None => {
                assert(elder_slot(v.elders, elder_index) is None);
                return false;
            },
        };
        proof {
            assert(elder_slot(v.elders, elder_index) == Some(i as int));
        }
        self.elders.remove(i);
        self.shares.remove(i);
        proof {
            assert(self@.elders =~= v.elders.remove(i as int));
            assert(self@.shares =~= v.shares.remove(i as int));
            assert forall|a: int, b: int|
                0 <= a < self@.elders.len() && 0 <= b < self@.elders.len() && a != b implies #[trigger] self@.elders[a].0
                != #[trigger] self@.elders[b].0 by {
                let a0 = if a < i { a } else { a + 1 };
                let b0 = if b < i { b } else { b + 1 };
                assert(self@.elders[a] == v.elders[a0]);
                assert(self@.elders[b] == v.elders[b0]);
            }
        }
        true
    }

    /// Whether the message was finalized.
    pub fn is_finalized(&self) -> (r: bool)
        ensures
            r == self@.finalized,
    {
        self.finalized
    }
}

} // verus!
