use routing_messages::accumulator::{
    AccumulatingMessage, Elder, FinalizeError, PlainMessage, ShareError, ShareOutcome,
};
use routing_messages::authority::{
    anchor_entry, Link, Prefix, ProofChain, RoutingError, SrcAuthority, VerifyStatus,
};
use routing_messages::message::{serialize_for_signing, FullId, Message};
use threshold_crypto::serde_impl::SerdeSecret;
use threshold_crypto::{PublicKey, SecretKey, SecretKeySet, Signature};

fn secret_bytes(sk: &SecretKey) -> Vec<u8> {
    bincode::serialize(&SerdeSecret(sk.clone())).unwrap()
}

fn pk_bytes(pk: &PublicKey) -> Vec<u8> {
    pk.to_bytes().to_vec()
}

fn sig_from(bytes: &[u8]) -> Signature {
    let mut a = [0u8; 96];
    a.copy_from_slice(bytes);
    Signature::from_bytes(a).unwrap()
}

fn dst() -> Vec<u8> {
    b"section 10".to_vec()
}

fn variant() -> Vec<u8> {
    b"join request".to_vec()
}

fn prefix(bits: &[u8]) -> Prefix {
    Prefix { bits: bits.to_vec() }
}

/// A chain of section keys: the first key, then one transition per further key.
fn chain(keys: &[SecretKey]) -> ProofChain {
    let mut links = Vec::new();
    for i in 1..keys.len() {
        let key = pk_bytes(&keys[i].public_key());
        let signature = keys[i - 1].sign(&key).to_bytes().to_vec();
        links.push(Link { key, signature });
    }
    ProofChain { head: pk_bytes(&keys[0].public_key()), links }
}

fn section_message(keys: &[SecretKey], dst_key: Option<Vec<u8>>) -> Message {
    let signed = serialize_for_signing(&dst(), &dst_key, &variant());
    let signature = keys[keys.len() - 1].sign(&signed).to_bytes().to_vec();
    let src = SrcAuthority::Section { prefix: prefix(&[0, 1]), signature, proof: chain(keys) };
    Message::new_signed(src, dst(), dst_key, variant())
}

#[test]
fn node_message_round_trips_through_wire_bytes() {
    let sk = SecretKey::random();
    let id = FullId { secret_key: secret_bytes(&sk) };
    let dst_key = Some(pk_bytes(&SecretKey::random().public_key()));
    let msg = Message::single_src(&id, dst(), dst_key.clone(), variant()).unwrap();
    let bytes = msg.to_bytes();
    let back = Message::from_bytes(&bytes).unwrap();
    assert_eq!(back.dst(), &dst());
    assert_eq!(back.variant(), &variant());
    assert_eq!(back.dst_key(), &dst_key);
    assert_eq!(back.hash(), msg.hash());
    assert_eq!(back.to_bytes(), bytes);
    assert_eq!(msg.verify(&vec![]), Ok(VerifyStatus::Full));
    assert_eq!(back.verify(&vec![]), Ok(VerifyStatus::Full));
    match back.src() {
        SrcAuthority::Node { public_id, .. } => assert_eq!(public_id, &pk_bytes(&sk.public_key())),
        _ => panic!("expected a node authority"),
    }
}

#[test]
fn absent_destination_key_round_trips_as_absent() {
    let id = FullId { secret_key: secret_bytes(&SecretKey::random()) };
    let msg = Message::single_src(&id, dst(), None, variant()).unwrap();
    let back = Message::from_bytes(&msg.to_bytes()).unwrap();
    assert_eq!(back.dst_key(), &None);
}

#[test]
fn section_message_round_trips_with_same_status() {
    let keys: Vec<SecretKey> = (0..3).map(|_| SecretKey::random()).collect();
    let msg = section_message(&keys, None);
    let table = vec![(prefix(&[0]), pk_bytes(&keys[1].public_key()))];
    let back = Message::from_bytes(&msg.to_bytes()).unwrap();
    assert_eq!(msg.verify(&table), Ok(VerifyStatus::Full));
    assert_eq!(back.verify(&table), Ok(VerifyStatus::Full));
    assert_eq!(back.hash(), msg.hash());
}

#[test]
fn signature_covers_destination_key_and_payload_but_not_source() {
    let a = SecretKey::random();
    let b = SecretKey::random();
    let ma = Message::single_src(&FullId { secret_key: secret_bytes(&a) }, dst(), None, variant()).unwrap();
    let mb = Message::single_src(&FullId { secret_key: secret_bytes(&b) }, dst(), None, variant()).unwrap();
    let signed = serialize_for_signing(&dst(), &None, &variant());
    let sig_a = match ma.src() {
        SrcAuthority::Node { signature, .. } => sig_from(signature),
        _ => panic!("expected a node authority"),
    };
    let sig_b = match mb.src() {
        SrcAuthority::Node { signature, .. } => sig_from(signature),
        _ => panic!("expected a node authority"),
    };
    assert!(a.public_key().verify(&sig_a, &signed));
    assert!(b.public_key().verify(&sig_b, &signed));
    assert_ne!(ma.to_bytes(), mb.to_bytes());
    assert_ne!(ma.hash(), mb.hash());
}

#[test]
fn signing_bytes_encode_the_fields() {
    let signed = serialize_for_signing(&vec![7], &None, &vec![1, 2]);
    assert_eq!(signed, vec![1, 0, 0, 0, 0, 0, 0, 0, 7, 0, 2, 0, 0, 0, 0, 0, 0, 0, 1, 2]);
    let with_key = serialize_for_signing(&vec![], &Some(vec![9]), &vec![]);
    assert_eq!(with_key, vec![0, 0, 0, 0, 0, 0, 0, 0, 1, 1, 0, 0, 0, 0, 0, 0, 0, 9, 0, 0, 0, 0, 0, 0, 0, 0]);
}

#[test]
fn node_message_is_fully_trusted_under_any_table() {
    let id = FullId { secret_key: secret_bytes(&SecretKey::random()) };
    let msg = Message::single_src(&id, dst(), None, variant()).unwrap();
    let other = SecretKey::random();
    let table = vec![(prefix(&[1, 1]), pk_bytes(&other.public_key()))];
    assert_eq!(msg.verify(&vec![]), Ok(VerifyStatus::Full));
    assert_eq!(msg.verify(&table), Ok(VerifyStatus::Full));
}

#[test]
fn node_message_with_foreign_signature_is_rejected() {
    let a = SecretKey::random();
    let b = SecretKey::random();
    let signed = serialize_for_signing(&dst(), &None, &variant());
    let src = SrcAuthority::Node {
        public_id: pk_bytes(&a.public_key()),
        signature: b.sign(&signed).to_bytes().to_vec(),
    };
    let msg = Message::new_signed(src, dst(), None, variant());
    assert_eq!(msg.verify(&vec![]), Err(RoutingError::FailedSignature));
    assert_eq!(Message::from_bytes(&msg.to_bytes()).err(), Some(RoutingError::FailedSignature));
}

#[test]
fn chain_anchored_at_any_position_is_fully_trusted() {
    let keys: Vec<SecretKey> = (0..4).map(|_| SecretKey::random()).collect();
    let msg = section_message(&keys, None);
    for k in &keys {
        let table = vec![(prefix(&[0, 1]), pk_bytes(&k.public_key()))];
        assert_eq!(msg.verify(&table), Ok(VerifyStatus::Full));
    }
}

#[test]
fn chain_without_trusted_key_is_unknown() {
    let keys: Vec<SecretKey> = (0..3).map(|_| SecretKey::random()).collect();
    let msg = section_message(&keys, None);
    assert_eq!(msg.verify(&vec![]), Ok(VerifyStatus::Unknown));
    let stranger = vec![(prefix(&[0, 1]), pk_bytes(&SecretKey::random().public_key()))];
    assert_eq!(msg.verify(&stranger), Ok(VerifyStatus::Unknown));
    assert_eq!(msg.verify(&vec![]).unwrap().require_full(), Err(RoutingError::UntrustedMessage));
}

#[test]
fn trusted_key_of_an_unrelated_prefix_does_not_anchor() {
    let keys: Vec<SecretKey> = (0..2).map(|_| SecretKey::random()).collect();
    let msg = section_message(&keys, None);
    let table = vec![(prefix(&[1]), pk_bytes(&keys[0].public_key()))];
    assert_eq!(msg.verify(&table), Ok(VerifyStatus::Unknown));
    let longer = vec![(prefix(&[0, 1, 0]), pk_bytes(&keys[0].public_key()))];
    assert_eq!(msg.verify(&longer), Ok(VerifyStatus::Unknown));
}

#[test]
fn tampered_chain_link_is_rejected() {
    let keys: Vec<SecretKey> = (0..3).map(|_| SecretKey::random()).collect();
    let signed = serialize_for_signing(&dst(), &None, &variant());
    let mut proof = chain(&keys);
    proof.links[0].signature = keys[2].sign(&proof.links[0].key).to_bytes().to_vec();
    let src = SrcAuthority::Section {
        prefix: prefix(&[0, 1]),
        signature: keys[2].sign(&signed).to_bytes().to_vec(),
        proof,
    };
    let msg = Message::new_signed(src, dst(), None, variant());
    let table = vec![(prefix(&[0]), pk_bytes(&keys[0].public_key()))];
    assert_eq!(msg.verify(&table), Err(RoutingError::FailedSignature));
    assert_eq!(msg.verify(&vec![]), Err(RoutingError::FailedSignature));
}

#[test]
fn section_message_not_signed_by_last_key_is_rejected() {
    let keys: Vec<SecretKey> = (0..2).map(|_| SecretKey::random()).collect();
    let signed = serialize_for_signing(&dst(), &None, &variant());
    let src = SrcAuthority::Section {
        prefix: prefix(&[]),
        signature: keys[0].sign(&signed).to_bytes().to_vec(),
        proof: chain(&keys),
    };
    let msg = Message::new_signed(src, dst(), None, variant());
    assert_eq!(msg.verify(&vec![]), Err(RoutingError::FailedSignature));
    assert_eq!(Message::from_bytes(&msg.to_bytes()).err(), Some(RoutingError::FailedSignature));
}

#[test]
fn malformed_bytes_are_not_a_message() {
    assert_eq!(Message::from_bytes(&vec![]).err(), Some(RoutingError::InvalidMessage));
    assert_eq!(Message::from_bytes(&vec![1, 2, 3]).err(), Some(RoutingError::InvalidMessage));
    let id = FullId { secret_key: secret_bytes(&SecretKey::random()) };
    let mut bytes = Message::single_src(&id, dst(), None, variant()).unwrap().to_bytes();
    bytes.push(0);
    assert_eq!(Message::from_bytes(&bytes).err(), Some(RoutingError::InvalidMessage));
    bytes.truncate(bytes.len() - 2);
    assert_eq!(Message::from_bytes(&bytes).err(), Some(RoutingError::InvalidMessage));
}

#[test]
fn invalid_secret_key_cannot_sign() {
    let id = FullId { secret_key: vec![1, 2, 3] };
    assert_eq!(Message::single_src(&id, dst(), None, variant()).err(), Some(RoutingError::InvalidSecretKey));
}

#[test]
fn hash_is_a_digest_of_the_wire_bytes() {
    let id = FullId { secret_key: secret_bytes(&SecretKey::random()) };
    let msg = Message::single_src(&id, dst(), None, variant()).unwrap();
    assert_eq!(msg.hash().len(), 32);
    let expected = xor_name::XorName::from_content(&[&msg.to_bytes()]);
    assert_eq!(msg.hash(), &expected.0.to_vec());
}

#[test]
fn require_full_accepts_only_full_trust() {
    assert_eq!(VerifyStatus::Full.require_full(), Ok(()));
    assert_eq!(VerifyStatus::Unknown.require_full(), Err(RoutingError::UntrustedMessage));
}

struct Section {
    keys: SecretKeySet,
}

impl Section {
    fn new() -> Section {
        Section { keys: SecretKeySet::random(1, &mut rand::thread_rng()) }
    }

    fn accumulator(&self, dst_key: Option<Vec<u8>>, threshold: usize) -> AccumulatingMessage {
        let pk_set = self.keys.public_keys();
        let elders = (0..3u64)
            .map(|i| Elder { index: i, key_share: pk_set.public_key_share(i).to_bytes().to_vec() })
            .collect();
        let content = PlainMessage { dst: dst(), dst_key, variant: variant() };
        let proof = ProofChain { head: pk_bytes(&pk_set.public_key()), links: vec![] };
        AccumulatingMessage::new(content, elders, threshold, bincode::serialize(&pk_set).unwrap(), prefix(&[1]), proof)
    }

    fn share(&self, i: u64, dst_key: &Option<Vec<u8>>) -> Vec<u8> {
        let signed = serialize_for_signing(&dst(), dst_key, &variant());
        self.keys.secret_key_share(i).sign(&signed).to_bytes().to_vec()
    }
}

#[test]
fn late_share_after_quorum_is_a_no_op() {
    let section = Section::new();
    let mut acc = section.accumulator(None, 2);
    assert_eq!(acc.add_share(0, section.share(0, &None)), Ok(ShareOutcome::Added));
    assert_eq!(acc.try_finalize().err(), Some(FinalizeError::NotEnoughShares));
    assert_eq!(acc.add_share(1, section.share(1, &None)), Ok(ShareOutcome::Added));
    let msg = acc.try_finalize().unwrap();
    let hash = msg.hash().clone();
    assert!(acc.is_finalized());
    assert_eq!(acc.add_share(2, section.share(2, &None)), Ok(ShareOutcome::Ignored));
    assert_eq!(msg.hash(), &hash);
    assert_eq!(msg.dst_key(), &None);
    assert!(matches!(msg.src(), SrcAuthority::Section { .. }));
    let table = vec![(prefix(&[]), pk_bytes(&section.keys.public_keys().public_key()))];
    assert_eq!(msg.verify(&table), Ok(VerifyStatus::Full));
    let back = Message::from_bytes(&msg.to_bytes()).unwrap();
    assert_eq!(back.hash(), &hash);
}

#[test]
fn finalized_signature_verifies_under_section_key() {
    let section = Section::new();
    let mut acc = section.accumulator(None, 2);
    acc.add_share(2, section.share(2, &None)).unwrap();
    acc.add_share(0, section.share(0, &None)).unwrap();
    let msg = acc.try_finalize().unwrap();
    let signed = serialize_for_signing(&dst(), &None, &variant());
    match msg.src() {
        SrcAuthority::Section { signature, .. } => {
            assert!(section.keys.public_keys().public_key().verify(&sig_from(signature), &signed))
        }
        _ => panic!("expected a section authority"),
    }
}

#[test]
fn second_finalize_is_rejected() {
    let section = Section::new();
    let mut acc = section.accumulator(None, 2);
    acc.add_share(0, section.share(0, &None)).unwrap();
    acc.add_share(1, section.share(1, &None)).unwrap();
    assert!(acc.try_finalize().is_ok());
    assert_eq!(acc.try_finalize().err(), Some(FinalizeError::AlreadyFinalized));
}

#[test]
fn finalized_signature_does_not_depend_on_share_order() {
    let section = Section::new();
    let key = Some(pk_bytes(&SecretKey::random().public_key()));
    let mut first = section.accumulator(key.clone(), 2);
    first.add_share(0, section.share(0, &key)).unwrap();
    first.add_share(1, section.share(1, &key)).unwrap();
    let mut second = section.accumulator(key.clone(), 2);
    second.add_share(1, section.share(1, &key)).unwrap();
    second.add_share(0, section.share(0, &key)).unwrap();
    let a = first.try_finalize().unwrap();
    let b = second.try_finalize().unwrap();
    assert_eq!(a.to_bytes(), b.to_bytes());
    assert_eq!(a.hash(), b.hash());
}

#[test]
fn threshold_of_three_needs_three_shares() {
    let section = Section::new();
    let mut acc = section.accumulator(None, 3);
    acc.add_share(0, section.share(0, &None)).unwrap();
    acc.add_share(1, section.share(1, &None)).unwrap();
    assert_eq!(acc.try_finalize().err(), Some(FinalizeError::NotEnoughShares));
    acc.add_share(2, section.share(2, &None)).unwrap();
    assert!(acc.try_finalize().is_ok());
}

#[test]
fn duplicate_share_is_ignored() {
    let section = Section::new();
    let mut acc = section.accumulator(None, 2);
    assert_eq!(acc.add_share(0, section.share(0, &None)), Ok(ShareOutcome::Added));
    assert_eq!(acc.add_share(0, section.share(0, &None)), Ok(ShareOutcome::Duplicate));
    assert_eq!(acc.try_finalize().err(), Some(FinalizeError::NotEnoughShares));
}

#[test]
fn share_from_unknown_elder_is_rejected() {
    let section = Section::new();
    let mut acc = section.accumulator(None, 2);
    assert_eq!(acc.add_share(7, section.share(7, &None)), Err(ShareError::UnknownElder));
}

#[test]
fn share_that_does_not_verify_is_rejected() {
    let section = Section::new();
    let mut acc = section.accumulator(None, 2);
    assert_eq!(acc.add_share(0, section.share(1, &None)), Err(ShareError::InvalidShare));
    assert_eq!(acc.add_share(0, vec![0; 96]), Err(ShareError::InvalidShare));
    assert_eq!(acc.add_share(0, section.share(0, &None)), Ok(ShareOutcome::Added));
}

#[test]
fn combined_signature_under_a_foreign_chain_is_rejected() {
    let section = Section::new();
    let pk_set = section.keys.public_keys();
    let elders = (0..3u64)
        .map(|i| Elder { index: i, key_share: pk_set.public_key_share(i).to_bytes().to_vec() })
        .collect();
    let content = PlainMessage { dst: dst(), dst_key: None, variant: variant() };
    let proof = ProofChain { head: pk_bytes(&SecretKey::random().public_key()), links: vec![] };
    let mut acc = AccumulatingMessage::new(content, elders, 2, bincode::serialize(&pk_set).unwrap(), prefix(&[]), proof);
    acc.add_share(0, section.share(0, &None)).unwrap();
    acc.add_share(1, section.share(1, &None)).unwrap();
    assert_eq!(acc.try_finalize().err(), Some(FinalizeError::InvalidSignature));
    assert!(!acc.is_finalized());
}

#[test]
fn too_few_shares_for_the_key_set_fail_to_combine() {
    let section = Section::new();
    let mut acc = section.accumulator(None, 1);
    acc.add_share(0, section.share(0, &None)).unwrap();
    assert_eq!(acc.try_finalize().err(), Some(FinalizeError::CombineFailed));
}

#[test]
fn removed_elder_share_is_not_combined() {
    let section = Section::new();
    let mut acc = section.accumulator(None, 2);
    acc.add_share(0, section.share(0, &None)).unwrap();
    acc.add_share(1, section.share(1, &None)).unwrap();
    assert!(acc.remove_elder(1));
    assert!(!acc.remove_elder(1));
    assert_eq!(acc.try_finalize().err(), Some(FinalizeError::NotEnoughShares));
    assert_eq!(acc.add_share(1, section.share(1, &None)), Err(ShareError::UnknownElder));
    assert_eq!(acc.add_share(2, section.share(2, &None)), Ok(ShareOutcome::Added));
    assert!(acc.try_finalize().is_ok());
}

#[test]
fn key_set_without_coefficients_fails_to_combine() {
    let section = Section::new();
    let pk_set = section.keys.public_keys();
    let elders = (0..3u64)
        .map(|i| Elder { index: i, key_share: pk_set.public_key_share(i).to_bytes().to_vec() })
        .collect();
    let content = PlainMessage { dst: dst(), dst_key: None, variant: variant() };
    let proof = ProofChain { head: pk_bytes(&pk_set.public_key()), links: vec![] };
    let mut acc = AccumulatingMessage::new(content, elders, 2, vec![0; 8], prefix(&[]), proof);
    acc.add_share(0, section.share(0, &None)).unwrap();
    acc.add_share(1, section.share(1, &None)).unwrap();
    assert_eq!(acc.try_finalize().err(), Some(FinalizeError::CombineFailed));
    assert!(!acc.is_finalized());
}

#[test]
fn longest_anchoring_prefix_is_preferred() {
    let keys: Vec<SecretKey> = (0..3).map(|_| SecretKey::random()).collect();
    let proof = chain(&keys);
    let table = vec![
        (prefix(&[0]), pk_bytes(&keys[0].public_key())),
        (prefix(&[0, 1]), pk_bytes(&keys[1].public_key())),
        (prefix(&[0, 1, 1]), pk_bytes(&keys[2].public_key())),
        (prefix(&[]), pk_bytes(&keys[2].public_key())),
        (prefix(&[0, 1]), pk_bytes(&SecretKey::random().public_key())),
    ];
    assert_eq!(anchor_entry(&prefix(&[0, 1]), &proof, &table), Some(1));
    assert_eq!(anchor_entry(&prefix(&[1]), &proof, &table), Some(3));
    assert_eq!(anchor_entry(&prefix(&[0, 1]), &proof, &vec![]), None);
}
