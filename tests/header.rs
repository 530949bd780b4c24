use sha3::Digest;
use wnfs_core::accumulator::{AccumulatorSetup, Name, NameSegment};
use wnfs_core::header::{snapshot_key_of, PrivateNodeHeader};

#[test]
fn header_keys_follow_the_ratchet() {
    let setup = AccumulatorSetup::from_rsa_2048(&[11, 2]);
    let parent = Name::empty(&setup);
    let inumber = NameSegment::from_seed(b"inumber").unwrap();
    let mut a = PrivateNodeHeader::new(&parent, inumber.duplicate(), &[7u8; 32]);
    let b = PrivateNodeHeader::new(&parent, inumber.duplicate(), &[7u8; 32]);
    let c = PrivateNodeHeader::new(&parent, inumber, &[8u8; 32]);
    let key = a.derive_temporal_key();
    assert_eq!(key.len(), 32);
    assert_eq!(key, b.derive_temporal_key());
    assert_ne!(key, c.derive_temporal_key());
    assert_eq!(a.derive_snapshot_key(), sha3::Sha3_256::digest(&key).to_vec());
    let label = a.get_revision_label_hash(&setup).unwrap();
    assert_eq!(label, b.get_revision_label_hash(&setup).unwrap());
    a.advance_ratchet();
    assert_ne!(a.derive_temporal_key(), key);
    assert_ne!(a.get_revision_label_hash(&setup).unwrap(), label);
}

#[test]
fn snapshot_key_is_the_hash_of_the_temporal_key() {
    let temporal = [3u8; 32];
    assert_eq!(snapshot_key_of(&temporal), sha3::Sha3_256::digest(temporal).to_vec());
    assert_ne!(snapshot_key_of(&temporal), temporal.to_vec());
}

#[test]
fn revision_label_hash_for_matches_the_current_key() {
    let setup = AccumulatorSetup::from_rsa_2048(&[11, 2]);
    let parent = Name::empty(&setup);
    let inumber = NameSegment::from_seed(b"inumber").unwrap();
    let header = PrivateNodeHeader::new(&parent, inumber, &[7u8; 32]);
    let key = header.derive_temporal_key();
    assert_eq!(header.revision_label_hash_for(&key, &setup), header.get_revision_label_hash(&setup));
    assert_ne!(header.revision_label_hash_for(&[0u8; 32], &setup), header.get_revision_label_hash(&setup));
}
