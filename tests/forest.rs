use wnfs_core::forest::{kv_diff, ChangeType};
use wnfs_core::blockstore::{MemoryBlockStore, MAX_BLOCK_SIZE};
use wnfs_core::cid::{Cid, Codec};
use wnfs_core::error::FsError;
use sha3::Digest;
use wnfs_core::forest::PrivateForest;

fn cid(b: u8) -> Cid {
    Cid::from_bytes(vec![1, 0x55, 0x12, 32, b])
}

fn sorted(v: &[Cid]) -> Vec<Vec<u8>> {
    let mut r: Vec<Vec<u8>> = v.iter().map(|c| c.as_bytes().to_vec()).collect();
    r.sort();
    r
}

#[test]
fn forest_put_then_get_returns_the_set() {
    let mut forest = PrivateForest::new();
    forest.put_encrypted_by_hash(&[7u8; 32], &[cid(1)]);
    let got = forest.get_encrypted(&[7u8; 32]).unwrap();
    assert_eq!(sorted(got), vec![cid(1).as_bytes().to_vec()]);
    assert!(forest.get_encrypted(&[8u8; 32]).is_none());
    assert!(forest.has(&[7u8; 32]));
}

#[test]
fn forest_keeps_concurrent_writes_under_one_label() {
    let mut forest = PrivateForest::new();
    forest.put_encrypted_by_hash(&[7u8; 32], &[cid(1)]);
    forest.put_encrypted_by_hash(&[7u8; 32], &[cid(2), cid(1)]);
    let got = forest.get_encrypted(&[7u8; 32]).unwrap();
    assert_eq!(sorted(got), vec![cid(1).as_bytes().to_vec(), cid(2).as_bytes().to_vec()]);
    assert_eq!(PrivateForest::resolve_lowest(got).unwrap(), &cid(1));
    assert!(PrivateForest::resolve_single(got).is_none());
    assert_eq!(PrivateForest::resolve_one_of(got, &[cid(2), cid(9)]).unwrap(), &cid(2));
    assert!(PrivateForest::resolve_one_of(got, &[cid(9)]).is_none());
}

#[test]
fn forest_put_hashes_the_label() {
    let mut forest = PrivateForest::new();
    forest.put_encrypted(b"label", &[cid(3)]);
    assert!(!forest.has(b"label"));
    let hash = sha3::Sha3_256::digest(b"label").to_vec();
    assert!(forest.has(&hash));
}

#[test]
fn forest_remove_takes_the_set_out() {
    let mut forest = PrivateForest::new();
    forest.put_encrypted_by_hash(&[1u8; 32], &[cid(1)]);
    let removed = forest.remove_encrypted(&[1u8; 32]).unwrap();
    assert_eq!(sorted(&removed), vec![cid(1).as_bytes().to_vec()]);
    assert!(forest.get_encrypted(&[1u8; 32]).is_none());
    assert!(forest.remove_encrypted(&[1u8; 32]).is_none());
}

#[test]
fn forest_merge_is_a_union_in_either_order() {
    let mut a = PrivateForest::new();
    a.put_encrypted_by_hash(&[1u8; 32], &[cid(1)]);
    a.put_encrypted_by_hash(&[2u8; 32], &[cid(2)]);
    let mut b = PrivateForest::new();
    b.put_encrypted_by_hash(&[2u8; 32], &[cid(3)]);
    b.put_encrypted_by_hash(&[4u8; 32], &[cid(4)]);
    let ab = a.merge(&b);
    let ba = b.merge(&a);
    for key in [[1u8; 32], [2u8; 32], [4u8; 32]] {
        assert_eq!(sorted(ab.get_encrypted(&key).unwrap()), sorted(ba.get_encrypted(&key).unwrap()));
    }
    assert_eq!(sorted(ab.get_encrypted(&[2u8; 32]).unwrap()).len(), 2);
    let aa = a.merge(&a);
    assert_eq!(sorted(aa.get_encrypted(&[1u8; 32]).unwrap()), sorted(a.get_encrypted(&[1u8; 32]).unwrap()));
    assert_eq!(sorted(aa.get_encrypted(&[2u8; 32]).unwrap()).len(), 1);
}

#[test]
fn blockstore_put_then_get() {
    let mut store = MemoryBlockStore::new();
    let first = store.put_block(vec![1, 2, 3, 4, 5], Codec::DagCbor).unwrap();
    let second = store.put_block(b"hello world".to_vec(), Codec::Raw).unwrap();
    assert_eq!(store.get_block(&first).unwrap(), &vec![1, 2, 3, 4, 5]);
    assert_eq!(store.get_block(&second).unwrap(), &b"hello world".to_vec());
    assert_eq!(first.as_bytes().len(), 36);
    assert_eq!(&first.as_bytes()[..4], &[1, 0x71, 0x12, 32]);
    assert_eq!(&second.as_bytes()[..4], &[1, 0x55, 0x12, 32]);
    assert_ne!(first, second);
    assert_eq!(store.get_block(&cid(9)), Err(FsError::BlockNotFound));
    assert_eq!(store.put_block(vec![0; MAX_BLOCK_SIZE + 1], Codec::Raw), Err(FsError::BlockTooLarge));
}

#[test]
fn blockstore_identifiers_hash_the_content() {
    let a = MemoryBlockStore::block_cid(b"abc", Codec::Raw);
    let b = MemoryBlockStore::block_cid(b"abc", Codec::Raw);
    let c = MemoryBlockStore::block_cid(b"abd", Codec::Raw);
    assert_eq!(a, b);
    assert_ne!(a, c);
    // SHA2-256("abc")
    assert_eq!(&a.as_bytes()[4..8], &[0xba, 0x78, 0x16, 0xbf]);
}

#[test]
fn kv_diff_reports_added_removed_and_modified_labels() {
    let mut main = PrivateForest::new();
    main.put_encrypted_by_hash(&[1u8; 32], &[cid(1)]);
    main.put_encrypted_by_hash(&[2u8; 32], &[cid(2)]);
    main.put_encrypted_by_hash(&[5u8; 32], &[cid(5), cid(6)]);
    let mut other = PrivateForest::new();
    other.put_encrypted_by_hash(&[2u8; 32], &[cid(3)]);
    other.put_encrypted_by_hash(&[3u8; 32], &[cid(4)]);
    other.put_encrypted_by_hash(&[5u8; 32], &[cid(6), cid(5)]);
    let mut changes = kv_diff(&main, &other);
    changes.sort_by(|a, b| a.key.cmp(&b.key));
    assert_eq!(changes.len(), 3);
    assert_eq!(changes[0].kind, ChangeType::Add);
    assert_eq!(changes[0].key, vec![1u8; 32]);
    assert_eq!(sorted(changes[0].value1.as_ref().unwrap()), vec![cid(1).as_bytes().to_vec()]);
    assert_eq!(changes[1].kind, ChangeType::Modify);
    assert_eq!(sorted(changes[1].value2.as_ref().unwrap()), vec![cid(3).as_bytes().to_vec()]);
    assert_eq!(changes[2].kind, ChangeType::Remove);
    assert_eq!(changes[2].key, vec![3u8; 32]);
    assert_eq!(kv_diff(&main, &main).len(), 0);
}
