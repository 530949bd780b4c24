use sha3::Digest;
use wnfs_core::accumulator::{AccumulatorSetup, NameAccumulator};
use wnfs_core::blockstore::MemoryBlockStore;
use wnfs_core::cid::Codec;
use wnfs_core::forest::PrivateForest;
use wnfs_core::shard::{create_revision_name, generate_shard_labels, put_shards, read_shards};
use wnfs_core::shard::{block_count, join_shards, split_into_shards, MAX_BLOCK_CONTENT_SIZE};

#[test]
fn shard_size_leaves_room_for_nonce_and_tag() {
    assert_eq!(MAX_BLOCK_CONTENT_SIZE, 262144 - 12 - 16);
}

#[test]
fn block_count_rounds_up() {
    assert_eq!(block_count(0, 10), 0);
    assert_eq!(block_count(1, 10), 1);
    assert_eq!(block_count(10, 10), 1);
    assert_eq!(block_count(11, 10), 2);
    assert_eq!(block_count(usize::MAX, 2), usize::MAX / 2 + 1);
}

#[test]
fn three_shard_file_round_trips() {
    let content: Vec<u8> = (0..3 * MAX_BLOCK_CONTENT_SIZE).map(|i| (i % 251) as u8).collect();
    let shards = split_into_shards(&content, MAX_BLOCK_CONTENT_SIZE);
    assert_eq!(shards.len(), 3);
    assert_eq!(shards.len(), block_count(content.len(), MAX_BLOCK_CONTENT_SIZE));
    assert!(shards.iter().all(|s| s.len() == MAX_BLOCK_CONTENT_SIZE));
    assert_eq!(join_shards(&shards, 0), content);
    assert_eq!(join_shards(&shards, 2), content[2 * MAX_BLOCK_CONTENT_SIZE..].to_vec());
    assert_eq!(join_shards(&shards, 7), Vec::<u8>::new());
}

#[test]
fn short_last_shard() {
    let content: Vec<u8> = (0..25u8).collect();
    let shards = split_into_shards(&content, 10);
    assert_eq!(shards.len(), 3);
    assert_eq!(shards[2], (20..25u8).collect::<Vec<u8>>());
    assert_eq!(join_shards(&shards, 0), content);
    assert_eq!(split_into_shards(&[], 10).len(), 0);
}

#[test]
fn shards_are_stored_under_their_labels() {
    let setup = AccumulatorSetup::from_rsa_2048(&[9, 9]);
    let file_name = NameAccumulator::empty(&setup);
    let key = [4u8; 32];
    let revision = create_revision_name(&file_name, &key, &setup).unwrap();
    assert!(!revision.same_as(&file_name));
    let labels = generate_shard_labels(&key, 3, &revision, &setup).unwrap();
    assert_eq!(labels.len(), 3);
    assert!(!labels[0].same_as(&labels[1]) && !labels[1].same_as(&labels[2]));
    let content: Vec<u8> = (0..2 * MAX_BLOCK_CONTENT_SIZE + 5).map(|i| (i % 253) as u8).collect();
    let mut forest = PrivateForest::new();
    let mut store = MemoryBlockStore::new();
    assert_eq!(put_shards(&content, &key, &revision, &setup, &mut forest, &mut store), Ok(3));
    let shards = split_into_shards(&content, MAX_BLOCK_CONTENT_SIZE);
    for (i, label) in labels.iter().enumerate() {
        let hash = sha3::Sha3_256::digest(label.as_bytes()).to_vec();
        let cids = forest.get_encrypted(&hash).unwrap();
        let expected = MemoryBlockStore::block_cid(&shards[i], Codec::Raw);
        assert!(cids.iter().any(|c| c == &expected));
        assert_eq!(store.get_block(&expected).unwrap(), &shards[i]);
    }
}

#[test]
fn three_shard_file_reads_back_from_the_forest() {
    let setup = AccumulatorSetup::from_rsa_2048(&[3, 1]);
    let file_name = NameAccumulator::empty(&setup);
    let key = [6u8; 32];
    let revision = create_revision_name(&file_name, &key, &setup).unwrap();
    let content: Vec<u8> = (0..3 * MAX_BLOCK_CONTENT_SIZE).map(|i| (i % 241) as u8).collect();
    let mut forest = PrivateForest::new();
    let mut store = MemoryBlockStore::new();
    let count = put_shards(&content, &key, &revision, &setup, &mut forest, &mut store).unwrap();
    assert_eq!(count, 3);
    assert_eq!(read_shards(&key, 0, 3, &revision, &setup, &forest, &store).unwrap(), content);
    assert_eq!(read_shards(&key, 2, 3, &revision, &setup, &forest, &store).unwrap(), content[2 * MAX_BLOCK_CONTENT_SIZE..].to_vec());
    assert_eq!(read_shards(&key, 1, 2, &revision, &setup, &forest, &store).unwrap(), content[MAX_BLOCK_CONTENT_SIZE..2 * MAX_BLOCK_CONTENT_SIZE].to_vec());
    assert_eq!(read_shards(&key, 5, 3, &revision, &setup, &forest, &store).unwrap(), Vec::<u8>::new());
    assert!(read_shards(&key, 0, 4, &revision, &setup, &forest, &store).is_err());
    assert_eq!(read_shards(&[7u8; 32], 0, 1, &revision, &setup, &forest, &store), Err(wnfs_core::error::FsError::FileShardNotFound));
}

#[test]
fn two_shard_file_streams_from_any_index() {
    let setup = AccumulatorSetup::from_rsa_2048(&[2, 7]);
    let revision = create_revision_name(&NameAccumulator::empty(&setup), &[1u8; 32], &setup).unwrap();
    let content: Vec<u8> = (0..MAX_BLOCK_CONTENT_SIZE + 10).map(|i| (i % 7) as u8).collect();
    let mut forest = PrivateForest::new();
    let mut store = MemoryBlockStore::new();
    assert_eq!(put_shards(&content, &[1u8; 32], &revision, &setup, &mut forest, &mut store), Ok(2));
    assert_eq!(read_shards(&[1u8; 32], 0, 2, &revision, &setup, &forest, &store).unwrap(), content);
    assert_eq!(read_shards(&[1u8; 32], 1, 2, &revision, &setup, &forest, &store).unwrap(), content[MAX_BLOCK_CONTENT_SIZE..].to_vec());
    let mut empty_forest = PrivateForest::new();
    assert_eq!(put_shards(&[], &[1u8; 32], &revision, &setup, &mut empty_forest, &mut store), Ok(0));
    assert_eq!(read_shards(&[1u8; 32], 0, 0, &revision, &setup, &empty_forest, &store).unwrap(), Vec::<u8>::new());
}
