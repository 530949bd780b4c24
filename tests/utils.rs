use wnfs_core::utils::split_last;

#[test]
fn split_last_splits_path_segments_into_tail_and_the_rest() {
    let path_segments: [String; 3] = ["a".into(), "b".into(), "c".into()];
    let (rest, last) = split_last(&path_segments).unwrap();
    assert_eq!(rest, &["a", "b"]);
    assert_eq!(last, &"c");
}

#[test]
fn split_last_refuses_an_empty_path() {
    let path_segments: [String; 0] = [];
    assert_eq!(split_last(&path_segments), Err(wnfs_core::error::FsError::InvalidPath));
}
