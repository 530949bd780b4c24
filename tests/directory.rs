use wnfs_core::directory::OpResult;
use wnfs_core::error::FsError;
use wnfs_core::history::PrivateNodeHistory;
use wnfs_core::node::{NodeKind, PrivateDirectory, PrivateNode};
use wnfs_core::store::NodeStore;

fn path(segments: &[&str]) -> Vec<String> {
    segments.iter().map(|s| s.to_string()).collect()
}

fn content_of(node: &PrivateNode) -> Vec<u8> {
    match node {
        PrivateNode::File(f) => f.get_content().clone(),
        PrivateNode::Dir(_) => panic!("expected a file"),
    }
}

#[test]
fn new_file_reads_back_empty() {
    let mut store = NodeStore::new();
    let root = PrivateDirectory::new(0);
    let root = root.write(&path(&["empty.txt"]), 0, vec![], &mut store).unwrap();
    assert_eq!(root.read(&path(&["empty.txt"]), &store).unwrap(), Vec::<u8>::new());
}

#[test]
fn write_then_read_returns_the_content() {
    let mut store = NodeStore::new();
    let root = PrivateDirectory::new(0);
    let root = root.write(&path(&["Docs", "Notes.md"]), 1, b"Hello".to_vec(), &mut store).unwrap();
    assert_eq!(root.read(&path(&["Docs", "Notes.md"]), &store).unwrap(), b"Hello".to_vec());
    let root = root.write(&path(&["Docs", "Notes.md"]), 2, b"World".to_vec(), &mut store).unwrap();
    assert_eq!(root.read(&path(&["Docs", "Notes.md"]), &store).unwrap(), b"World".to_vec());
}

#[test]
fn unrelated_writes_keep_each_other() {
    let mut store = NodeStore::new();
    let root = PrivateDirectory::new(0);
    let root = root.write(&path(&["a", "x.txt"]), 1, b"one".to_vec(), &mut store).unwrap();
    let root = root.write(&path(&["a", "y.txt"]), 2, b"two".to_vec(), &mut store).unwrap();
    let root = root.write(&path(&["b", "z.txt"]), 3, b"three".to_vec(), &mut store).unwrap();
    assert_eq!(root.read(&path(&["a", "x.txt"]), &store).unwrap(), b"one".to_vec());
    assert_eq!(root.read(&path(&["a", "y.txt"]), &store).unwrap(), b"two".to_vec());
    assert_eq!(root.read(&path(&["b", "z.txt"]), &store).unwrap(), b"three".to_vec());
}

#[test]
fn read_reports_each_error() {
    let mut store = NodeStore::new();
    let root = PrivateDirectory::new(0);
    let root = root.write(&path(&["dir", "file"]), 1, b"x".to_vec(), &mut store).unwrap();
    assert_eq!(root.read(&path(&[]), &store), Err(FsError::InvalidPath));
    assert_eq!(root.read(&path(&["dir"]), &store), Err(FsError::NotAFile));
    assert_eq!(root.read(&path(&["dir", "missing"]), &store), Err(FsError::NotFound));
    assert_eq!(root.read(&path(&["nowhere", "file"]), &store), Err(FsError::NotFound));
    assert_eq!(root.read(&path(&["dir", "file", "below"]), &store), Err(FsError::NotFound));
}

#[test]
fn write_reports_each_error() {
    let mut store = NodeStore::new();
    let root = PrivateDirectory::new(0);
    let root = root.write(&path(&["dir", "file"]), 1, b"x".to_vec(), &mut store).unwrap();
    let before = store.len();
    assert!(matches!(root.write(&path(&[]), 2, vec![], &mut store), Err(FsError::InvalidPath)));
    assert!(matches!(root.write(&path(&["dir"]), 2, vec![], &mut store), Err(FsError::DirectoryAlreadyExists)));
    assert!(matches!(root.write(&path(&["dir", "file", "below"]), 2, vec![], &mut store), Err(FsError::InvalidPath)));
    assert_eq!(store.len(), before);
}

#[test]
fn mkdir_then_ls() {
    let mut store = NodeStore::new();
    let root = PrivateDirectory::new(0);
    let root = root.mkdir(&path(&["a", "b"]), 5, &mut store).unwrap();
    let entries = root.ls(&path(&["a"]), &store).unwrap();
    assert_eq!(entries.len(), 1);
    assert_eq!(entries[0].0, "b");
    assert_eq!(entries[0].1.kind, NodeKind::Dir);
    assert_eq!(root.ls(&path(&["a", "b"]), &store).unwrap().len(), 0);
    assert_eq!(root.ls(&path(&["c"]), &store), Err(FsError::NotFound));
}

#[test]
fn ls_lists_files_and_directories() {
    let mut store = NodeStore::new();
    let root = PrivateDirectory::new(0);
    let root = root.mkdir(&path(&["pictures", "cats"]), 1, &mut store).unwrap();
    let root = root.write(&path(&["pictures", "puppy.jpg"]), 2, b"woof".to_vec(), &mut store).unwrap();
    let entries = root.ls(&path(&["pictures"]), &store).unwrap();
    assert_eq!(entries.len(), 2);
    assert_eq!(entries[0].0, "cats");
    assert_eq!(entries[0].1.kind, NodeKind::Dir);
    assert_eq!(entries[1].0, "puppy.jpg");
    assert_eq!(entries[1].1.kind, NodeKind::File);
    assert_eq!(entries[1].1.created, 2);
    assert_eq!(root.ls(&path(&["pictures", "puppy.jpg"]), &store), Err(FsError::NotFound));
}

#[test]
fn rm_removes_children() {
    let mut store = NodeStore::new();
    let root = PrivateDirectory::new(0);
    let root = root.write(&path(&["pictures", "puppy.jpg"]), 1, b"woof".to_vec(), &mut store).unwrap();
    let root = root.mkdir(&path(&["pictures", "cats"]), 2, &mut store).unwrap();
    let OpResult { root_dir, result } = root.rm(&path(&["pictures", "puppy.jpg"]), &mut store).unwrap();
    assert_eq!(content_of(&result), b"woof".to_vec());
    assert_eq!(root_dir.read(&path(&["pictures", "puppy.jpg"]), &store), Err(FsError::NotFound));
    let OpResult { root_dir, result } = root_dir.rm(&path(&["pictures", "cats"]), &mut store).unwrap();
    assert!(result.is_dir());
    assert_eq!(root_dir.ls(&path(&["pictures"]), &store).unwrap().len(), 0);
    assert!(matches!(root_dir.rm(&path(&["pictures", "cats"]), &mut store), Err(FsError::NotFound)));
    assert!(matches!(root_dir.rm(&path(&[]), &mut store), Err(FsError::InvalidPath)));
}

#[test]
fn mv_moves_and_renames() {
    let mut store = NodeStore::new();
    let root = PrivateDirectory::new(0);
    let root = root.write(&path(&["pictures", "cats", "tabby.jpg"]), 1, b"tabby".to_vec(), &mut store).unwrap();
    let root = root.write(&path(&["pictures", "cats", "luna.png"]), 1, b"luna".to_vec(), &mut store).unwrap();
    let root = root.mkdir(&path(&["images"]), 1, &mut store).unwrap();
    let root = root.basic_mv(&path(&["pictures", "cats"]), &path(&["images", "cats"]), 2, &mut store).unwrap();
    assert_eq!(root.ls(&path(&["images"]), &store).unwrap().len(), 1);
    assert_eq!(root.ls(&path(&["pictures"]), &store).unwrap().len(), 0);
    assert_eq!(root.read(&path(&["images", "cats", "tabby.jpg"]), &store).unwrap(), b"tabby".to_vec());
    let root = root.basic_mv(&path(&["images", "cats", "luna.png"]), &path(&["images", "cats", "renamed.png"]), 3, &mut store).unwrap();
    assert_eq!(root.read(&path(&["images", "cats", "renamed.png"]), &store).unwrap(), b"luna".to_vec());
    assert_eq!(root.read(&path(&["images", "cats", "luna.png"]), &store), Err(FsError::NotFound));
}

#[test]
fn mv_refuses_taken_or_missing_destinations() {
    let mut store = NodeStore::new();
    let root = PrivateDirectory::new(0);
    let root = root.write(&path(&["movies", "ghibli"]), 1, b"totoro".to_vec(), &mut store).unwrap();
    let root = root.write(&path(&["file.txt"]), 1, b"x".to_vec(), &mut store).unwrap();
    assert!(matches!(
        root.basic_mv(&path(&["movies", "ghibli"]), &path(&["file.txt"]), 2, &mut store),
        Err(FsError::FileAlreadyExists)
    ));
    assert!(matches!(
        root.basic_mv(&path(&["movies", "ghibli"]), &path(&["videos", "anime", "ghibli"]), 2, &mut store),
        Err(FsError::NotFound)
    ));
    assert!(matches!(
        root.basic_mv(&path(&["nothing"]), &path(&["somewhere"]), 2, &mut store),
        Err(FsError::NotFound)
    ));
    assert!(matches!(root.basic_mv(&path(&["file.txt"]), &path(&[]), 2, &mut store), Err(FsError::InvalidPath)));
}

#[test]
fn previous_of_walks_back_through_revisions() {
    let mut store = NodeStore::new();
    let root = PrivateDirectory::new(0);
    let root = root.write(&path(&["file.txt"]), 1, b"rev0".to_vec(), &mut store).unwrap();
    let root = root.write(&path(&["file.txt"]), 2, b"rev1".to_vec(), &mut store).unwrap();
    let mut history = PrivateNodeHistory::previous_of(&root, &path(&["file.txt"]), false, &store, 1_000_000).unwrap();
    let previous = history.previous(&store).unwrap().unwrap();
    assert_eq!(content_of(&previous), b"rev0".to_vec());
    assert!(history.previous(&store).unwrap().is_none());
}

#[test]
fn previous_of_enumerates_every_revision_below_a_directory() {
    let mut store = NodeStore::new();
    let root = PrivateDirectory::new(0);
    let root = root.write(&path(&["Docs", "Notes.md"]), 1, b"rev 0".to_vec(), &mut store).unwrap();
    let root = root.write(&path(&["Docs", "Notes.md"]), 2, b"rev 1".to_vec(), &mut store).unwrap();
    let root = root.write(&path(&["Docs", "World"]), 3, b"unrelated".to_vec(), &mut store).unwrap();
    let root = root.write(&path(&["Docs", "Notes.md"]), 4, b"rev 2".to_vec(), &mut store).unwrap();
    let mut history = PrivateNodeHistory::previous_of(&root, &path(&["Docs", "Notes.md"]), false, &store, 10).unwrap();
    assert_eq!(content_of(&history.previous(&store).unwrap().unwrap()), b"rev 1".to_vec());
    assert_eq!(content_of(&history.previous(&store).unwrap().unwrap()), b"rev 0".to_vec());
    assert!(history.previous(&store).unwrap().is_none());
}

#[test]
fn previous_of_stops_at_the_budget() {
    let mut store = NodeStore::new();
    let root = PrivateDirectory::new(0);
    let root = root.write(&path(&["f"]), 1, b"a".to_vec(), &mut store).unwrap();
    let root = root.write(&path(&["f"]), 2, b"b".to_vec(), &mut store).unwrap();
    let root = root.write(&path(&["f"]), 3, b"c".to_vec(), &mut store).unwrap();
    assert!(matches!(
        PrivateNodeHistory::previous_of(&root, &path(&["f"]), false, &store, 1),
        Err(FsError::RatchetBudgetExceeded)
    ));
    let mut history = PrivateNodeHistory::previous_of(&root, &path(&["f"]), false, &store, 2).unwrap();
    assert_eq!(content_of(&history.previous(&store).unwrap().unwrap()), b"b".to_vec());
    assert_eq!(content_of(&history.previous(&store).unwrap().unwrap()), b"a".to_vec());
    assert!(history.previous(&store).unwrap().is_none());
    assert!(matches!(PrivateNodeHistory::previous_of(&root, &path(&["g"]), false, &store, 1), Err(FsError::NotFound)));
}

#[test]
fn ancestors_advance_one_revision_per_write() {
    let mut store = NodeStore::new();
    let root = PrivateDirectory::new(0);
    let root = root.write(&path(&["Docs", "a"]), 1, b"a".to_vec(), &mut store).unwrap();
    let root = root.write(&path(&["Docs", "b"]), 2, b"b".to_vec(), &mut store).unwrap();
    let mut history = PrivateNodeHistory::previous_of(&root, &path(&["Docs"]), false, &store, 10).unwrap();
    let previous = history.previous(&store).unwrap().unwrap();
    match previous {
        PrivateNode::Dir(d) => assert!(d.get_entry(&"a".to_string()).is_some() && d.get_entry(&"b".to_string()).is_none()),
        PrivateNode::File(_) => panic!("expected a directory"),
    }
    assert!(history.previous(&store).unwrap().is_none());
}

#[test]
fn previous_of_through_a_file_is_not_a_directory() {
    let mut store = NodeStore::new();
    let root = PrivateDirectory::new(0);
    let root = root.write(&path(&["file.txt"]), 1, b"x".to_vec(), &mut store).unwrap();
    assert!(matches!(
        PrivateNodeHistory::previous_of(&root, &path(&["file.txt", "below"]), false, &store, 10),
        Err(FsError::NotADirectory)
    ));
    assert!(matches!(PrivateNodeHistory::previous_of(&root, &path(&["missing", "below"]), false, &store, 10), Err(FsError::NotFound)));
}

#[test]
fn mkdir_links_new_revisions_of_existing_directories() {
    let mut store = NodeStore::new();
    let root = PrivateDirectory::new(0);
    let root = root.mkdir(&path(&["a"]), 1, &mut store).unwrap();
    let root = root.mkdir(&path(&["a", "b"]), 2, &mut store).unwrap();
    let mut history = PrivateNodeHistory::previous_of(&root, &path(&["a"]), false, &store, 10).unwrap();
    match history.previous(&store).unwrap().unwrap() {
        PrivateNode::Dir(d) => assert!(d.get_entry(&"b".to_string()).is_none()),
        PrivateNode::File(_) => panic!("expected a directory"),
    }
    assert!(history.previous(&store).unwrap().is_none());
}

#[test]
fn mv_rename_onto_a_sibling_is_refused() {
    let mut store = NodeStore::new();
    let root = PrivateDirectory::new(0);
    let root = root.write(&path(&["d", "a"]), 1, b"a".to_vec(), &mut store).unwrap();
    let root = root.write(&path(&["d", "b"]), 1, b"b".to_vec(), &mut store).unwrap();
    assert!(matches!(root.basic_mv(&path(&["d", "a"]), &path(&["d", "b"]), 2, &mut store), Err(FsError::FileAlreadyExists)));
    let root = root.basic_mv(&path(&["d", "a"]), &path(&["d", "a"]), 2, &mut store).unwrap();
    assert_eq!(root.read(&path(&["d", "a"]), &store).unwrap(), b"a".to_vec());
}

#[test]
fn ls_lists_names_in_ascending_order() {
    let mut store = NodeStore::new();
    let root = PrivateDirectory::new(0);
    let root = root.write(&path(&["d", "zeta"]), 1, vec![], &mut store).unwrap();
    let root = root.mkdir(&path(&["d", "alpha"]), 1, &mut store).unwrap();
    let root = root.write(&path(&["d", "Mid"]), 1, vec![], &mut store).unwrap();
    let root = root.write(&path(&["d", "mid"]), 1, vec![], &mut store).unwrap();
    let names: Vec<String> = root.ls(&path(&["d"]), &store).unwrap().into_iter().map(|e| e.0).collect();
    assert_eq!(names, vec!["Mid", "alpha", "mid", "zeta"]);
}

#[test]
fn history_finds_revisions_written_through_a_subdirectory() {
    let mut store = NodeStore::new();
    let root = PrivateDirectory::new(0);
    let notes = path(&["Docs", "Notes.md"]);
    let root = root.write(&notes, 1, b"rev 0".to_vec(), &mut store).unwrap();
    let docs_ref = root.get_node_index(&path(&["Docs"]), &store).unwrap();
    let docs = match store.load(docs_ref).unwrap() {
        PrivateNode::Dir(d) => d,
        PrivateNode::File(_) => panic!("expected a directory"),
    };
    let _docs = docs.write(&path(&["Notes.md"]), 2, b"rev 1".to_vec(), &mut store).unwrap();
    let root = root.write(&notes, 3, b"rev 2".to_vec(), &mut store).unwrap();
    let mut history = PrivateNodeHistory::previous_of(&root, &notes, true, &store, 1_000_000).unwrap();
    assert_eq!(content_of(&history.previous(&store).unwrap().unwrap()), b"rev 1".to_vec());
    assert_eq!(content_of(&history.previous(&store).unwrap().unwrap()), b"rev 0".to_vec());
    assert!(history.previous(&store).unwrap().is_none());
}

#[test]
fn history_with_search_latest_starts_from_the_newest_revision() {
    let mut store = NodeStore::new();
    let root = PrivateDirectory::new(0);
    let f = path(&["f"]);
    let old_root = root.write(&f, 1, b"a".to_vec(), &mut store).unwrap();
    let root = old_root.write(&f, 2, b"b".to_vec(), &mut store).unwrap();
    let _root = root.write(&f, 3, b"c".to_vec(), &mut store).unwrap();
    let mut latest = PrivateNodeHistory::previous_of(&old_root, &f, true, &store, 10).unwrap();
    assert_eq!(content_of(&latest.previous(&store).unwrap().unwrap()), b"b".to_vec());
    assert_eq!(content_of(&latest.previous(&store).unwrap().unwrap()), b"a".to_vec());
    assert!(latest.previous(&store).unwrap().is_none());
    let mut seen = PrivateNodeHistory::previous_of(&old_root, &f, false, &store, 10).unwrap();
    assert!(seen.previous(&store).unwrap().is_none());
}

#[test]
fn mv_up_to_an_ancestor_directory() {
    let mut store = NodeStore::new();
    let root = PrivateDirectory::new(0);
    let root = root.write(&path(&["a", "b", "x"]), 1, b"x".to_vec(), &mut store).unwrap();
    assert!(matches!(root.basic_mv(&path(&["a", "b", "x"]), &path(&["a", "b"]), 2, &mut store), Err(FsError::FileAlreadyExists)));
    let root = root.basic_mv(&path(&["a", "b", "x"]), &path(&["a", "y"]), 2, &mut store).unwrap();
    assert_eq!(root.read(&path(&["a", "y"]), &store).unwrap(), b"x".to_vec());
    assert_eq!(root.read(&path(&["a", "b", "x"]), &store), Err(FsError::NotFound));
    assert_eq!(root.get_node_index(&path(&[]), &store), None);
}
