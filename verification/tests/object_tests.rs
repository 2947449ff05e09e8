use baby_git::cache::{CacheEntry, StatData};
use baby_git::{Blob, Commit, GitError, GitObject, Sha1Hash, Tree};

fn stat() -> StatData {
    StatData {
        ctime: 1,
        ctime_nsec: 2,
        mtime: 3,
        mtime_nsec: 4,
        st_dev: 5,
        st_ino: 6,
        st_mode: 0o100644,
        st_uid: 7,
        st_gid: 8,
        st_size: 9,
    }
}

fn hash_of(byte: u8) -> Sha1Hash {
    Sha1Hash { bytes: vec![byte; 20] }
}

fn entry_for(name: &[u8], byte: u8) -> CacheEntry {
    CacheEntry::new(name.to_vec(), hash_of(byte), &stat())
}

#[test]
fn tree_insert_keeps_paths_sorted_whatever_the_order() {
    let mut tree = GitObject::new_tree();
    tree.insert(b"b".to_vec(), &entry_for(b"b", 2));
    tree.insert(b"a".to_vec(), &entry_for(b"a", 1));
    assert_eq!(tree.entries.len(), 2);
    assert_eq!(tree.entries[0].name, b"a".to_vec());
    assert_eq!(tree.entries[1].name, b"b".to_vec());
    assert_eq!(tree.entries[0].sha1.bytes, vec![1u8; 20]);
    assert_eq!(tree.entries[1].sha1.bytes, vec![2u8; 20]);
}

#[test]
fn tree_insert_replaces_an_existing_path() {
    let mut tree = Tree { entries: Vec::new() };
    tree.insert(b"a".to_vec(), &entry_for(b"a", 1));
    tree.insert(b"a".to_vec(), &entry_for(b"a", 9));
    assert_eq!(tree.entries.len(), 1);
    assert_eq!(tree.entries[0].sha1.bytes, vec![9u8; 20]);
}

#[test]
fn commit_without_parents_renders_no_parent_line() {
    let c = Commit::new(
        hash_of(0xab),
        Vec::new(),
        b"A,,, <a@h> now".to_vec(),
        b"C,,, <c@h> now".to_vec(),
        b"first\n".to_vec(),
    );
    let text = String::from_utf8(c.render()).unwrap();
    let expected = format!(
        "tree {}\nauthor A,,, <a@h> now\ncommitter C,,, <c@h> now\n\nfirst\n",
        "ab".repeat(20),
    );
    assert_eq!(text, expected);
    assert!(!text.contains("parent"));
}

#[test]
fn commit_with_two_parents_renders_them_in_order() {
    let c = Commit::new(
        hash_of(0xab),
        vec![hash_of(0x01), hash_of(0x02)],
        b"A".to_vec(),
        b"C".to_vec(),
        b"m".to_vec(),
    );
    let text = String::from_utf8(c.render()).unwrap();
    let expected = format!(
        "tree {}\nparent {}\nparent {}\nauthor A\ncommitter C\n\nm",
        "ab".repeat(20),
        "01".repeat(20),
        "02".repeat(20),
    );
    assert_eq!(text, expected);
}

#[test]
fn kind_names_match_the_variants() {
    assert_eq!(GitObject::Blob(Blob::new(Vec::new())).kind_name(), "blob");
    assert_eq!(GitObject::Tree(GitObject::new_tree()).kind_name(), "tree");
    let c = Commit::new(hash_of(1), Vec::new(), Vec::new(), Vec::new(), Vec::new());
    assert_eq!(GitObject::Commit(c).kind_name(), "commit");
}

#[test]
fn cat_bytes_shows_blobs_and_commits_but_not_trees() {
    let blob = GitObject::Blob(Blob::new(b"data".to_vec()));
    assert_eq!(blob.cat_bytes(&hash_of(1)).unwrap(), b"data".to_vec());

    let commit = GitObject::Commit(Commit::new(
        hash_of(1),
        Vec::new(),
        b"A".to_vec(),
        b"C".to_vec(),
        b"m".to_vec(),
    ));
    assert!(commit.cat_bytes(&hash_of(1)).is_ok());

    let tree = GitObject::Tree(GitObject::new_tree());
    let e = tree.cat_bytes(&hash_of(3)).unwrap_err();
    match e {
        GitError::IsTreeError(h) => assert_eq!(h.bytes, vec![3u8; 20]),
        other => panic!("unexpected error {:?}", other),
    }
}

#[test]
fn into_tree_entries_narrows_to_trees_only() {
    let mut tree = GitObject::new_tree();
    tree.insert(b"f".to_vec(), &entry_for(b"f", 4));
    let entries = GitObject::Tree(tree).into_tree_entries(&hash_of(0)).unwrap();
    assert_eq!(entries.len(), 1);
    assert_eq!(entries[0].name, b"f".to_vec());

    let blob = GitObject::Blob(Blob::new(Vec::new()));
    let e = blob.into_tree_entries(&hash_of(5)).unwrap_err();
    match e {
        GitError::NotTreeError(h) => assert_eq!(h.bytes, vec![5u8; 20]),
        other => panic!("unexpected error {:?}", other),
    }
}
