use baby_git::cache::{
    build_tree, save_atomic, Cache, CacheEntry, IndexFiles, StatData, CACHE_SIGNATURE,
    CTIME_CHANGED, DATA_CHANGED, INODE_CHANGED, MODE_CHANGED, MTIME_CHANGED, OWNER_CHANGED,
};
use baby_git::{GitError, Sha1Hash};

fn stat() -> StatData {
    StatData {
        ctime: 100,
        ctime_nsec: 101,
        mtime: 102,
        mtime_nsec: 103,
        st_dev: 104,
        st_ino: 105,
        st_mode: 0o100644,
        st_uid: 106,
        st_gid: 107,
        st_size: 108,
    }
}

fn hash_of(byte: u8) -> Sha1Hash {
    Sha1Hash { bytes: vec![byte; 20] }
}

#[test]
fn default_cache_has_signature_and_no_entries() {
    let c = Cache::default();
    assert_eq!(c.header.signature, CACHE_SIGNATURE);
    assert_eq!(c.header.version, b"0.1.0".to_vec());
    assert!(c.entries.is_empty());
}

#[test]
fn insert_keeps_paths_sorted_and_replaces_duplicates() {
    let mut c = Cache::default();
    c.insert(b"b.txt".to_vec(), hash_of(2), &stat());
    c.insert(b"a.txt".to_vec(), hash_of(1), &stat());
    c.insert(b"b.txt".to_vec(), hash_of(9), &stat());
    assert_eq!(c.entries.len(), 2);
    assert_eq!(c.entries[0].name, b"a.txt".to_vec());
    assert_eq!(c.entries[1].name, b"b.txt".to_vec());
    assert_eq!(c.entries[1].sha1.bytes, vec![9u8; 20]);
}

#[test]
fn match_stat_is_zero_only_when_nothing_changed() {
    let e = CacheEntry::new(b"f".to_vec(), hash_of(1), &stat());
    assert_eq!(e.match_stat(&stat()), 0);
}

#[test]
fn each_dimension_sets_exactly_its_bit() {
    let e = CacheEntry::new(b"f".to_vec(), hash_of(1), &stat());

    let mut s = stat();
    s.mtime_nsec += 1;
    assert_eq!(e.match_stat(&s), MTIME_CHANGED);

    let mut s = stat();
    s.ctime += 1;
    assert_eq!(e.match_stat(&s), CTIME_CHANGED);

    let mut s = stat();
    s.st_uid += 1;
    assert_eq!(e.match_stat(&s), OWNER_CHANGED);

    let mut s = stat();
    s.st_mode = 0o100755;
    assert_eq!(e.match_stat(&s), MODE_CHANGED);

    let mut s = stat();
    s.st_ino += 1;
    assert_eq!(e.match_stat(&s), INODE_CHANGED);

    let mut s = stat();
    s.st_size += 1;
    assert_eq!(e.match_stat(&s), DATA_CHANGED);

    let mut s = stat();
    s.mtime += 1;
    s.st_size += 1;
    assert_eq!(e.match_stat(&s), MTIME_CHANGED | DATA_CHANGED);
}

#[test]
fn index_round_trips_through_its_file_bytes() {
    let mut c = Cache::default();
    c.insert(b"dir/file".to_vec(), hash_of(3), &stat());
    c.insert(b"aaa".to_vec(), hash_of(4), &stat());
    let bytes = c.write_cache();
    let back = Cache::read_cache(&bytes).unwrap();
    assert_eq!(back.header.signature, CACHE_SIGNATURE);
    assert_eq!(back.header.version, b"0.1.0".to_vec());
    assert_eq!(back.entries.len(), 2);
    assert_eq!(back.entries[0].name, b"aaa".to_vec());
    assert_eq!(back.entries[0].sha1.bytes, vec![4u8; 20]);
    assert_eq!(back.entries[1].name, b"dir/file".to_vec());
    assert_eq!(back.entries[1].mtime, 102);
    assert_eq!(back.entries[1].st_size, 108);
}

#[test]
fn corrupt_index_bytes_are_rejected() {
    let e = Cache::read_cache(&[1, 2, 3]).unwrap_err();
    assert!(matches!(e, GitError::CorruptIndex));
}

#[test]
fn a_wrong_signature_is_a_corrupt_index() {
    let mut c = Cache::default();
    c.insert(b"x".to_vec(), hash_of(1), &stat());
    let mut bytes = c.write_cache();
    bytes[0] ^= 0xff;
    let e = Cache::read_cache(&bytes).unwrap_err();
    assert!(matches!(e, GitError::CorruptIndex));
}

#[test]
fn truncated_index_bytes_are_rejected() {
    let mut c = Cache::default();
    c.insert(b"x".to_vec(), hash_of(1), &stat());
    let bytes = c.write_cache();
    let e = Cache::read_cache(&bytes[..bytes.len() - 1]).unwrap_err();
    assert!(matches!(e, GitError::CorruptIndex));
}

#[test]
fn save_fails_and_leaves_the_canonical_file_alone_when_locked() {
    let before = IndexFiles {
        canonical: Some(b"old index".to_vec()),
        lock: Some(Vec::new()),
    };
    let (outcome, after) = save_atomic(before, b"new index".to_vec());
    assert!(matches!(outcome, Err(GitError::ConcurrentModification)));
    assert_eq!(after.canonical, Some(b"old index".to_vec()));
    assert_eq!(after.lock, Some(Vec::new()));
}

#[test]
fn save_replaces_the_canonical_file_whole_when_unlocked() {
    let before = IndexFiles {
        canonical: Some(b"old index".to_vec()),
        lock: None,
    };
    let (outcome, after) = save_atomic(before, b"new index".to_vec());
    assert!(outcome.is_ok());
    assert_eq!(after.canonical, Some(b"new index".to_vec()));
    assert!(after.lock.is_none());
}

#[test]
fn insertion_order_does_not_change_the_index_or_the_tree() {
    let mut c1 = Cache::default();
    c1.insert(b"a".to_vec(), hash_of(1), &stat());
    c1.insert(b"b".to_vec(), hash_of(2), &stat());
    let mut c2 = Cache::default();
    c2.insert(b"b".to_vec(), hash_of(2), &stat());
    c2.insert(b"a".to_vec(), hash_of(1), &stat());
    assert_eq!(c1.write_cache(), c2.write_cache());

    let (h1, b1) = baby_git::GitObject::Tree(build_tree(&c1)).store_bytes();
    let (h2, b2) = baby_git::GitObject::Tree(build_tree(&c2)).store_bytes();
    assert_eq!(h1.bytes, h2.bytes);
    assert_eq!(b1, b2);
}

#[test]
fn build_tree_folds_the_index_in_path_order() {
    let mut c = Cache::default();
    c.insert(b"b".to_vec(), hash_of(2), &stat());
    c.insert(b"a".to_vec(), hash_of(1), &stat());
    let tree = build_tree(&c);
    assert_eq!(tree.entries.len(), 2);
    assert_eq!(tree.entries[0].name, b"a".to_vec());
    assert_eq!(tree.entries[0].st_mode, 0o100644);
    assert_eq!(tree.entries[0].sha1.bytes, vec![1u8; 20]);
    assert_eq!(tree.entries[1].name, b"b".to_vec());
}
