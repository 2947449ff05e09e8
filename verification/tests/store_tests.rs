use baby_git::cache::{CacheEntry, StatData};
use baby_git::{Blob, Commit, GitError, GitObject, Sha1Hash};

fn stat() -> StatData {
    StatData {
        ctime: 11,
        ctime_nsec: 12,
        mtime: 13,
        mtime_nsec: 14,
        st_dev: 15,
        st_ino: 16,
        st_mode: 0o100755,
        st_uid: 17,
        st_gid: 18,
        st_size: 19,
    }
}

fn hash_of(byte: u8) -> Sha1Hash {
    Sha1Hash { bytes: vec![byte; 20] }
}

#[test]
fn hello_blob_always_hashes_to_the_documented_value() {
    let obj = GitObject::Blob(Blob::new(b"hello\n".to_vec()));
    let (sha1, _) = obj.store_bytes();
    assert_eq!(sha1.hex_string(), "8cf7e70fc28564aaa00b0b3004ba3b7ea8dea9ae");
    assert_eq!(
        sha1.sha1_file_name(),
        "8c/f7e70fc28564aaa00b0b3004ba3b7ea8dea9ae"
    );
}

#[test]
fn storing_twice_gives_the_same_hash_and_the_same_file() {
    let obj = GitObject::Blob(Blob::new(b"hello\n".to_vec()));
    let (h1, b1) = obj.store_bytes();
    let (h2, b2) = obj.store_bytes();
    assert_eq!(h1.bytes, h2.bytes);
    assert_eq!(b1, b2);
    assert_eq!(h1.sha1_file_name(), h2.sha1_file_name());
}

#[test]
fn blob_round_trips_through_the_store() {
    let obj = GitObject::Blob(Blob::new(b"some file contents".to_vec()));
    let (_, bytes) = obj.store_bytes();
    let back = GitObject::from_store_bytes(&bytes).unwrap();
    match back {
        GitObject::Blob(b) => assert_eq!(b.data, b"some file contents".to_vec()),
        other => panic!("wrong variant {:?}", other),
    }
}

#[test]
fn tree_round_trips_through_the_store() {
    let mut tree = GitObject::new_tree();
    tree.insert(b"beta".to_vec(), &CacheEntry::new(b"beta".to_vec(), hash_of(2), &stat()));
    tree.insert(b"alpha".to_vec(), &CacheEntry::new(b"alpha".to_vec(), hash_of(1), &stat()));
    let obj = GitObject::Tree(tree);
    let (_, bytes) = obj.store_bytes();
    let back = GitObject::from_store_bytes(&bytes).unwrap();
    match back {
        GitObject::Tree(t) => {
            assert_eq!(t.entries.len(), 2);
            assert_eq!(t.entries[0].name, b"alpha".to_vec());
            assert_eq!(t.entries[0].st_mode, 0o100755);
            assert_eq!(t.entries[0].sha1.bytes, vec![1u8; 20]);
            assert_eq!(t.entries[1].name, b"beta".to_vec());
            assert_eq!(t.entries[1].sha1.bytes, vec![2u8; 20]);
        },
        other => panic!("wrong variant {:?}", other),
    }
}

#[test]
fn commit_round_trips_through_the_store() {
    let commit = Commit::new(
        hash_of(0xaa),
        vec![hash_of(0xbb), hash_of(0xcc)],
        b"Author,,, <a@h> date".to_vec(),
        b"Committer,,, <c@h> date".to_vec(),
        b"message body\n".to_vec(),
    );
    let obj = GitObject::Commit(commit);
    let (_, bytes) = obj.store_bytes();
    let back = GitObject::from_store_bytes(&bytes).unwrap();
    match back {
        GitObject::Commit(c) => {
            assert_eq!(c.sha1.bytes, vec![0xaa; 20]);
            assert_eq!(c.parents.len(), 2);
            assert_eq!(c.parents[0].bytes, vec![0xbb; 20]);
            assert_eq!(c.parents[1].bytes, vec![0xcc; 20]);
            assert_eq!(c.author_info, b"Author,,, <a@h> date".to_vec());
            assert_eq!(c.committer_info, b"Committer,,, <c@h> date".to_vec());
            assert_eq!(c.user_comment, b"message body\n".to_vec());
        },
        other => panic!("wrong variant {:?}", other),
    }
}

#[test]
fn garbage_bytes_are_a_corrupt_object() {
    let e = GitObject::from_store_bytes(&[1, 2, 3, 4]).unwrap_err();
    assert!(matches!(e, GitError::CorruptObject));
}

#[test]
fn truncated_store_bytes_are_a_corrupt_object() {
    let obj = GitObject::Blob(Blob::new(b"hello\n".to_vec()));
    let (_, bytes) = obj.store_bytes();
    let e = GitObject::from_store_bytes(&bytes[..bytes.len() - 1]).unwrap_err();
    assert!(matches!(e, GitError::CorruptObject));
}

#[test]
fn codec_round_trips_without_compression() {
    let obj = GitObject::Blob(Blob::new(b"plain bytes".to_vec()));
    let enc = baby_git::codec::encode_object(&obj);
    let back = baby_git::codec::decode_object(&enc).unwrap();
    match back {
        GitObject::Blob(b) => assert_eq!(b.data, b"plain bytes".to_vec()),
        other => panic!("wrong variant {:?}", other),
    }
}

#[test]
fn store_files_really_are_compressed_frames() {
    // the canonical bytes themselves are not a valid frame stream, so the
    // store must be writing something else than the raw encoding
    let obj = GitObject::Blob(Blob::new(b"hello\n".to_vec()));
    let enc = baby_git::codec::encode_object(&obj);
    let (_, stored) = obj.store_bytes();
    assert_ne!(enc, stored);
    assert!(GitObject::from_store_bytes(&enc).is_err());
}

#[test]
fn different_contents_give_different_hashes() {
    let (h1, _) = GitObject::Blob(Blob::new(b"a".to_vec())).store_bytes();
    let (h2, _) = GitObject::Blob(Blob::new(b"b".to_vec())).store_bytes();
    assert_ne!(h1.bytes, h2.bytes);
}
