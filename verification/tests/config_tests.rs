use baby_git::{Config, GitObject, Sha1Hash};

fn config() -> Config {
    Config {
        author_name: String::from("Alice"),
        author_email: String::from("alice@host"),
        committer_name: String::from("Bob"),
        committer_email: String::from("bob@host"),
        commit_date: String::from("2020-01-02 03:04:05 UTC"),
    }
}

#[test]
fn author_info_has_the_exact_identity_layout() {
    assert_eq!(
        config().author_info(),
        "Alice,,, <alice@host> 2020-01-02 03:04:05 UTC"
    );
}

#[test]
fn committer_info_has_the_exact_identity_layout() {
    assert_eq!(
        config().committer_info(),
        "Bob,,, <bob@host> 2020-01-02 03:04:05 UTC"
    );
}

#[test]
fn new_commit_carries_the_configured_identities() {
    let tree = Sha1Hash { bytes: vec![0x11; 20] };
    let parent = Sha1Hash { bytes: vec![0x22; 20] };
    let c = GitObject::new_commit(tree, vec![parent], b"msg\n".to_vec(), &config());
    assert_eq!(c.sha1.bytes, vec![0x11; 20]);
    assert_eq!(c.parents.len(), 1);
    assert_eq!(
        c.author_info,
        b"Alice,,, <alice@host> 2020-01-02 03:04:05 UTC".to_vec()
    );
    assert_eq!(
        c.committer_info,
        b"Bob,,, <bob@host> 2020-01-02 03:04:05 UTC".to_vec()
    );
    assert_eq!(c.user_comment, b"msg\n".to_vec());
    let text = String::from_utf8(c.render()).unwrap();
    assert!(text.starts_with(&format!("tree {}\nparent {}\n", "11".repeat(20), "22".repeat(20))));
}
