//! The object model: blobs, flat trees and commits.

use vstd::prelude::*;
use vstd::slice::slice_to_vec;
use vstd::string::StrSliceExecFns;
use vstd::utf8::encode_utf8;

use crate::cache::CacheEntry;
use crate::config::Config;
use crate::error::GitError;
use crate::hash::{hex_ascii, hex_ascii_of, Sha1Hash};
use crate::lex::{lemma_lex_lt_asym, lemma_lex_lt_irrefl, lemma_lex_lt_trans, lex_cmp, lex_lt,
    KeyOrder};

verus! {

// ------------------------------------------------------------------
// Views: the mathematical values behind the executable types.
// ------------------------------------------------------------------

/// The value of a tree entry: mode bits, path and referenced digest.
pub ghost struct TreeEntryView {
    pub st_mode: u32,
    pub name: Seq<u8>,
    pub sha1: Seq<u8>,
}

/// The value of a commit: tree digest, parent digests in order, identity
/// lines and message.
pub ghost struct CommitView {
    pub sha1: Seq<u8>,
    pub parents: Seq<Seq<u8>>,
    pub author_info: Seq<u8>,
    pub committer_info: Seq<u8>,
    pub user_comment: Seq<u8>,
}

/// The value of a stored object.
pub ghost enum ObjectView {
    Blob(Seq<u8>),
    Tree(Seq<TreeEntryView>),
    Commit(CommitView),
}

/// The views of a sequence of tree entries.
pub open spec fn entry_views(s: Seq<TreeEntry>) -> Seq<TreeEntryView> {
    Seq::new(s.len(), |i: int| s[i]@)
}

/// The views of a sequence of digests.
pub open spec fn hash_views(s: Seq<Sha1Hash>) -> Seq<Seq<u8>> {
    Seq::new(s.len(), |i: int| s[i]@)
}

/// A well-formed entry holds a 20-byte digest and an encodable path.
pub open spec fn entry_wf(e: TreeEntryView) -> bool {
    &&& e.sha1.len() == 20
    &&& e.name.len() <= u64::MAX
}

/// Tree entries are strictly ascending by path, so paths are unique and the
/// serialized form is determined by the mapping alone.
pub open spec fn entries_sorted(es: Seq<TreeEntryView>) -> bool {
    forall|i: int, j: int|
        0 <= i < j < es.len() ==> lex_lt(#[trigger] es[i].name, #[trigger] es[j].name)
}

/// A well-formed tree: bounded, sorted, well-formed entries.
pub open spec fn tree_wf(es: Seq<TreeEntryView>) -> bool {
    &&& es.len() <= u64::MAX
    &&& entries_sorted(es)
    &&& forall|i: int| 0 <= i < es.len() ==> entry_wf(#[trigger] es[i])
}

/// A well-formed commit: 20-byte digests and encodable text fields.
pub open spec fn commit_wf(c: CommitView) -> bool {
    &&& c.sha1.len() == 20
    &&& c.parents.len() <= u64::MAX
    &&& forall|i: int| 0 <= i < c.parents.len() ==> (#[trigger] c.parents[i]).len() == 20
    &&& c.author_info.len() <= u64::MAX
    &&& c.committer_info.len() <= u64::MAX
    &&& c.user_comment.len() <= u64::MAX
}

/// A well-formed object.
pub open spec fn obj_wf(v: ObjectView) -> bool {
    match v {
        ObjectView::Blob(d) => d.len() <= u64::MAX,
        ObjectView::Tree(es) => tree_wf(es),
        ObjectView::Commit(c) => commit_wf(c),
    }
}

// ------------------------------------------------------------------
// Blob
// ------------------------------------------------------------------

/// An opaque byte sequence: the contents of one tracked file.
#[derive(Debug)]
pub struct Blob {
    pub data: Vec<u8>,
}

impl View for Blob {
    type V = Seq<u8>;

    open spec fn view(&self) -> Seq<u8> {
        self.data@
    }
}

impl Blob {
    /// Wraps file contents as a blob.
    pub fn new(data: Vec<u8>) -> (r: Blob)
        ensures
            r@ == data@,
    {
        Blob { data }
    }
}

// ------------------------------------------------------------------
// Tree
// ------------------------------------------------------------------

/// One tree entry: mode bits, path and the digest of the referenced blob.
#[derive(Debug)]
pub struct TreeEntry {
    pub st_mode: u32,
    pub name: Vec<u8>,
    pub sha1: Sha1Hash,
}

impl View for TreeEntry {
    type V = TreeEntryView;

    open spec fn view(&self) -> TreeEntryView {
        TreeEntryView { st_mode: self.st_mode, name: self.name@, sha1: self.sha1@ }
    }
}

impl TreeEntry {
    /// Builds an entry from its parts.
    pub fn new(st_mode: u32, name: Vec<u8>, sha1: Sha1Hash) -> (r: TreeEntry)
        ensures
            r@ == (TreeEntryView { st_mode: st_mode, name: name@, sha1: sha1@ }),
    {
        TreeEntry { st_mode, name, sha1 }
    }
}

/// A flat, ordered listing of tracked paths, each with mode and digest.
#[derive(Debug)]
pub struct Tree {
    pub entries: Vec<TreeEntry>,
}

impl View for Tree {
    type V = Seq<TreeEntryView>;

    open spec fn view(&self) -> Seq<TreeEntryView> {
        entry_views(self.entries@)
    }
}

/// Where a new entry lands among sorted entries: the prior entries stay, the
/// entry replaces an equal path or is inserted before the first larger one.
pub open spec fn spec_entries_insert(es: Seq<TreeEntryView>, e: TreeEntryView) -> Seq<
    TreeEntryView,
>
    decreases es.len(),
{
    if es.len() == 0 {
        seq![e]
    } else if lex_lt(e.name, es[0].name) {
        seq![e] + es
    } else if e.name == es[0].name {
        seq![e] + es.drop_first()
    } else {
        seq![es[0]] + spec_entries_insert(es.drop_first(), e)
    }
}

/// The sorted insertion point splits the sequence around the new entry.
proof fn lemma_spec_insert_at(es: Seq<TreeEntryView>, e: TreeEntryView, j: int)
    requires
        0 <= j <= es.len(),
        forall|k: int| 0 <= k < j ==> lex_lt((#[trigger] es[k]).name, e.name),
        j < es.len() ==> (lex_lt(e.name, es[j].name) || e.name == es[j].name),
    ensures
        j < es.len() && es[j].name == e.name ==> spec_entries_insert(es, e) == es.take(j)
            + seq![e] + es.skip(j + 1),
        j == es.len() || lex_lt(e.name, es[j].name) ==> spec_entries_insert(es, e) == es.take(j)
            + seq![e] + es.skip(j),
    decreases j,
{
    if j == 0 {
        if es.len() == 0 {
            assert(spec_entries_insert(es, e) =~= es.take(0) + seq![e] + es.skip(0));
        } else {
            if lex_lt(e.name, es[0].name) {
                lemma_lex_lt_irrefl(e.name);
                assert(spec_entries_insert(es, e) =~= es.take(0) + seq![e] + es.skip(0));
            } else if e.name == es[0].name {
                assert(spec_entries_insert(es, e) =~= es.take(0) + seq![e] + es.skip(1));
            }
        }
    } else {
        assert(lex_lt(es[0].name, e.name));
        lemma_lex_lt_asym(es[0].name, e.name);
        lemma_lex_lt_irrefl(e.name);
        assert(!lex_lt(e.name, es[0].name));
        assert(e.name != es[0].name);
        let rest = es.drop_first();
        assert(forall|k: int| 0 <= k < j - 1 ==> lex_lt((#[trigger] rest[k]).name, e.name));
        lemma_spec_insert_at(rest, e, j - 1);
        if j < es.len() && es[j].name == e.name {
            assert(rest[j - 1].name == e.name);
            assert(seq![es[0]] + (rest.take(j - 1) + seq![e] + rest.skip(j)) =~= es.take(j)
                + seq![e] + es.skip(j + 1));
        } else if j == es.len() || lex_lt(e.name, es[j].name) {
            assert(seq![es[0]] + (rest.take(j - 1) + seq![e] + rest.skip(j - 1)) =~= es.take(j)
                + seq![e] + es.skip(j));
        }
    }
}

/// Finds the slot for `key` among sorted entries: every earlier entry is
/// smaller, and the flag says whether the entry at the slot has this path.
fn find_entry_slot(entries: &Vec<TreeEntry>, key: &[u8]) -> (r: (usize, bool))
    ensures
        r.0 <= entries@.len(),
        forall|k: int| 0 <= k < r.0 ==> lex_lt((#[trigger] entries@[k])@.name, key@),
        r.1 ==> r.0 < entries@.len() && entries@[r.0 as int]@.name == key@,
        !r.1 && r.0 < entries@.len() ==> lex_lt(key@, entries@[r.0 as int]@.name),
{
    let n = entries.len();
    let mut j: usize = 0;
    while j < n
        invariant
            n == entries@.len(),
            0 <= j <= n,
            forall|k: int| 0 <= k < j ==> lex_lt((#[trigger] entries@[k])@.name, key@),
        decreases n - j,
    {
        match lex_cmp(key, entries[j].name.as_slice()) {
            KeyOrder::Greater => {
                j = j + 1;
            },
            KeyOrder::Equal => {
                return (j, true);
            },
            KeyOrder::Less => {
                return (j, false);
            },
        }
    }
    (j, false)
}

impl Tree {
    /// A tree is well-formed when its entry views are.
    pub open spec fn wf(&self) -> bool {
        tree_wf(self@)
    }

    /// Records a path with the mode and digest of its cache entry, replacing
    /// any entry already at that path and keeping the path order.
    pub fn insert(&mut self, blob_path: Vec<u8>, cache_entry: &CacheEntry)
        requires
            old(self).wf(),
            cache_entry.sha1@.len() == 20,
        ensures
            final(self)@ == spec_entries_insert(
                old(self)@,
                (TreeEntryView {
                    st_mode: cache_entry.st_mode,
                    name: blob_path@,
                    sha1: cache_entry.sha1@,
                }),
            ),
            final(self).wf(),
    {
        let ghost old_es = self@;
        let ghost ev = TreeEntryView {
            st_mode: cache_entry.st_mode,
            name: blob_path@,
            sha1: cache_entry.sha1@,
        };
        let (j, eq) = find_entry_slot(&self.entries, blob_path.as_slice());
        let _name_len = blob_path.len();
        let entry = TreeEntry {
            st_mode: cache_entry.st_mode,
            name: blob_path,
            sha1: cache_entry.sha1.duplicate(),
        };
        proof {
            lemma_spec_insert_at(old_es, ev, j as int);
        }
        if eq {
            let _ = self.entries.remove(j);
            self.entries.insert(j, entry);
            proof {
                assert(self@ =~= old_es.take(j as int) + seq![ev] + old_es.skip(j as int + 1));
            }
        } else {
            self.entries.insert(j, entry);
            proof {
                assert(self@ =~= old_es.take(j as int) + seq![ev] + old_es.skip(j as int));
            }
        }
        let newlen = self.entries.len();
        proof {
            let start = j as int;
            let jprime: int = if eq {
                start + 1
            } else {
                start
            };
            let es = self@;
            assert(es == old_es.take(start) + seq![ev] + old_es.skip(jprime));
            assert forall|p: int| 0 <= p < es.len() implies (if p < start {
                es[p] == old_es[p]
            } else if p == start {
                es[p] == ev
            } else {
                es[p] == old_es[jprime + p - start - 1]
            }) by {
                if p < start {
                    assert(es[p] == old_es.take(start)[p]);
                } else if p > start {
                    assert(es[p] == old_es.skip(jprime)[p - start - 1]);
                }
            }
            assert forall|p: int, q: int| 0 <= p < q < es.len() implies lex_lt(
                (#[trigger] es[p]).name,
                (#[trigger] es[q]).name,
            ) by {
                if q < start {
                    // both below the slot: the old order stands
                } else if q == start {
                    // the new entry follows everything below the slot
                    assert(lex_lt(old_es[p].name, ev.name));
                } else {
                    let oq = jprime + q - start - 1;
                    assert(start <= oq < old_es.len());
                    if p < start {
                        assert(lex_lt(old_es[p].name, old_es[oq].name));
                    } else if p == start {
                        if eq {
                            assert(ev.name == old_es[start].name);
                            assert(oq > start);
                            assert(lex_lt(old_es[start].name, old_es[oq].name));
                        } else {
                            if oq == start {
                                assert(lex_lt(ev.name, old_es[start].name));
                            } else {
                                lemma_lex_lt_trans(ev.name, old_es[start].name, old_es[oq].name);
                            }
                        }
                    } else {
                        let op = jprime + p - start - 1;
                        assert(lex_lt(old_es[op].name, old_es[oq].name));
                    }
                }
            }
            assert forall|p: int| 0 <= p < es.len() implies entry_wf(#[trigger] es[p]) by {
                if p == start {
                    assert(ev.name.len() == _name_len);
                    assert(ev.name.len() <= u64::MAX);
                }
            }
            assert(es.len() == newlen);
            assert(self.wf());
        }
    }
}

// ------------------------------------------------------------------
// Commit
// ------------------------------------------------------------------

/// A commit: a tree digest, parent digests in caller order, two identity
/// lines and a free-text message.
#[derive(Debug)]
pub struct Commit {
    pub sha1: Sha1Hash,
    pub parents: Vec<Sha1Hash>,
    pub author_info: Vec<u8>,
    pub committer_info: Vec<u8>,
    pub user_comment: Vec<u8>,
}

impl View for Commit {
    type V = CommitView;

    open spec fn view(&self) -> CommitView {
        CommitView {
            sha1: self.sha1@,
            parents: hash_views(self.parents@),
            author_info: self.author_info@,
            committer_info: self.committer_info@,
            user_comment: self.user_comment@,
        }
    }
}

/// The ASCII bytes of `"tree "`.
pub open spec fn tree_prefix() -> Seq<u8> {
    seq![116u8, 114u8, 101u8, 101u8, 32u8]
}

/// The ASCII bytes of `"parent "`.
pub open spec fn parent_prefix() -> Seq<u8> {
    seq![112u8, 97u8, 114u8, 101u8, 110u8, 116u8, 32u8]
}

/// The ASCII bytes of `"author "`.
pub open spec fn author_prefix() -> Seq<u8> {
    seq![97u8, 117u8, 116u8, 104u8, 111u8, 114u8, 32u8]
}

/// The ASCII bytes of `"committer "`.
pub open spec fn committer_prefix() -> Seq<u8> {
    seq![99u8, 111u8, 109u8, 109u8, 105u8, 116u8, 116u8, 101u8, 114u8, 32u8]
}

/// One `parent <hex digest>` line per parent, in order; nothing when there
/// are no parents.
pub open spec fn parent_lines(ps: Seq<Seq<u8>>) -> Seq<u8>
    decreases ps.len(),
{
    if ps.len() == 0 {
        Seq::<u8>::empty()
    } else {
        parent_prefix() + hex_ascii(ps[0]) + seq![10u8] + parent_lines(ps.drop_first())
    }
}

/// The canonical textual rendering of a commit, line by line: the tree, each
/// parent in order, author, committer, a blank line, then the message.
pub open spec fn commit_text(c: CommitView) -> Seq<u8> {
    tree_prefix() + hex_ascii(c.sha1) + seq![10u8] + parent_lines(c.parents) + author_prefix()
        + c.author_info + seq![10u8] + committer_prefix() + c.committer_info + seq![10u8]
        + seq![10u8] + c.user_comment
}

/// Appending a parent appends exactly one `parent` line.
pub proof fn lemma_parent_lines_push(ps: Seq<Seq<u8>>, p: Seq<u8>)
    ensures
        parent_lines(ps.push(p)) == parent_lines(ps) + (parent_prefix() + hex_ascii(p)
            + seq![10u8]),
    decreases ps.len(),
{
    if ps.len() == 0 {
        assert(ps.push(p)[0] == p);
        assert(ps.push(p).drop_first() =~= Seq::<Seq<u8>>::empty());
        assert(ps =~= Seq::<Seq<u8>>::empty());
        assert(parent_lines(ps) == Seq::<u8>::empty());
        assert(parent_lines(ps.push(p)) == parent_prefix() + hex_ascii(p) + seq![10u8]
            + parent_lines(Seq::<Seq<u8>>::empty()));
        assert(parent_lines(ps.push(p)) =~= parent_lines(ps) + (parent_prefix() + hex_ascii(p)
            + seq![10u8]));
    } else {
        lemma_parent_lines_push(ps.drop_first(), p);
        assert(ps.push(p).drop_first() =~= ps.drop_first().push(p));
        assert(ps.push(p)[0] == ps[0]);
        assert(parent_lines(ps.push(p)) == parent_prefix() + hex_ascii(ps[0]) + seq![10u8]
            + parent_lines(ps.drop_first().push(p)));
        assert(parent_lines(ps) == parent_prefix() + hex_ascii(ps[0]) + seq![10u8]
            + parent_lines(ps.drop_first()));
        assert(parent_lines(ps.push(p)) =~= parent_lines(ps) + (parent_prefix() + hex_ascii(p)
            + seq![10u8]));
    }
}

/// Parent rendering, case by case: no parents render no `parent` line at
/// all; two parents render their two lines in the parents' order.
pub proof fn lemma_parent_lines_cases(ps: Seq<Seq<u8>>)
    ensures
        ps.len() == 0 ==> parent_lines(ps) == Seq::<u8>::empty(),
        ps.len() == 2 ==> parent_lines(ps) == parent_prefix() + hex_ascii(ps[0]) + seq![10u8]
            + parent_prefix() + hex_ascii(ps[1]) + seq![10u8],
{
    if ps.len() == 2 {
        assert(ps.drop_first().drop_first() =~= Seq::<Seq<u8>>::empty());
        assert(ps.drop_first()[0] == ps[1]);
        assert(parent_lines(ps.drop_first().drop_first()) == Seq::<u8>::empty());
        assert(parent_lines(ps.drop_first()) == parent_prefix() + hex_ascii(ps.drop_first()[0])
            + seq![10u8] + parent_lines(ps.drop_first().drop_first()));
        assert(parent_lines(ps) == parent_prefix() + hex_ascii(ps[0]) + seq![10u8]
            + parent_lines(ps.drop_first()));
        assert(parent_lines(ps) =~= parent_prefix() + hex_ascii(ps[0]) + seq![10u8]
            + parent_prefix() + hex_ascii(ps[1]) + seq![10u8]);
    }
}

impl Commit {
    /// A commit is well-formed when its view is.
    pub open spec fn wf(&self) -> bool {
        commit_wf(self@)
    }

    /// Assembles a commit from its parts; pure data, no I/O.
    pub fn new(
        sha1: Sha1Hash,
        parents: Vec<Sha1Hash>,
        author_info: Vec<u8>,
        committer_info: Vec<u8>,
        user_comment: Vec<u8>,
    ) -> (r: Commit)
        ensures
            r@ == (CommitView {
                sha1: sha1@,
                parents: hash_views(parents@),
                author_info: author_info@,
                committer_info: committer_info@,
                user_comment: user_comment@,
            }),
    {
        Commit { sha1, parents, author_info, committer_info, user_comment }
    }

    /// Renders the canonical textual form of this commit.
    pub fn render(&self) -> (r: Vec<u8>)
        ensures
            r@ == commit_text(self@),
    {
        let mut out: Vec<u8> = Vec::new();
        out.push(116);
        out.push(114);
        out.push(101);
        out.push(101);
        out.push(32);
        proof {
            assert(out@ =~= tree_prefix());
        }
        let hx = hex_ascii_of(self.sha1.bytes.as_slice());
        crate::codec::push_bytes(&mut out, hx.as_slice());
        out.push(10);
        proof {
            assert(out@ =~= tree_prefix() + hex_ascii(self@.sha1) + seq![10u8]);
        }
        let ghost head = out@;
        let n = self.parents.len();
        for i in 0..n
            invariant
                n == self.parents@.len(),
                head == tree_prefix() + hex_ascii(self@.sha1) + seq![10u8],
                out@ == head + parent_lines(hash_views(self.parents@).take(i as int)),
        {
            out.push(112);
            out.push(97);
            out.push(114);
            out.push(101);
            out.push(110);
            out.push(116);
            out.push(32);
            let hx2 = hex_ascii_of(self.parents[i].bytes.as_slice());
            crate::codec::push_bytes(&mut out, hx2.as_slice());
            out.push(10);
            proof {
                lemma_parent_lines_push(
                    hash_views(self.parents@).take(i as int),
                    self.parents@[i as int]@,
                );
                assert(hash_views(self.parents@).take(i as int).push(self.parents@[i as int]@)
                    =~= hash_views(self.parents@).take(i + 1));
                assert(out@ =~= head + parent_lines(hash_views(self.parents@).take(i + 1)));
            }
        }
        proof {
            assert(hash_views(self.parents@).take(n as int) =~= hash_views(self.parents@));
        }
        out.push(97);
        out.push(117);
        out.push(116);
        out.push(104);
        out.push(111);
        out.push(114);
        out.push(32);
        crate::codec::push_bytes(&mut out, self.author_info.as_slice());
        out.push(10);
        out.push(99);
        out.push(111);
        out.push(109);
        out.push(109);
        out.push(105);
        out.push(116);
        out.push(116);
        out.push(101);
        out.push(114);
        out.push(32);
        crate::codec::push_bytes(&mut out, self.committer_info.as_slice());
        out.push(10);
        out.push(10);
        crate::codec::push_bytes(&mut out, self.user_comment.as_slice());
        proof {
            assert(out@ =~= commit_text(self@));
        }
        out
    }
}

// ------------------------------------------------------------------
// GitObject
// ------------------------------------------------------------------

/// A stored object: blob, tree or commit.
#[derive(Debug)]
pub enum GitObject {
    Blob(Blob),
    Tree(Tree),
    Commit(Commit),
}

impl View for GitObject {
    type V = ObjectView;

    open spec fn view(&self) -> ObjectView {
        match self {
            GitObject::Blob(b) => ObjectView::Blob(b@),
            GitObject::Tree(t) => ObjectView::Tree(t@),
            GitObject::Commit(c) => ObjectView::Commit(c@),
        }
    }
}

/// The short name of an object's kind.
pub open spec fn kind_name_spec(v: ObjectView) -> Seq<char> {
    match v {
        ObjectView::Blob(_) => "blob"@,
        ObjectView::Tree(_) => "tree"@,
        ObjectView::Commit(_) => "commit"@,
    }
}

impl GitObject {
    /// An object is well-formed when its view is.
    pub open spec fn wf(&self) -> bool {
        obj_wf(self@)
    }

    /// A new, empty tree.
    pub fn new_tree() -> (r: Tree)
        ensures
            r@ == Seq::<TreeEntryView>::empty(),
            r.wf(),
    {
        let t = Tree { entries: Vec::new() };
        proof {
            assert(t@ =~= Seq::<TreeEntryView>::empty());
        }
        t
    }

    /// Builds a commit for a tree digest, using the configured identities.
    pub fn new_commit(
        sha1: Sha1Hash,
        parents: Vec<Sha1Hash>,
        user_comment: Vec<u8>,
        config: &Config,
    ) -> (r: Commit)
        ensures
            r@ == (CommitView {
                sha1: sha1@,
                parents: hash_views(parents@),
                author_info: encode_utf8(config.spec_author_info()),
                committer_info: encode_utf8(config.spec_committer_info()),
                user_comment: user_comment@,
            }),
    {
        let author = config.author_info();
        let committer = config.committer_info();
        Commit::new(
            sha1,
            parents,
            author.as_str().as_bytes_vec(),
            committer.as_str().as_bytes_vec(),
            user_comment,
        )
    }

    /// Wraps a blob as an object.
    pub fn from_blob(b: Blob) -> (r: GitObject)
        ensures
            r@ == ObjectView::Blob(b@),
    {
        GitObject::Blob(b)
    }

    /// Wraps a tree as an object.
    pub fn from_tree(t: Tree) -> (r: GitObject)
        ensures
            r@ == ObjectView::Tree(t@),
    {
        GitObject::Tree(t)
    }

    /// Wraps a commit as an object.
    pub fn from_commit(c: Commit) -> (r: GitObject)
        ensures
            r@ == ObjectView::Commit(c@),
    {
        GitObject::Commit(c)
    }

    /// The kind of this object, as text.
    pub fn kind_name(&self) -> (r: String)
        ensures
            r@ == kind_name_spec(self@),
    {
        match self {
            GitObject::Blob(_) => "blob".to_owned(),
            GitObject::Tree(_) => "tree".to_owned(),
            GitObject::Commit(_) => "commit".to_owned(),
        }
    }

    /// The displayable contents of this object: a blob's raw bytes or a
    /// commit's rendered text; a tree has none and is reported as such.
    pub fn cat_bytes(&self, sha1: &Sha1Hash) -> (r: Result<Vec<u8>, GitError>)
        ensures
            self@ matches ObjectView::Blob(d) ==> (r matches Ok(v) && v@ == d),
            self@ matches ObjectView::Commit(c) ==> (r matches Ok(v) && v@ == commit_text(c)),
            self@ is Tree ==> (r matches Err(e) && e matches GitError::IsTreeError(h) && h@
                == sha1@),
    {
        match self {
            GitObject::Blob(b) => Ok(slice_to_vec(b.data.as_slice())),
            GitObject::Commit(c) => Ok(c.render()),
            GitObject::Tree(_) => Err(GitError::IsTreeError(sha1.duplicate())),
        }
    }

    /// The entries of this object if it is a tree; otherwise the error that
    /// names the digest that was expected to be a tree.
    pub fn into_tree_entries(self, sha1: &Sha1Hash) -> (r: Result<Vec<TreeEntry>, GitError>)
        ensures
            self@ matches ObjectView::Tree(es) ==> (r matches Ok(v) && entry_views(v@) == es),
            !(self@ is Tree) ==> (r matches Err(e) && e matches GitError::NotTreeError(h) && h@
                == sha1@),
    {
        match self {
            GitObject::Tree(t) => Ok(t.entries),
            _ => Err(GitError::NotTreeError(sha1.duplicate())),
        }
    }
}

} // verus!
