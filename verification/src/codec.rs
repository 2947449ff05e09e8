//! The canonical byte encoding of stored objects.
//!
//! Every stored value is encoded with three primitives: a 64-bit
//! little-endian integer, a length-prefixed byte string (an integer length
//! followed by the raw bytes), and a raw 20-byte digest.  An object is a
//! one-byte tag followed by its payload:
//!
//! * blob:   tag 0, then the data as a length-prefixed byte string;
//! * tree:   tag 1, then the entry count, then each entry as mode
//!   (64-bit integer), path (length-prefixed) and digest (20 raw bytes),
//!   in strictly ascending path order;
//! * commit: tag 2, then the tree digest (20 raw bytes), the parent count,
//!   each parent digest (20 raw bytes), then author, committer and message
//!   as length-prefixed byte strings.
//!
//! The hash of an object is the digest of this encoding, taken before
//! compression, so it is stable however the store compresses files.

use vstd::prelude::*;
use vstd::bytes::{lemma_auto_spec_u64_to_from_le_bytes, spec_u64_from_le_bytes,
    spec_u64_to_le_bytes, u64_from_le_bytes, u64_to_le_bytes};
use vstd::slice::{slice_subrange, slice_to_vec};

use crate::error::GitError;
use crate::hash::Sha1Hash;
use crate::lex::{lemma_lex_lt_trans, lex_cmp, lex_lt, KeyOrder};
use crate::object::{entries_sorted, entry_views, entry_wf, hash_views, obj_wf, Blob, Commit,
    CommitView, GitObject, ObjectView, Tree, TreeEntry, TreeEntryView};

verus! {

/// The tag byte of a blob object.
pub const TAG_BLOB: u8 = 0;

/// The tag byte of a tree object.
pub const TAG_TREE: u8 = 1;

/// The tag byte of a commit object.
pub const TAG_COMMIT: u8 = 2;

// ------------------------------------------------------------------
// Encoding, as specification functions.
// ------------------------------------------------------------------

/// A 64-bit integer encodes as its eight little-endian bytes.
pub open spec fn enc_u64(n: u64) -> Seq<u8> {
    spec_u64_to_le_bytes(n)
}

/// A byte string encodes as its length followed by its bytes.
pub open spec fn enc_bytes(d: Seq<u8>) -> Seq<u8>
    recommends
        d.len() <= u64::MAX,
{
    enc_u64(d.len() as u64) + d
}

/// A tree entry encodes as mode, path and digest.
pub open spec fn enc_entry(e: TreeEntryView) -> Seq<u8> {
    enc_u64(e.st_mode as u64) + enc_bytes(e.name) + e.sha1
}

/// Tree entries encode in sequence order.
pub open spec fn enc_entries(es: Seq<TreeEntryView>) -> Seq<u8>
    decreases es.len(),
{
    if es.len() == 0 {
        Seq::<u8>::empty()
    } else {
        enc_entry(es[0]) + enc_entries(es.drop_first())
    }
}

/// Parent digests encode in sequence order, 20 raw bytes each.
pub open spec fn enc_hashes(hs: Seq<Seq<u8>>) -> Seq<u8>
    decreases hs.len(),
{
    if hs.len() == 0 {
        Seq::<u8>::empty()
    } else {
        hs[0] + enc_hashes(hs.drop_first())
    }
}

/// The canonical encoding of an object.
pub open spec fn enc_object(v: ObjectView) -> Seq<u8> {
    match v {
        ObjectView::Blob(d) => seq![TAG_BLOB] + enc_bytes(d),
        ObjectView::Tree(es) => seq![TAG_TREE] + enc_u64(es.len() as u64) + enc_entries(es),
        ObjectView::Commit(c) => seq![TAG_COMMIT] + c.sha1 + enc_u64(c.parents.len() as u64)
            + enc_hashes(c.parents) + enc_bytes(c.author_info) + enc_bytes(c.committer_info)
            + enc_bytes(c.user_comment),
    }
}

// ------------------------------------------------------------------
// Decoding, as specification functions over a position in the input.
// ------------------------------------------------------------------

/// Reads a 64-bit integer at `i`; yields the value and the next position.
pub open spec fn dec_u64_at(b: Seq<u8>, i: int) -> Option<(u64, int)> {
    if 0 <= i && i + 8 <= b.len() {
        Some((spec_u64_from_le_bytes(b.subrange(i, i + 8)), i + 8))
    } else {
        None
    }
}

/// Reads a length-prefixed byte string at `i`.
pub open spec fn dec_bytes_at(b: Seq<u8>, i: int) -> Option<(Seq<u8>, int)> {
    match dec_u64_at(b, i) {
        None => None,
        Some((n, j)) => if j + n <= b.len() {
            Some((b.subrange(j, j + n), j + n))
        } else {
            None
        },
    }
}

/// Reads a raw 20-byte digest at `i`.
pub open spec fn dec_hash_at(b: Seq<u8>, i: int) -> Option<(Seq<u8>, int)> {
    if 0 <= i && i + 20 <= b.len() {
        Some((b.subrange(i, i + 20), i + 20))
    } else {
        None
    }
}

/// Reads one tree entry at `i`.
pub open spec fn dec_entry_at(b: Seq<u8>, i: int) -> Option<(TreeEntryView, int)> {
    match dec_u64_at(b, i) {
        None => None,
        Some((m, j)) => if m <= u32::MAX as u64 {
            match dec_bytes_at(b, j) {
                None => None,
                Some((name, k)) => match dec_hash_at(b, k) {
                    None => None,
                    Some((h, l)) => Some(
                        (TreeEntryView { st_mode: m as u32, name: name, sha1: h }, l),
                    ),
                },
            }
        } else {
            None
        },
    }
}

/// Reads `n` tree entries starting at `i`.
pub open spec fn dec_entries_at(b: Seq<u8>, i: int, n: nat) -> Option<(Seq<TreeEntryView>, int)>
    decreases n,
{
    if n == 0 {
        Some((Seq::<TreeEntryView>::empty(), i))
    } else {
        match dec_entry_at(b, i) {
            None => None,
            Some((e, j)) => match dec_entries_at(b, j, (n - 1) as nat) {
                None => None,
                Some((es, k)) => Some((seq![e] + es, k)),
            },
        }
    }
}

/// Reads `n` raw digests starting at `i`.
pub open spec fn dec_hashes_at(b: Seq<u8>, i: int, n: nat) -> Option<(Seq<Seq<u8>>, int)>
    decreases n,
{
    if n == 0 {
        Some((Seq::<Seq<u8>>::empty(), i))
    } else {
        match dec_hash_at(b, i) {
            None => None,
            Some((h, j)) => match dec_hashes_at(b, j, (n - 1) as nat) {
                None => None,
                Some((hs, k)) => Some((seq![h] + hs, k)),
            },
        }
    }
}

// ------------------------------------------------------------------
// Executable building blocks.
// ------------------------------------------------------------------

/// Appends a byte slice to an output buffer.
pub fn push_bytes(out: &mut Vec<u8>, data: &[u8])
    ensures
        final(out)@ == old(out)@ + data@,
{
    let n = data.len();
    for i in 0..n
        invariant
            n == data@.len(),
            out@ == old(out)@ + data@.take(i as int),
    {
        out.push(data[i]);
        proof {
            assert(out@ =~= old(out)@ + data@.take(i + 1));
        }
    }
    proof {
        assert(data@.take(n as int) =~= data@);
    }
}

/// Appends the eight little-endian bytes of an integer.
pub fn push_u64(out: &mut Vec<u8>, n: u64)
    ensures
        final(out)@ == old(out)@ + enc_u64(n),
{
    let bytes = u64_to_le_bytes(n);
    push_bytes(out, bytes.as_slice());
}

/// Decodes a whole object: the tag selects the payload, which must use the
/// input exactly, and tree entries must arrive in strictly ascending order.
pub open spec fn dec_object(b: Seq<u8>) -> Option<ObjectView> {
    if b.len() < 1 {
        None
    } else if b[0] == TAG_BLOB {
        match dec_bytes_at(b, 1) {
            None => None,
            Some((d, j)) => if j == b.len() {
                Some(ObjectView::Blob(d))
            } else {
                None
            },
        }
    } else if b[0] == TAG_TREE {
        match dec_u64_at(b, 1) {
            None => None,
            Some((n, j)) => match dec_entries_at(b, j, n as nat) {
                None => None,
                Some((es, k)) => if k == b.len() && entries_sorted(es) {
                    Some(ObjectView::Tree(es))
                } else {
                    None
                },
            },
        }
    } else if b[0] == TAG_COMMIT {
        match dec_hash_at(b, 1) {
            None => None,
            Some((tree_sha1, i1)) => match dec_u64_at(b, i1) {
                None => None,
                Some((n, i2)) => match dec_hashes_at(b, i2, n as nat) {
                    None => None,
                    Some((ps, i3)) => match dec_bytes_at(b, i3) {
                        None => None,
                        Some((author, i4)) => match dec_bytes_at(b, i4) {
                            None => None,
                            Some((committer, i5)) => match dec_bytes_at(b, i5) {
                                None => None,
                                Some((msg, i6)) => if i6 == b.len() {
                                    Some(
                                        ObjectView::Commit(
                                            CommitView {
                                                sha1: tree_sha1,
                                                parents: ps,
                                                author_info: author,
                                                committer_info: committer,
                                                user_comment: msg,
                                            },
                                        ),
                                    )
                                } else {
                                    None
                                },
                            },
                        },
                    },
                },
            },
        }
    } else {
        None
    }
}

// ------------------------------------------------------------------
// Reading back what was written.
// ------------------------------------------------------------------

/// A subrange of `b` known to equal `s` has `s`'s subranges inside it.
pub(crate) proof fn lemma_extract(b: Seq<u8>, i: int, s: Seq<u8>, lo: int, hi: int)
    requires
        0 <= i,
        i + s.len() <= b.len(),
        b.subrange(i, i + s.len() as int) == s,
        0 <= lo <= hi <= s.len(),
    ensures
        b.subrange(i + lo, i + hi) == s.subrange(lo, hi),
{
    assert(b.subrange(i + lo, i + hi) =~= s.subrange(lo, hi)) by {
        assert forall|k: int|
            0 <= k < hi - lo implies #[trigger] b.subrange(i + lo, i + hi)[k] == s.subrange(
            lo,
            hi,
        )[k] by {
            assert(b.subrange(i, i + s.len() as int)[lo + k] == b[i + lo + k]);
        }
    }
}

/// An integer written at `i` reads back.
pub(crate) proof fn lemma_dec_u64(b: Seq<u8>, i: int, n: u64)
    requires
        0 <= i,
        i + 8 <= b.len(),
        b.subrange(i, i + 8) == enc_u64(n),
    ensures
        dec_u64_at(b, i) == Some((n, i + 8)),
{
    lemma_auto_spec_u64_to_from_le_bytes();
}

/// A length-prefixed byte string written at `i` reads back.
pub(crate) proof fn lemma_dec_bytes(b: Seq<u8>, i: int, d: Seq<u8>)
    requires
        0 <= i,
        d.len() <= u64::MAX,
        i + 8 + d.len() <= b.len(),
        b.subrange(i, i + 8 + d.len() as int) == enc_bytes(d),
    ensures
        dec_bytes_at(b, i) == Some((d, i + 8 + d.len() as int)),
{
    lemma_auto_spec_u64_to_from_le_bytes();
    let s = enc_bytes(d);
    assert(s.subrange(0, 8) =~= enc_u64(d.len() as u64));
    lemma_extract(b, i, s, 0, 8);
    lemma_dec_u64(b, i, d.len() as u64);
    assert(s.subrange(8, 8 + d.len() as int) =~= d);
    lemma_extract(b, i, s, 8, 8 + d.len() as int);
    assert(b.subrange(i + 8, i + 8 + d.len() as int) == d);
}

/// A raw digest written at `i` reads back.
pub(crate) proof fn lemma_dec_hash(b: Seq<u8>, i: int, h: Seq<u8>)
    requires
        0 <= i,
        h.len() == 20,
        i + 20 <= b.len(),
        b.subrange(i, i + 20) == h,
    ensures
        dec_hash_at(b, i) == Some((h, i + 20)),
{
}

/// A tree entry written at `i` reads back.
proof fn lemma_dec_entry(b: Seq<u8>, i: int, e: TreeEntryView)
    requires
        0 <= i,
        entry_wf(e),
        i + enc_entry(e).len() <= b.len(),
        b.subrange(i, i + enc_entry(e).len() as int) == enc_entry(e),
    ensures
        dec_entry_at(b, i) == Some((e, i + enc_entry(e).len() as int)),
        enc_entry(e).len() == 36 + e.name.len(),
{
    lemma_auto_spec_u64_to_from_le_bytes();
    let s = enc_entry(e);
    let nl = e.name.len() as int;
    assert(s.len() == 36 + nl);
    assert(s.subrange(0, 8) =~= enc_u64(e.st_mode as u64));
    lemma_extract(b, i, s, 0, 8);
    lemma_dec_u64(b, i, e.st_mode as u64);
    assert(s.subrange(8, 16 + nl) =~= enc_bytes(e.name));
    lemma_extract(b, i, s, 8, 16 + nl);
    lemma_dec_bytes(b, i + 8, e.name);
    assert(s.subrange(16 + nl, 36 + nl) =~= e.sha1);
    lemma_extract(b, i, s, 16 + nl, 36 + nl);
    lemma_dec_hash(b, i + 16 + nl, e.sha1);
    assert(dec_entry_at(b, i) == Some((e, i + 36 + nl)));
}

/// A run of tree entries written at `i` reads back.
proof fn lemma_dec_entries(b: Seq<u8>, i: int, es: Seq<TreeEntryView>)
    requires
        0 <= i,
        forall|k: int| 0 <= k < es.len() ==> entry_wf(#[trigger] es[k]),
        i + enc_entries(es).len() <= b.len(),
        b.subrange(i, i + enc_entries(es).len() as int) == enc_entries(es),
    ensures
        dec_entries_at(b, i, es.len()) == Some((es, i + enc_entries(es).len() as int)),
    decreases es.len(),
{
    if es.len() == 0 {
        assert(es =~= Seq::<TreeEntryView>::empty());
    } else {
        let e = es[0];
        let rest = es.drop_first();
        let s = enc_entries(es);
        let l0 = enc_entry(e).len() as int;
        assert(s == enc_entry(e) + enc_entries(rest));
        assert(s.subrange(0, l0) =~= enc_entry(e));
        lemma_extract(b, i, s, 0, l0);
        lemma_dec_entry(b, i, e);
        assert(s.subrange(l0, s.len() as int) =~= enc_entries(rest));
        lemma_extract(b, i, s, l0, s.len() as int);
        lemma_dec_entries(b, i + l0, rest);
        assert(seq![e] + rest =~= es);
        assert(dec_entries_at(b, i, es.len()) == Some((es, i + s.len() as int)));
    }
}

/// A run of raw digests written at `i` reads back.
proof fn lemma_dec_hashes(b: Seq<u8>, i: int, hs: Seq<Seq<u8>>)
    requires
        0 <= i,
        forall|k: int| 0 <= k < hs.len() ==> (#[trigger] hs[k]).len() == 20,
        i + enc_hashes(hs).len() <= b.len(),
        b.subrange(i, i + enc_hashes(hs).len() as int) == enc_hashes(hs),
    ensures
        dec_hashes_at(b, i, hs.len()) == Some((hs, i + enc_hashes(hs).len() as int)),
    decreases hs.len(),
{
    if hs.len() == 0 {
        assert(hs =~= Seq::<Seq<u8>>::empty());
    } else {
        let h = hs[0];
        let rest = hs.drop_first();
        let s = enc_hashes(hs);
        assert(s == h + enc_hashes(rest));
        assert(s.subrange(0, 20) =~= h);
        lemma_extract(b, i, s, 0, 20);
        lemma_dec_hash(b, i, h);
        assert(s.subrange(20, s.len() as int) =~= enc_hashes(rest));
        lemma_extract(b, i, s, 20, s.len() as int);
        lemma_dec_hashes(b, i + 20, rest);
        assert(seq![h] + rest =~= hs);
        assert(dec_hashes_at(b, i, hs.len()) == Some((hs, i + s.len() as int)));
    }
}

/// Decoding inverts encoding: every well-formed object reads back from its
/// canonical bytes as exactly itself.
pub proof fn lemma_dec_object_enc(v: ObjectView)
    requires
        obj_wf(v),
    ensures
        dec_object(enc_object(v)) == Some(v),
{
    lemma_auto_spec_u64_to_from_le_bytes();
    let b = enc_object(v);
    match v {
        ObjectView::Blob(d) => {
            assert(b[0] == TAG_BLOB);
            assert(b.len() == 9 + d.len());
            assert(b.subrange(1, b.len() as int) =~= enc_bytes(d));
            lemma_dec_bytes(b, 1, d);
            assert(dec_object(b) == Some(v));
        },
        ObjectView::Tree(es) => {
            assert(b[0] == TAG_TREE);
            assert(b.len() == 9 + enc_entries(es).len());
            assert(b.subrange(1, 9) =~= enc_u64(es.len() as u64));
            lemma_dec_u64(b, 1, es.len() as u64);
            assert(b.subrange(9, b.len() as int) =~= enc_entries(es));
            lemma_dec_entries(b, 9, es);
            assert((es.len() as u64) as nat == es.len());
            assert(dec_object(b) == Some(v));
        },
        ObjectView::Commit(c) => {
            assert(b[0] == TAG_COMMIT);
            let lp = enc_hashes(c.parents).len() as int;
            let la = c.author_info.len() as int;
            let lc = c.committer_info.len() as int;
            let lm = c.user_comment.len() as int;
            assert(b.len() == 29 + lp + 8 + la + 8 + lc + 8 + lm);
            assert(b.subrange(1, 21) =~= c.sha1);
            lemma_dec_hash(b, 1, c.sha1);
            assert(b.subrange(21, 29) =~= enc_u64(c.parents.len() as u64));
            lemma_dec_u64(b, 21, c.parents.len() as u64);
            assert(b.subrange(29, 29 + lp) =~= enc_hashes(c.parents));
            lemma_dec_hashes(b, 29, c.parents);
            assert(b.subrange(29 + lp, 37 + lp + la) =~= enc_bytes(c.author_info));
            lemma_dec_bytes(b, 29 + lp, c.author_info);
            assert(b.subrange(37 + lp + la, 45 + lp + la + lc) =~= enc_bytes(c.committer_info));
            lemma_dec_bytes(b, 37 + lp + la, c.committer_info);
            assert(b.subrange(45 + lp + la + lc, 53 + lp + la + lc + lm) =~= enc_bytes(
                c.user_comment,
            ));
            lemma_dec_bytes(b, 45 + lp + la + lc, c.user_comment);
            assert((c.parents.len() as u64) as nat == c.parents.len());
            assert(dec_object(b) == Some(v));
        },
    }
}

// ------------------------------------------------------------------
// Executable encoder and decoder.
// ------------------------------------------------------------------

/// Reads a 64-bit integer.
pub(crate) fn read_u64_at(b: &[u8], pos: usize) -> (r: Option<(u64, usize)>)
    ensures
        r is Some <==> dec_u64_at(b@, pos as int) is Some,
        r matches Some((n, j)) ==> dec_u64_at(b@, pos as int) == Some((n, j as int)) && j <= b@.len(),
{
    if pos <= b.len() && b.len() - pos >= 8 {
        let s = slice_subrange(b, pos, pos + 8);
        let n = u64_from_le_bytes(s);
        Some((n, pos + 8))
    } else {
        None
    }
}

/// Reads a length-prefixed byte string.
pub(crate) fn read_bytes_at(b: &[u8], pos: usize) -> (r: Option<(Vec<u8>, usize)>)
    ensures
        r is Some <==> dec_bytes_at(b@, pos as int) is Some,
        r matches Some((d, j)) ==> dec_bytes_at(b@, pos as int) == Some((d@, j as int)) && j
            <= b@.len() && d@.len() <= u64::MAX,
{
    match read_u64_at(b, pos) {
        None => None,
        Some((n, j)) => {
            if n <= (b.len() - j) as u64 {
                let len = n as usize;
                let d = slice_to_vec(slice_subrange(b, j, j + len));
                Some((d, j + len))
            } else {
                None
            }
        },
    }
}

/// Reads a raw 20-byte digest.
pub(crate) fn read_hash_at(b: &[u8], pos: usize) -> (r: Option<(Sha1Hash, usize)>)
    ensures
        r is Some <==> dec_hash_at(b@, pos as int) is Some,
        r matches Some((h, j)) ==> dec_hash_at(b@, pos as int) == Some((h@, j as int)) && j
            <= b@.len() && h@.len() == 20,
{
    if pos <= b.len() && b.len() - pos >= 20 {
        let h = Sha1Hash { bytes: slice_to_vec(slice_subrange(b, pos, pos + 20)) };
        Some((h, pos + 20))
    } else {
        None
    }
}

/// Reads one tree entry.
fn read_entry_at(b: &[u8], pos: usize) -> (r: Option<(TreeEntry, usize)>)
    ensures
        r is Some <==> dec_entry_at(b@, pos as int) is Some,
        r matches Some((e, j)) ==> dec_entry_at(b@, pos as int) == Some((e@, j as int)) && j
            <= b@.len() && entry_wf(e@),
{
    match read_u64_at(b, pos) {
        None => None,
        Some((m, j)) => {
            if m <= u32::MAX as u64 {
                match read_bytes_at(b, j) {
                    None => None,
                    Some((name, k)) => match read_hash_at(b, k) {
                        None => None,
                        Some((h, l)) => Some((TreeEntry { st_mode: m as u32, name, sha1: h }, l)),
                    },
                }
            } else {
                None
            }
        },
    }
}

/// Adjacent order on all neighbours gives the full strict order.
proof fn lemma_chain(es: Seq<TreeEntryView>, i: int, j: int)
    requires
        forall|k: int| 0 <= k < es.len() - 1 ==> lex_lt((#[trigger] es[k]).name, es[k + 1].name),
        0 <= i < j < es.len(),
    ensures
        lex_lt(es[i].name, es[j].name),
    decreases j - i,
{
    if j == i + 1 {
    } else {
        lemma_chain(es, i, j - 1);
        lemma_lex_lt_trans(es[i].name, es[j - 1].name, es[j].name);
    }
}

/// Checks that entries are strictly ascending by path.
fn check_entries_sorted(entries: &Vec<TreeEntry>) -> (r: bool)
    ensures
        r == entries_sorted(entry_views(entries@)),
{
    let n = entries.len();
    let ghost es = entry_views(entries@);
    let mut i: usize = 1;
    while i < n
        invariant
            n == entries@.len(),
            es == entry_views(entries@),
            1 <= i || n == 0,
            i <= n || (n == 0 && i == 1),
            forall|k: int| 0 <= k < i - 1 ==> lex_lt((#[trigger] es[k]).name, es[k + 1].name),
        decreases n - i,
    {
        match lex_cmp(entries[i - 1].name.as_slice(), entries[i].name.as_slice()) {
            KeyOrder::Less => {
                i = i + 1;
            },
            KeyOrder::Equal => {
                proof {
                    crate::lex::lemma_lex_lt_irrefl(es[i as int].name);
                    assert(!lex_lt(es[i as int - 1].name, es[i as int].name));
                }
                return false;
            },
            KeyOrder::Greater => {
                proof {
                    crate::lex::lemma_lex_lt_asym(es[i as int].name, es[i as int - 1].name);
                    assert(!lex_lt(es[i as int - 1].name, es[i as int].name));
                }
                return false;
            },
        }
    }
    proof {
        if n > 0 {
            assert forall|p: int, q: int| 0 <= p < q < es.len() implies lex_lt(
                (#[trigger] es[p]).name,
                (#[trigger] es[q]).name,
            ) by {
                lemma_chain(es, p, q);
            }
        }
    }
    true
}

/// Encodes an object into its canonical bytes.
pub fn encode_object(obj: &GitObject) -> (r: Vec<u8>)
    requires
        obj.wf(),
    ensures
        r@ == enc_object(obj@),
{
    let mut out: Vec<u8> = Vec::new();
    match obj {
        GitObject::Blob(blob) => {
            out.push(TAG_BLOB);
            push_u64(&mut out, blob.data.len() as u64);
            push_bytes(&mut out, blob.data.as_slice());
            proof {
                assert(out@ =~= enc_object(obj@));
            }
        },
        GitObject::Tree(t) => {
            out.push(TAG_TREE);
            let n = t.entries.len();
            push_u64(&mut out, n as u64);
            proof {
                assert(entry_views(t.entries@).take(0) =~= Seq::<TreeEntryView>::empty());
                assert(out@ =~= seq![TAG_TREE] + enc_u64(n as u64) + enc_entries(
                    entry_views(t.entries@).take(0),
                ));
            }
            for i in 0..n
                invariant
                    n == t.entries@.len(),
                    out@ == seq![TAG_TREE] + enc_u64(n as u64) + enc_entries(
                        entry_views(t.entries@).take(i as int),
                    ),
            {
                push_u64(&mut out, t.entries[i].st_mode as u64);
                push_u64(&mut out, t.entries[i].name.len() as u64);
                push_bytes(&mut out, t.entries[i].name.as_slice());
                push_bytes(&mut out, t.entries[i].sha1.bytes.as_slice());
                proof {
                    lemma_enc_entries_push(
                        entry_views(t.entries@).take(i as int),
                        t.entries@[i as int]@,
                    );
                    assert(entry_views(t.entries@).take(i as int).push(t.entries@[i as int]@)
                        =~= entry_views(t.entries@).take(i + 1));
                    assert(out@ =~= seq![TAG_TREE] + enc_u64(n as u64) + enc_entries(
                        entry_views(t.entries@).take(i + 1),
                    ));
                }
            }
            proof {
                assert(entry_views(t.entries@).take(n as int) =~= entry_views(t.entries@));
                assert(out@ =~= enc_object(obj@));
            }
        },
        GitObject::Commit(c) => {
            out.push(TAG_COMMIT);
            push_bytes(&mut out, c.sha1.bytes.as_slice());
            let n = c.parents.len();
            push_u64(&mut out, n as u64);
            proof {
                assert(hash_views(c.parents@).take(0) =~= Seq::<Seq<u8>>::empty());
                assert(out@ =~= seq![TAG_COMMIT] + c.sha1@ + enc_u64(n as u64) + enc_hashes(
                    hash_views(c.parents@).take(0),
                ));
            }
            for i in 0..n
                invariant
                    n == c.parents@.len(),
                    out@ == seq![TAG_COMMIT] + c.sha1@ + enc_u64(n as u64) + enc_hashes(
                        hash_views(c.parents@).take(i as int),
                    ),
            {
                push_bytes(&mut out, c.parents[i].bytes.as_slice());
                proof {
                    lemma_enc_hashes_push(
                        hash_views(c.parents@).take(i as int),
                        c.parents@[i as int]@,
                    );
                    assert(hash_views(c.parents@).take(i as int).push(c.parents@[i as int]@)
                        =~= hash_views(c.parents@).take(i + 1));
                    assert(out@ =~= seq![TAG_COMMIT] + c.sha1@ + enc_u64(n as u64) + enc_hashes(
                        hash_views(c.parents@).take(i + 1),
                    ));
                }
            }
            proof {
                assert(hash_views(c.parents@).take(n as int) =~= hash_views(c.parents@));
            }
            push_u64(&mut out, c.author_info.len() as u64);
            push_bytes(&mut out, c.author_info.as_slice());
            push_u64(&mut out, c.committer_info.len() as u64);
            push_bytes(&mut out, c.committer_info.as_slice());
            push_u64(&mut out, c.user_comment.len() as u64);
            push_bytes(&mut out, c.user_comment.as_slice());
            proof {
                assert(out@ =~= enc_object(obj@));
            }
        },
    }
    out
}

/// Decodes canonical bytes into an object; anything that is not exactly the
/// encoding of a well-formed object is a `CorruptObject`.
#[verifier::loop_isolation(false)]
pub fn decode_object(b: &[u8]) -> (r: Result<GitObject, GitError>)
    ensures
        r is Ok <==> dec_object(b@) is Some,
        r matches Ok(o) ==> (dec_object(b@) == Some(o@) && o.wf()),
        r matches Err(e) ==> e is CorruptObject,
{
    if b.len() < 1 {
        return Err(GitError::CorruptObject);
    }
    let tag = b[0];
    if tag == TAG_BLOB {
        match read_bytes_at(b, 1) {
            None => Err(GitError::CorruptObject),
            Some((d, j)) => {
                if j == b.len() {
                    Ok(GitObject::Blob(Blob { data: d }))
                } else {
                    Err(GitError::CorruptObject)
                }
            },
        }
    } else if tag == TAG_TREE {
        match read_u64_at(b, 1) {
            None => Err(GitError::CorruptObject),
            Some((n, start)) => {
                let mut entries: Vec<TreeEntry> = Vec::new();
                let mut pos = start;
                let mut m: u64 = 0;
                while m < n
                    invariant
                        m <= n,
                        pos <= b@.len(),
                        entries@.len() == m,
                        forall|k: int|
                            0 <= k < entries@.len() ==> entry_wf(
                                #[trigger] entry_views(entries@)[k],
                            ),
                        dec_entries_at(b@, start as int, n as nat) == (match dec_entries_at(
                            b@,
                            pos as int,
                            (n - m) as nat,
                        ) {
                            Some((rest, end)) => Some((entry_views(entries@) + rest, end)),
                            None => None::<(Seq<TreeEntryView>, int)>,
                        }),
                    decreases n - m,
                {
                    let ghost prev_entries = entries@;
                    let ghost prev_pos = pos as int;
                    match read_entry_at(b, pos) {
                        None => {
                            proof {
                                assert(dec_entry_at(b@, pos as int) is None);
                                assert((n - m) as nat != 0);
                                assert(dec_entries_at(b@, pos as int, (n - m) as nat) is None);
                                assert(dec_entries_at(b@, start as int, n as nat) is None);
                                assert(dec_object(b@) is None);
                            }
                            return Err(GitError::CorruptObject);
                        },
                        Some((e, npos)) => {
                            entries.push(e);
                            pos = npos;
                            m = m + 1;
                            proof {
                                assert(entry_views(entries@) =~= entry_views(prev_entries).push(
                                    e@,
                                ));
                                let next = dec_entries_at(b@, pos as int, (n - m) as nat);
                                if next is Some {
                                    let (rest2, end2) = next->0;
                                    assert(entry_views(prev_entries) + (seq![e@] + rest2)
                                        =~= entry_views(entries@) + rest2);
                                }
                            }
                        },
                    }
                }
                if pos != b.len() {
                    proof {
                        assert(entry_views(entries@) + Seq::<TreeEntryView>::empty()
                            =~= entry_views(entries@));
                    }
                    return Err(GitError::CorruptObject);
                }
                proof {
                    assert(entry_views(entries@) + Seq::<TreeEntryView>::empty() =~= entry_views(
                        entries@,
                    ));
                }
                if !check_entries_sorted(&entries) {
                    return Err(GitError::CorruptObject);
                }
                Ok(GitObject::Tree(Tree { entries }))
            },
        }
    } else if tag == TAG_COMMIT {
        let (tree_sha1, i1) = match read_hash_at(b, 1) {
            None => {
                return Err(GitError::CorruptObject);
            },
            Some(x) => x,
        };
        let (n, i2) = match read_u64_at(b, i1) {
            None => {
                return Err(GitError::CorruptObject);
            },
            Some(x) => x,
        };
        let mut parents: Vec<Sha1Hash> = Vec::new();
        let mut pos = i2;
        let mut m: u64 = 0;
        while m < n
            invariant
                m <= n,
                pos <= b@.len(),
                parents@.len() == m,
                forall|k: int| 0 <= k < parents@.len() ==> (#[trigger] hash_views(parents@)[k]).len() == 20,
                dec_hashes_at(b@, i2 as int, n as nat) == (match dec_hashes_at(
                    b@,
                    pos as int,
                    (n - m) as nat,
                ) {
                    Some((rest, end)) => Some((hash_views(parents@) + rest, end)),
                    None => None::<(Seq<Seq<u8>>, int)>,
                }),
            decreases n - m,
        {
            let ghost prev_parents = parents@;
            match read_hash_at(b, pos) {
                None => {
                    proof {
                        assert(dec_hash_at(b@, pos as int) is None);
                        assert((n - m) as nat != 0);
                        assert(dec_hashes_at(b@, pos as int, (n - m) as nat) is None);
                        assert(dec_hashes_at(b@, i2 as int, n as nat) is None);
                        assert(dec_object(b@) is None);
                    }
                    return Err(GitError::CorruptObject);
                },
                Some((h, npos)) => {
                    parents.push(h);
                    pos = npos;
                    m = m + 1;
                    proof {
                        assert(hash_views(parents@) =~= hash_views(prev_parents).push(
                            parents@[parents@.len() - 1]@,
                        ));
                        let next = dec_hashes_at(b@, pos as int, (n - m) as nat);
                        if next is Some {
                            let (rest2, end2) = next->0;
                            assert(hash_views(prev_parents) + (seq![parents@[parents@.len()
                                - 1]@] + rest2) =~= hash_views(parents@) + rest2);
                        }
                    }
                },
            }
        }
        proof {
            assert(hash_views(parents@) + Seq::<Seq<u8>>::empty() =~= hash_views(parents@));
        }
        let (author, i4) = match read_bytes_at(b, pos) {
            None => {
                return Err(GitError::CorruptObject);
            },
            Some(x) => x,
        };
        let (committer, i5) = match read_bytes_at(b, i4) {
            None => {
                return Err(GitError::CorruptObject);
            },
            Some(x) => x,
        };
        let (msg, i6) = match read_bytes_at(b, i5) {
            None => {
                return Err(GitError::CorruptObject);
            },
            Some(x) => x,
        };
        if i6 != b.len() {
            return Err(GitError::CorruptObject);
        }
        Ok(
            GitObject::Commit(
                Commit {
                    sha1: tree_sha1,
                    parents,
                    author_info: author,
                    committer_info: committer,
                    user_comment: msg,
                },
            ),
        )
    } else {
        Err(GitError::CorruptObject)
    }
}

/// Appending one entry to a run appends its encoding.
pub proof fn lemma_enc_entries_push(es: Seq<TreeEntryView>, e: TreeEntryView)
    ensures
        enc_entries(es.push(e)) == enc_entries(es) + enc_entry(e),
    decreases es.len(),
{
    if es.len() == 0 {
        assert(es.push(e)[0] == e);
        assert(es.push(e).drop_first() =~= Seq::<TreeEntryView>::empty());
        assert(es =~= Seq::<TreeEntryView>::empty());
        assert(enc_entries(es) == Seq::<u8>::empty());
        assert(enc_entries(es.push(e)) == enc_entry(e) + enc_entries(
            Seq::<TreeEntryView>::empty(),
        ));
        assert(enc_entries(es.push(e)) =~= enc_entries(es) + enc_entry(e));
    } else {
        lemma_enc_entries_push(es.drop_first(), e);
        assert(es.push(e).drop_first() =~= es.drop_first().push(e));
        assert(es.push(e)[0] == es[0]);
        assert(enc_entries(es.push(e)) == enc_entry(es[0]) + enc_entries(es.drop_first().push(e)));
        assert(enc_entries(es) == enc_entry(es[0]) + enc_entries(es.drop_first()));
        assert(enc_entries(es.push(e)) =~= enc_entries(es) + enc_entry(e));
    }
}

/// Appending one digest to a run appends its 20 bytes.
pub proof fn lemma_enc_hashes_push(hs: Seq<Seq<u8>>, h: Seq<u8>)
    ensures
        enc_hashes(hs.push(h)) == enc_hashes(hs) + h,
    decreases hs.len(),
{
    if hs.len() == 0 {
        assert(hs.push(h)[0] == h);
        assert(hs.push(h).drop_first() =~= Seq::<Seq<u8>>::empty());
        assert(hs =~= Seq::<Seq<u8>>::empty());
        assert(enc_hashes(hs) == Seq::<u8>::empty());
        assert(enc_hashes(hs.push(h)) == h + enc_hashes(Seq::<Seq<u8>>::empty()));
        assert(enc_hashes(hs.push(h)) =~= enc_hashes(hs) + h);
    } else {
        lemma_enc_hashes_push(hs.drop_first(), h);
        assert(hs.push(h).drop_first() =~= hs.drop_first().push(h));
        assert(hs.push(h)[0] == hs[0]);
        assert(enc_hashes(hs.push(h)) == hs[0] + enc_hashes(hs.drop_first().push(h)));
        assert(enc_hashes(hs) == hs[0] + enc_hashes(hs.drop_first()));
        assert(enc_hashes(hs.push(h)) =~= enc_hashes(hs) + h);
    }
}

} // verus!
