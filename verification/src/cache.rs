//! The index: an ordered snapshot of tracked paths and their filesystem
//! state, with cheap stat-based change detection.

use vstd::prelude::*;
use vstd::slice::slice_to_vec;

use crate::codec::{dec_bytes_at, dec_hash_at, dec_u64_at, enc_bytes, enc_u64, lemma_dec_bytes,
    lemma_dec_hash, lemma_dec_u64, lemma_extract, push_bytes, push_u64, read_bytes_at,
    read_hash_at, read_u64_at};
use crate::error::GitError;
use crate::hash::Sha1Hash;
use crate::lex::{lemma_lex_lt_asym, lemma_lex_lt_irrefl, lemma_lex_lt_trans, lex_cmp, lex_lt,
    KeyOrder};
use crate::object::{entry_views, Tree, TreeEntry, TreeEntryView};
use vstd::bytes::{lemma_auto_spec_u64_to_from_le_bytes, spec_u64_from_le_bytes};
use vstd::slice::slice_subrange;

verus! {

/// The magic constant written at the head of every index file.
pub const CACHE_SIGNATURE: u32 = 0x44495243;

/// The modify-time dimension differs.
pub const MTIME_CHANGED: u64 = 0x0001;

/// The change-time dimension differs.
pub const CTIME_CHANGED: u64 = 0x0002;

/// The owner (uid or gid) differs.
pub const OWNER_CHANGED: u64 = 0x0004;

/// The mode bits differ.
pub const MODE_CHANGED: u64 = 0x0008;

/// The device or inode differs.
pub const INODE_CHANGED: u64 = 0x0010;

/// The size differs.
pub const DATA_CHANGED: u64 = 0x0020;

/// The filesystem metadata observed for one path at one moment.  The caller
/// stats the file and passes these plain values in.
#[derive(Clone, Copy, Debug, PartialEq, Eq, Structural)]
pub struct StatData {
    pub ctime: i64,
    pub ctime_nsec: i64,
    pub mtime: i64,
    pub mtime_nsec: i64,
    pub st_dev: u64,
    pub st_ino: u64,
    pub st_mode: u32,
    pub st_uid: u32,
    pub st_gid: u32,
    pub st_size: u64,
}

/// The value of one index entry.
pub ghost struct CacheEntryView {
    pub stat: StatData,
    pub sha1: Seq<u8>,
    pub name: Seq<u8>,
}

/// One tracked path: its stat snapshot, content digest and name.
#[derive(Debug)]
pub struct CacheEntry {
    pub ctime: i64,
    pub ctime_nsec: i64,
    pub mtime: i64,
    pub mtime_nsec: i64,
    pub st_dev: u64,
    pub st_ino: u64,
    pub st_mode: u32,
    pub st_uid: u32,
    pub st_gid: u32,
    pub st_size: u64,
    pub sha1: Sha1Hash,
    pub name: Vec<u8>,
}

impl View for CacheEntry {
    type V = CacheEntryView;

    open spec fn view(&self) -> CacheEntryView {
        CacheEntryView {
            stat: StatData {
                ctime: self.ctime,
                ctime_nsec: self.ctime_nsec,
                mtime: self.mtime,
                mtime_nsec: self.mtime_nsec,
                st_dev: self.st_dev,
                st_ino: self.st_ino,
                st_mode: self.st_mode,
                st_uid: self.st_uid,
                st_gid: self.st_gid,
                st_size: self.st_size,
            },
            sha1: self.sha1@,
            name: self.name@,
        }
    }
}

/// The six-dimension difference mask between an entry's snapshot and a
/// freshly observed stat: one bit per differing dimension.
pub open spec fn diff_mask(e: CacheEntryView, s: StatData) -> u64 {
    (if e.stat.mtime != s.mtime || e.stat.mtime_nsec != s.mtime_nsec {
        MTIME_CHANGED
    } else {
        0
    }) | (if e.stat.ctime != s.ctime || e.stat.ctime_nsec != s.ctime_nsec {
        CTIME_CHANGED
    } else {
        0
    }) | (if e.stat.st_uid != s.st_uid || e.stat.st_gid != s.st_gid {
        OWNER_CHANGED
    } else {
        0
    }) | (if e.stat.st_mode != s.st_mode {
        MODE_CHANGED
    } else {
        0
    }) | (if e.stat.st_dev != s.st_dev || e.stat.st_ino != s.st_ino {
        INODE_CHANGED
    } else {
        0
    }) | (if e.stat.st_size != s.st_size {
        DATA_CHANGED
    } else {
        0
    })
}

/// Whether all six tracked dimensions of an entry match an observed stat.
pub open spec fn stat_matches(e: CacheEntryView, s: StatData) -> bool {
    &&& e.stat.mtime == s.mtime && e.stat.mtime_nsec == s.mtime_nsec
    &&& e.stat.ctime == s.ctime && e.stat.ctime_nsec == s.ctime_nsec
    &&& e.stat.st_uid == s.st_uid && e.stat.st_gid == s.st_gid
    &&& e.stat.st_mode == s.st_mode
    &&& e.stat.st_dev == s.st_dev && e.stat.st_ino == s.st_ino
    &&& e.stat.st_size == s.st_size
}

/// The mask is zero exactly when every tracked dimension matches.
pub proof fn lemma_diff_mask_zero(e: CacheEntryView, s: StatData)
    ensures
        diff_mask(e, s) == 0 <==> stat_matches(e, s),
{
    let m1: u64 = if e.stat.mtime != s.mtime || e.stat.mtime_nsec != s.mtime_nsec {
        MTIME_CHANGED
    } else {
        0
    };
    let m2: u64 = if e.stat.ctime != s.ctime || e.stat.ctime_nsec != s.ctime_nsec {
        CTIME_CHANGED
    } else {
        0
    };
    let m3: u64 = if e.stat.st_uid != s.st_uid || e.stat.st_gid != s.st_gid {
        OWNER_CHANGED
    } else {
        0
    };
    let m4: u64 = if e.stat.st_mode != s.st_mode {
        MODE_CHANGED
    } else {
        0
    };
    let m5: u64 = if e.stat.st_dev != s.st_dev || e.stat.st_ino != s.st_ino {
        INODE_CHANGED
    } else {
        0
    };
    let m6: u64 = if e.stat.st_size != s.st_size {
        DATA_CHANGED
    } else {
        0
    };
    assert(((m1 | m2 | m3 | m4 | m5 | m6) == 0) == (m1 == 0 && m2 == 0 && m3 == 0 && m4 == 0
        && m5 == 0 && m6 == 0)) by (bit_vector);
}

impl CacheEntry {
    /// A well-formed entry holds a 20-byte digest.
    pub open spec fn wf(&self) -> bool {
        self.sha1@.len() == 20
    }

    /// Captures a path's snapshot: its observed stat fields, plus the
    /// externally computed content digest.
    pub fn new(name: Vec<u8>, sha1: Sha1Hash, stat: &StatData) -> (r: CacheEntry)
        ensures
            r@ == (CacheEntryView { stat: *stat, sha1: sha1@, name: name@ }),
    {
        CacheEntry {
            ctime: stat.ctime,
            ctime_nsec: stat.ctime_nsec,
            mtime: stat.mtime,
            mtime_nsec: stat.mtime_nsec,
            st_dev: stat.st_dev,
            st_ino: stat.st_ino,
            st_mode: stat.st_mode,
            st_uid: stat.st_uid,
            st_gid: stat.st_gid,
            st_size: stat.st_size,
            sha1,
            name,
        }
    }

    /// Compares this entry against a freshly observed stat, one bit per
    /// differing dimension; zero means nothing changed.
    pub fn match_stat(&self, meta: &StatData) -> (r: u64)
        ensures
            r == diff_mask(self@, *meta),
            r == 0 <==> stat_matches(self@, *meta),
    {
        let m1: u64 = if self.mtime != meta.mtime || self.mtime_nsec != meta.mtime_nsec {
            MTIME_CHANGED
        } else {
            0
        };
        let m2: u64 = if self.ctime != meta.ctime || self.ctime_nsec != meta.ctime_nsec {
            CTIME_CHANGED
        } else {
            0
        };
        let m3: u64 = if self.st_uid != meta.st_uid || self.st_gid != meta.st_gid {
            OWNER_CHANGED
        } else {
            0
        };
        let m4: u64 = if self.st_mode != meta.st_mode {
            MODE_CHANGED
        } else {
            0
        };
        let m5: u64 = if self.st_dev != meta.st_dev || self.st_ino != meta.st_ino {
            INODE_CHANGED
        } else {
            0
        };
        let m6: u64 = if self.st_size != meta.st_size {
            DATA_CHANGED
        } else {
            0
        };
        proof {
            lemma_diff_mask_zero(self@, *meta);
        }
        m1 | m2 | m3 | m4 | m5 | m6
    }
}

/// The index header: a fixed signature and the writing format version.
#[derive(Debug)]
pub struct CacheHeader {
    pub signature: u32,
    pub version: Vec<u8>,
}

/// The version bytes this library writes: the ASCII text `0.1.0`.
pub open spec fn cache_version_bytes() -> Seq<u8> {
    seq![48u8, 46u8, 49u8, 46u8, 48u8]
}

impl Default for CacheHeader {
    /// A fresh header: the signature constant and this library's version.
    fn default() -> (r: CacheHeader)
        ensures
            r.signature == CACHE_SIGNATURE,
            r.version@ == cache_version_bytes(),
    {
        let mut version: Vec<u8> = Vec::new();
        version.push(48);
        version.push(46);
        version.push(49);
        version.push(46);
        version.push(48);
        proof {
            assert(version@ =~= cache_version_bytes());
        }
        CacheHeader { signature: CACHE_SIGNATURE, version }
    }
}

/// The value of a whole index.
pub ghost struct CacheView {
    pub signature: u32,
    pub version: Seq<u8>,
    pub entries: Seq<CacheEntryView>,
}

/// Cache entries are strictly ascending by path.
pub open spec fn cache_entries_sorted(es: Seq<CacheEntryView>) -> bool {
    forall|i: int, j: int|
        0 <= i < j < es.len() ==> lex_lt(#[trigger] es[i].name, #[trigger] es[j].name)
}

/// A well-formed entry view: 20-byte digest, encodable name.
pub open spec fn cache_entry_wf(e: CacheEntryView) -> bool {
    &&& e.sha1.len() == 20
    &&& e.name.len() <= u64::MAX
}

/// The full set of tracked paths and their last-known state, ordered by
/// path.  Persisted as one file, always rewritten whole.
#[derive(Debug)]
pub struct Cache {
    pub header: CacheHeader,
    pub entries: Vec<CacheEntry>,
}

/// The views of a sequence of cache entries.
pub open spec fn cache_entry_views(s: Seq<CacheEntry>) -> Seq<CacheEntryView> {
    Seq::new(s.len(), |i: int| s[i]@)
}

impl View for Cache {
    type V = CacheView;

    open spec fn view(&self) -> CacheView {
        CacheView {
            signature: self.header.signature,
            version: self.header.version@,
            entries: cache_entry_views(self.entries@),
        }
    }
}

/// Where a new entry lands among sorted entries: an equal path is replaced,
/// otherwise the entry goes before the first larger path.
pub open spec fn spec_cache_insert(es: Seq<CacheEntryView>, e: CacheEntryView) -> Seq<
    CacheEntryView,
>
    decreases es.len(),
{
    if es.len() == 0 {
        seq![e]
    } else if lex_lt(e.name, es[0].name) {
        seq![e] + es
    } else if e.name == es[0].name {
        seq![e] + es.drop_first()
    } else {
        seq![es[0]] + spec_cache_insert(es.drop_first(), e)
    }
}

/// The sorted insertion point splits the sequence around the new entry.
proof fn lemma_cache_insert_at(es: Seq<CacheEntryView>, e: CacheEntryView, j: int)
    requires
        0 <= j <= es.len(),
        forall|k: int| 0 <= k < j ==> lex_lt((#[trigger] es[k]).name, e.name),
        j < es.len() ==> (lex_lt(e.name, es[j].name) || e.name == es[j].name),
    ensures
        j < es.len() && es[j].name == e.name ==> spec_cache_insert(es, e) == es.take(j) + seq![e]
            + es.skip(j + 1),
        j == es.len() || lex_lt(e.name, es[j].name) ==> spec_cache_insert(es, e) == es.take(j)
            + seq![e] + es.skip(j),
    decreases j,
{
    if j == 0 {
        if es.len() == 0 {
            assert(spec_cache_insert(es, e) =~= es.take(0) + seq![e] + es.skip(0));
        } else {
            if lex_lt(e.name, es[0].name) {
                lemma_lex_lt_irrefl(e.name);
                assert(spec_cache_insert(es, e) =~= es.take(0) + seq![e] + es.skip(0));
            } else if e.name == es[0].name {
                assert(spec_cache_insert(es, e) =~= es.take(0) + seq![e] + es.skip(1));
            }
        }
    } else {
        assert(lex_lt(es[0].name, e.name));
        lemma_lex_lt_asym(es[0].name, e.name);
        lemma_lex_lt_irrefl(e.name);
        assert(!lex_lt(e.name, es[0].name));
        assert(e.name != es[0].name);
        let rest = es.drop_first();
        assert(forall|k: int| 0 <= k < j - 1 ==> lex_lt((#[trigger] rest[k]).name, e.name));
        lemma_cache_insert_at(rest, e, j - 1);
        if j < es.len() && es[j].name == e.name {
            assert(rest[j - 1].name == e.name);
            assert(seq![es[0]] + (rest.take(j - 1) + seq![e] + rest.skip(j)) =~= es.take(j)
                + seq![e] + es.skip(j + 1));
        } else if j == es.len() || lex_lt(e.name, es[j].name) {
            assert(seq![es[0]] + (rest.take(j - 1) + seq![e] + rest.skip(j - 1)) =~= es.take(j)
                + seq![e] + es.skip(j));
        }
    }
}

/// The ordered half of the commutation law: the smaller path first.
proof fn lemma_cache_insert_commute_ordered(
    es: Seq<CacheEntryView>,
    a: CacheEntryView,
    b: CacheEntryView,
)
    requires
        lex_lt(a.name, b.name),
        cache_entries_sorted(es),
    ensures
        spec_cache_insert(spec_cache_insert(es, a), b) == spec_cache_insert(
            spec_cache_insert(es, b),
            a,
        ),
    decreases es.len(),
{
    lemma_lex_lt_asym(a.name, b.name);
    lemma_lex_lt_irrefl(a.name);
    lemma_lex_lt_irrefl(b.name);
    assert(a.name != b.name);
    if es.len() == 0 {
        assert(spec_cache_insert(es, a) == seq![a]);
        assert(seq![a].drop_first() =~= Seq::<CacheEntryView>::empty());
        assert(spec_cache_insert(seq![a], b) == seq![a] + spec_cache_insert(
            Seq::<CacheEntryView>::empty(),
            b,
        ));
        assert(spec_cache_insert(es, b) == seq![b]);
        assert(spec_cache_insert(seq![b], a) == seq![a] + seq![b]);
        assert(seq![a] + spec_cache_insert(Seq::<CacheEntryView>::empty(), b) =~= seq![a]
            + seq![b]);
    } else {
        let h = es[0];
        let t = es.drop_first();
        assert forall|p: int, q: int| 0 <= p < q < t.len() implies lex_lt(
            (#[trigger] t[p]).name,
            (#[trigger] t[q]).name,
        ) by {
            assert(t[p] == es[p + 1]);
            assert(t[q] == es[q + 1]);
        }
        crate::lex::lemma_lex_total(a.name, h.name);
        crate::lex::lemma_lex_total(b.name, h.name);
        if lex_lt(a.name, h.name) {
            assert(spec_cache_insert(es, a) == seq![a] + es);
            assert((seq![a] + es)[0] == a);
            assert((seq![a] + es).drop_first() =~= es);
            assert(spec_cache_insert(seq![a] + es, b) == seq![a] + spec_cache_insert(es, b));
            if lex_lt(b.name, h.name) {
                assert(spec_cache_insert(es, b) == seq![b] + es);
                assert((seq![b] + es)[0] == b);
                assert(spec_cache_insert(seq![b] + es, a) == seq![a] + (seq![b] + es));
            } else if b.name == h.name {
                assert(spec_cache_insert(es, b) == seq![b] + t);
                assert((seq![b] + t)[0] == b);
                assert(spec_cache_insert(seq![b] + t, a) == seq![a] + (seq![b] + t));
            } else {
                assert(lex_lt(h.name, b.name));
                lemma_lex_lt_asym(h.name, b.name);
                assert(spec_cache_insert(es, b) == seq![h] + spec_cache_insert(t, b));
                assert((seq![h] + spec_cache_insert(t, b))[0] == h);
                assert(spec_cache_insert(seq![h] + spec_cache_insert(t, b), a) == seq![a] + (
                seq![h] + spec_cache_insert(t, b)));
            }
        } else if a.name == h.name {
            assert(lex_lt(h.name, b.name));
            lemma_lex_lt_asym(h.name, b.name);
            assert(spec_cache_insert(es, a) == seq![a] + t);
            assert((seq![a] + t)[0] == a);
            assert((seq![a] + t).drop_first() =~= t);
            assert(spec_cache_insert(seq![a] + t, b) == seq![a] + spec_cache_insert(t, b));
            assert(spec_cache_insert(es, b) == seq![h] + spec_cache_insert(t, b));
            assert((seq![h] + spec_cache_insert(t, b))[0] == h);
            assert((seq![h] + spec_cache_insert(t, b)).drop_first() =~= spec_cache_insert(t, b));
            assert(spec_cache_insert(seq![h] + spec_cache_insert(t, b), a) == seq![a]
                + spec_cache_insert(t, b));
        } else {
            assert(lex_lt(h.name, a.name));
            lemma_lex_lt_asym(h.name, a.name);
            if lex_lt(b.name, h.name) {
                lemma_lex_lt_trans(b.name, h.name, a.name);
                assert(false);
            } else if b.name == h.name {
                assert(lex_lt(b.name, a.name));
                assert(false);
            } else {
                assert(lex_lt(h.name, b.name));
                lemma_lex_lt_asym(h.name, b.name);
                assert(spec_cache_insert(es, a) == seq![h] + spec_cache_insert(t, a));
                assert((seq![h] + spec_cache_insert(t, a))[0] == h);
                assert((seq![h] + spec_cache_insert(t, a)).drop_first() =~= spec_cache_insert(
                    t,
                    a,
                ));
                assert(spec_cache_insert(seq![h] + spec_cache_insert(t, a), b) == seq![h]
                    + spec_cache_insert(spec_cache_insert(t, a), b));
                assert(spec_cache_insert(es, b) == seq![h] + spec_cache_insert(t, b));
                assert((seq![h] + spec_cache_insert(t, b))[0] == h);
                assert((seq![h] + spec_cache_insert(t, b)).drop_first() =~= spec_cache_insert(
                    t,
                    b,
                ));
                assert(spec_cache_insert(seq![h] + spec_cache_insert(t, b), a) == seq![h]
                    + spec_cache_insert(spec_cache_insert(t, b), a));
                lemma_cache_insert_commute_ordered(t, a, b);
            }
        }
    }
}

/// Insertions at different paths commute: the index's contents are a
/// function of what was inserted, not of the order the insertions came in.
pub proof fn lemma_cache_insert_commutes(
    es: Seq<CacheEntryView>,
    a: CacheEntryView,
    b: CacheEntryView,
)
    requires
        a.name != b.name,
        cache_entries_sorted(es),
    ensures
        spec_cache_insert(spec_cache_insert(es, a), b) == spec_cache_insert(
            spec_cache_insert(es, b),
            a,
        ),
{
    crate::lex::lemma_lex_total(a.name, b.name);
    if lex_lt(a.name, b.name) {
        lemma_cache_insert_commute_ordered(es, a, b);
    } else {
        lemma_cache_insert_commute_ordered(es, b, a);
    }
}

/// Finds the slot for `key` among sorted cache entries.
fn find_cache_slot(entries: &Vec<CacheEntry>, key: &[u8]) -> (r: (usize, bool))
    ensures
        r.0 <= entries@.len(),
        forall|k: int| 0 <= k < r.0 ==> lex_lt((#[trigger] entries@[k])@.name, key@),
        r.1 ==> r.0 < entries@.len() && entries@[r.0 as int]@.name == key@,
        !r.1 && r.0 < entries@.len() ==> lex_lt(key@, entries@[r.0 as int]@.name),
{
    let n = entries.len();
    let mut j: usize = 0;
    while j < n
        invariant
            n == entries@.len(),
            0 <= j <= n,
            forall|k: int| 0 <= k < j ==> lex_lt((#[trigger] entries@[k])@.name, key@),
        decreases n - j,
    {
        match lex_cmp(key, entries[j].name.as_slice()) {
            KeyOrder::Greater => {
                j = j + 1;
            },
            KeyOrder::Equal => {
                return (j, true);
            },
            KeyOrder::Less => {
                return (j, false);
            },
        }
    }
    (j, false)
}

impl Cache {
    /// A well-formed index: the signature constant, bounded version text,
    /// and entries sorted strictly by path, each well-formed.
    pub open spec fn wf(&self) -> bool {
        &&& self@.signature == CACHE_SIGNATURE
        &&& self@.version.len() <= u64::MAX
        &&& self@.entries.len() <= u64::MAX
        &&& cache_entries_sorted(self@.entries)
        &&& forall|i: int|
            0 <= i < self@.entries.len() ==> cache_entry_wf(#[trigger] self@.entries[i])
    }

    /// Records a snapshot for a path, unconditionally replacing any entry
    /// already at that path; path order is kept.
    pub fn insert(&mut self, src_path: Vec<u8>, sha1: Sha1Hash, stat: &StatData)
        requires
            old(self).wf(),
            sha1.wf(),
        ensures
            final(self)@.entries == spec_cache_insert(
                old(self)@.entries,
                (CacheEntryView { stat: *stat, sha1: sha1@, name: src_path@ }),
            ),
            final(self)@.signature == old(self)@.signature,
            final(self)@.version == old(self)@.version,
            final(self).wf(),
    {
        let ghost old_es = self@.entries;
        let ghost ev = CacheEntryView { stat: *stat, sha1: sha1@, name: src_path@ };
        let (j, eq) = find_cache_slot(&self.entries, src_path.as_slice());
        let _name_len = src_path.len();
        let entry = CacheEntry::new(src_path, sha1, stat);
        proof {
            lemma_cache_insert_at(old_es, ev, j as int);
        }
        if eq {
            let _ = self.entries.remove(j);
            self.entries.insert(j, entry);
            proof {
                assert(self@.entries =~= old_es.take(j as int) + seq![ev] + old_es.skip(
                    j as int + 1,
                ));
            }
        } else {
            self.entries.insert(j, entry);
            proof {
                assert(self@.entries =~= old_es.take(j as int) + seq![ev] + old_es.skip(j as int));
            }
        }
        let newlen = self.entries.len();
        proof {
            let start = j as int;
            let jprime: int = if eq {
                start + 1
            } else {
                start
            };
            let es = self@.entries;
            assert(es == old_es.take(start) + seq![ev] + old_es.skip(jprime));
            assert forall|p: int| 0 <= p < es.len() implies (if p < start {
                es[p] == old_es[p]
            } else if p == start {
                es[p] == ev
            } else {
                es[p] == old_es[jprime + p - start - 1]
            }) by {
                if p < start {
                    assert(es[p] == old_es.take(start)[p]);
                } else if p > start {
                    assert(es[p] == old_es.skip(jprime)[p - start - 1]);
                }
            }
            assert forall|p: int, q: int| 0 <= p < q < es.len() implies lex_lt(
                (#[trigger] es[p]).name,
                (#[trigger] es[q]).name,
            ) by {
                if q < start {
                } else if q == start {
                    assert(lex_lt(old_es[p].name, ev.name));
                } else {
                    let oq = jprime + q - start - 1;
                    assert(start <= oq < old_es.len());
                    if p < start {
                        assert(lex_lt(old_es[p].name, old_es[oq].name));
                    } else if p == start {
                        if eq {
                            assert(ev.name == old_es[start].name);
                            assert(oq > start);
                            assert(lex_lt(old_es[start].name, old_es[oq].name));
                        } else {
                            if oq == start {
                                assert(lex_lt(ev.name, old_es[start].name));
                            } else {
                                lemma_lex_lt_trans(ev.name, old_es[start].name, old_es[oq].name);
                            }
                        }
                    } else {
                        let op = jprime + p - start - 1;
                        assert(lex_lt(old_es[op].name, old_es[oq].name));
                    }
                }
            }
            assert forall|p: int| 0 <= p < es.len() implies cache_entry_wf(#[trigger] es[p]) by {
                if p == start {
                    assert(ev.name.len() == _name_len);
                    assert(ev.name.len() <= u64::MAX);
                }
            }
            assert(es.len() == newlen);
            assert(self.wf());
        }
    }
}

impl Default for Cache {
    /// A fresh, empty index with a default header.
    fn default() -> (r: Cache)
        ensures
            r@.signature == CACHE_SIGNATURE,
            r@.version == cache_version_bytes(),
            r@.entries == Seq::<CacheEntryView>::empty(),
            r.wf(),
    {
        let c = Cache { header: CacheHeader::default(), entries: Vec::new() };
        proof {
            assert(c@.entries =~= Seq::<CacheEntryView>::empty());
        }
        c
    }
}

// ------------------------------------------------------------------
// The index file format.
//
// The file holds the signature as a 64-bit little-endian integer, the
// version as a length-prefixed byte string, the entry count, then each
// entry: the ten stat fields as 64-bit integers in declaration order
// (signed fields in two's complement), the path length-prefixed, and the
// 20 digest bytes, in strictly ascending path order.
// ------------------------------------------------------------------

/// The integer at `i`, without its bounds check.
pub open spec fn dec_u64_val(b: Seq<u8>, i: int) -> u64 {
    spec_u64_from_le_bytes(b.subrange(i, i + 8))
}

/// The encoding of the ten stat fields.
pub open spec fn enc_stat(s: StatData) -> Seq<u8> {
    enc_u64(s.ctime as u64) + enc_u64(s.ctime_nsec as u64) + enc_u64(s.mtime as u64) + enc_u64(
        s.mtime_nsec as u64,
    ) + enc_u64(s.st_dev) + enc_u64(s.st_ino) + enc_u64(s.st_mode as u64) + enc_u64(
        s.st_uid as u64,
    ) + enc_u64(s.st_gid as u64) + enc_u64(s.st_size)
}

/// The encoding of one index entry.
pub open spec fn enc_cache_entry(e: CacheEntryView) -> Seq<u8> {
    enc_stat(e.stat) + enc_bytes(e.name) + e.sha1
}

/// Index entries encode in sequence order.
pub open spec fn enc_cache_entries(es: Seq<CacheEntryView>) -> Seq<u8>
    decreases es.len(),
{
    if es.len() == 0 {
        Seq::<u8>::empty()
    } else {
        enc_cache_entry(es[0]) + enc_cache_entries(es.drop_first())
    }
}

/// The encoding of a whole index.
pub open spec fn enc_cache(c: CacheView) -> Seq<u8> {
    enc_u64(c.signature as u64) + enc_bytes(c.version) + enc_u64(c.entries.len() as u64)
        + enc_cache_entries(c.entries)
}

/// Reads the ten stat fields at `i`.
pub open spec fn dec_stat_at(b: Seq<u8>, i: int) -> Option<(StatData, int)> {
    if 0 <= i && i + 80 <= b.len() && dec_u64_val(b, i + 48) <= u32::MAX as u64 && dec_u64_val(
        b,
        i + 56,
    ) <= u32::MAX as u64 && dec_u64_val(b, i + 64) <= u32::MAX as u64 {
        Some(
            (
                StatData {
                    ctime: dec_u64_val(b, i) as i64,
                    ctime_nsec: dec_u64_val(b, i + 8) as i64,
                    mtime: dec_u64_val(b, i + 16) as i64,
                    mtime_nsec: dec_u64_val(b, i + 24) as i64,
                    st_dev: dec_u64_val(b, i + 32),
                    st_ino: dec_u64_val(b, i + 40),
                    st_mode: dec_u64_val(b, i + 48) as u32,
                    st_uid: dec_u64_val(b, i + 56) as u32,
                    st_gid: dec_u64_val(b, i + 64) as u32,
                    st_size: dec_u64_val(b, i + 72),
                },
                i + 80,
            ),
        )
    } else {
        None
    }
}

/// Reads one index entry at `i`.
pub open spec fn dec_cache_entry_at(b: Seq<u8>, i: int) -> Option<(CacheEntryView, int)> {
    match dec_stat_at(b, i) {
        None => None,
        Some((stat, j)) => match dec_bytes_at(b, j) {
            None => None,
            Some((name, k)) => match dec_hash_at(b, k) {
                None => None,
                Some((h, l)) => Some((CacheEntryView { stat: stat, sha1: h, name: name }, l)),
            },
        },
    }
}

/// Reads `n` index entries starting at `i`.
pub open spec fn dec_cache_entries_at(b: Seq<u8>, i: int, n: nat) -> Option<
    (Seq<CacheEntryView>, int),
>
    decreases n,
{
    if n == 0 {
        Some((Seq::<CacheEntryView>::empty(), i))
    } else {
        match dec_cache_entry_at(b, i) {
            None => None,
            Some((e, j)) => match dec_cache_entries_at(b, j, (n - 1) as nat) {
                None => None,
                Some((es, k)) => Some((seq![e] + es, k)),
            },
        }
    }
}

/// Decodes a whole index: the signature must match, the payload must use
/// the input exactly, and entries must arrive in strictly ascending order.
pub open spec fn dec_cache(b: Seq<u8>) -> Option<CacheView> {
    match dec_u64_at(b, 0) {
        None => None,
        Some((sig, i1)) => if sig == CACHE_SIGNATURE as u64 {
            match dec_bytes_at(b, i1) {
                None => None,
                Some((version, i2)) => match dec_u64_at(b, i2) {
                    None => None,
                    Some((n, i3)) => match dec_cache_entries_at(b, i3, n as nat) {
                        None => None,
                        Some((es, i4)) => if i4 == b.len() && cache_entries_sorted(es) {
                            Some(
                                (CacheView {
                                    signature: CACHE_SIGNATURE,
                                    version: version,
                                    entries: es,
                                }),
                            )
                        } else {
                            None
                        },
                    },
                },
            }
        } else {
            None
        },
    }
}

/// Stat fields written at `i` read back.
proof fn lemma_dec_stat(b: Seq<u8>, i: int, s: StatData)
    requires
        0 <= i,
        i + 80 <= b.len(),
        b.subrange(i, i + 80) == enc_stat(s),
    ensures
        dec_stat_at(b, i) == Some((s, i + 80)),
{
    lemma_auto_spec_u64_to_from_le_bytes();
    let e = enc_stat(s);
    assert(e.subrange(0, 8) =~= enc_u64(s.ctime as u64));
    assert(e.subrange(8, 16) =~= enc_u64(s.ctime_nsec as u64));
    assert(e.subrange(16, 24) =~= enc_u64(s.mtime as u64));
    assert(e.subrange(24, 32) =~= enc_u64(s.mtime_nsec as u64));
    assert(e.subrange(32, 40) =~= enc_u64(s.st_dev));
    assert(e.subrange(40, 48) =~= enc_u64(s.st_ino));
    assert(e.subrange(48, 56) =~= enc_u64(s.st_mode as u64));
    assert(e.subrange(56, 64) =~= enc_u64(s.st_uid as u64));
    assert(e.subrange(64, 72) =~= enc_u64(s.st_gid as u64));
    assert(e.subrange(72, 80) =~= enc_u64(s.st_size));
    lemma_extract(b, i, e, 0, 8);
    lemma_extract(b, i, e, 8, 16);
    lemma_extract(b, i, e, 16, 24);
    lemma_extract(b, i, e, 24, 32);
    lemma_extract(b, i, e, 32, 40);
    lemma_extract(b, i, e, 40, 48);
    lemma_extract(b, i, e, 48, 56);
    lemma_extract(b, i, e, 56, 64);
    lemma_extract(b, i, e, 64, 72);
    lemma_extract(b, i, e, 72, 80);
    let c0 = s.ctime;
    let c1 = s.ctime_nsec;
    let c2 = s.mtime;
    let c3 = s.mtime_nsec;
    assert(((c0 as u64) as i64) == c0) by (bit_vector);
    assert(((c1 as u64) as i64) == c1) by (bit_vector);
    assert(((c2 as u64) as i64) == c2) by (bit_vector);
    assert(((c3 as u64) as i64) == c3) by (bit_vector);
    assert(dec_stat_at(b, i) == Some((s, i + 80)));
}

/// An index entry written at `i` reads back.
proof fn lemma_dec_cache_entry(b: Seq<u8>, i: int, e: CacheEntryView)
    requires
        0 <= i,
        cache_entry_wf(e),
        i + enc_cache_entry(e).len() <= b.len(),
        b.subrange(i, i + enc_cache_entry(e).len() as int) == enc_cache_entry(e),
    ensures
        dec_cache_entry_at(b, i) == Some((e, i + enc_cache_entry(e).len() as int)),
        enc_cache_entry(e).len() == 108 + e.name.len(),
{
    lemma_auto_spec_u64_to_from_le_bytes();
    let s = enc_cache_entry(e);
    let nl = e.name.len() as int;
    assert(s.len() == 108 + nl);
    assert(s.subrange(0, 80) =~= enc_stat(e.stat));
    lemma_extract(b, i, s, 0, 80);
    lemma_dec_stat(b, i, e.stat);
    assert(s.subrange(80, 88 + nl) =~= enc_bytes(e.name));
    lemma_extract(b, i, s, 80, 88 + nl);
    lemma_dec_bytes(b, i + 80, e.name);
    assert(s.subrange(88 + nl, 108 + nl) =~= e.sha1);
    lemma_extract(b, i, s, 88 + nl, 108 + nl);
    lemma_dec_hash(b, i + 88 + nl, e.sha1);
    assert(dec_cache_entry_at(b, i) == Some((e, i + 108 + nl)));
}

/// A run of index entries written at `i` reads back.
proof fn lemma_dec_cache_entries(b: Seq<u8>, i: int, es: Seq<CacheEntryView>)
    requires
        0 <= i,
        forall|k: int| 0 <= k < es.len() ==> cache_entry_wf(#[trigger] es[k]),
        i + enc_cache_entries(es).len() <= b.len(),
        b.subrange(i, i + enc_cache_entries(es).len() as int) == enc_cache_entries(es),
    ensures
        dec_cache_entries_at(b, i, es.len()) == Some(
            (es, i + enc_cache_entries(es).len() as int),
        ),
    decreases es.len(),
{
    if es.len() == 0 {
        assert(es =~= Seq::<CacheEntryView>::empty());
    } else {
        let e = es[0];
        let rest = es.drop_first();
        let s = enc_cache_entries(es);
        let l0 = enc_cache_entry(e).len() as int;
        assert(s == enc_cache_entry(e) + enc_cache_entries(rest));
        assert(s.subrange(0, l0) =~= enc_cache_entry(e));
        lemma_extract(b, i, s, 0, l0);
        lemma_dec_cache_entry(b, i, e);
        assert(s.subrange(l0, s.len() as int) =~= enc_cache_entries(rest));
        lemma_extract(b, i, s, l0, s.len() as int);
        lemma_dec_cache_entries(b, i + l0, rest);
        assert(seq![e] + rest =~= es);
        assert(dec_cache_entries_at(b, i, es.len()) == Some((es, i + s.len() as int)));
    }
}

/// Decoding inverts encoding: every well-formed index reads back from its
/// encoded bytes as exactly itself.
pub proof fn lemma_dec_cache_enc(c: CacheView)
    requires
        c.signature == CACHE_SIGNATURE,
        c.version.len() <= u64::MAX,
        c.entries.len() <= u64::MAX,
        cache_entries_sorted(c.entries),
        forall|k: int| 0 <= k < c.entries.len() ==> cache_entry_wf(#[trigger] c.entries[k]),
    ensures
        dec_cache(enc_cache(c)) == Some(c),
{
    lemma_auto_spec_u64_to_from_le_bytes();
    let b = enc_cache(c);
    let lv = c.version.len() as int;
    let le = enc_cache_entries(c.entries).len() as int;
    assert(b.len() == 24 + lv + le);
    assert(b.subrange(0, 8) =~= enc_u64(c.signature as u64));
    lemma_dec_u64(b, 0, c.signature as u64);
    assert(b.subrange(8, 16 + lv) =~= enc_bytes(c.version));
    lemma_dec_bytes(b, 8, c.version);
    assert(b.subrange(16 + lv, 24 + lv) =~= enc_u64(c.entries.len() as u64));
    lemma_dec_u64(b, 16 + lv, c.entries.len() as u64);
    assert(b.subrange(24 + lv, 24 + lv + le) =~= enc_cache_entries(c.entries));
    lemma_dec_cache_entries(b, 24 + lv, c.entries);
    assert((c.entries.len() as u64) as nat == c.entries.len());
    assert(dec_cache(b) == Some(c));
}

/// Appending one entry to a run appends its encoding.
pub proof fn lemma_enc_cache_entries_push(es: Seq<CacheEntryView>, e: CacheEntryView)
    ensures
        enc_cache_entries(es.push(e)) == enc_cache_entries(es) + enc_cache_entry(e),
    decreases es.len(),
{
    if es.len() == 0 {
        assert(es.push(e)[0] == e);
        assert(es.push(e).drop_first() =~= Seq::<CacheEntryView>::empty());
        assert(es =~= Seq::<CacheEntryView>::empty());
        assert(enc_cache_entries(es) == Seq::<u8>::empty());
        assert(enc_cache_entries(es.push(e)) == enc_cache_entry(e) + enc_cache_entries(
            Seq::<CacheEntryView>::empty(),
        ));
        assert(enc_cache_entries(es.push(e)) =~= enc_cache_entries(es) + enc_cache_entry(e));
    } else {
        lemma_enc_cache_entries_push(es.drop_first(), e);
        assert(es.push(e).drop_first() =~= es.drop_first().push(e));
        assert(es.push(e)[0] == es[0]);
        assert(enc_cache_entries(es.push(e)) == enc_cache_entry(es[0]) + enc_cache_entries(
            es.drop_first().push(e),
        ));
        assert(enc_cache_entries(es) == enc_cache_entry(es[0]) + enc_cache_entries(
            es.drop_first(),
        ));
        assert(enc_cache_entries(es.push(e)) =~= enc_cache_entries(es) + enc_cache_entry(e));
    }
}

/// Reads the ten stat fields.
fn read_stat_at(b: &[u8], pos: usize) -> (r: Option<(StatData, usize)>)
    ensures
        r is Some <==> dec_stat_at(b@, pos as int) is Some,
        r matches Some((s, j)) ==> dec_stat_at(b@, pos as int) == Some((s, j as int)) && j
            <= b@.len(),
{
    if !(pos <= b.len() && b.len() - pos >= 80) {
        return None;
    }
    let u0 = u64_from_le_bytes_at(b, pos);
    let u1 = u64_from_le_bytes_at(b, pos + 8);
    let u2 = u64_from_le_bytes_at(b, pos + 16);
    let u3 = u64_from_le_bytes_at(b, pos + 24);
    let u4 = u64_from_le_bytes_at(b, pos + 32);
    let u5 = u64_from_le_bytes_at(b, pos + 40);
    let u6 = u64_from_le_bytes_at(b, pos + 48);
    let u7 = u64_from_le_bytes_at(b, pos + 56);
    let u8v = u64_from_le_bytes_at(b, pos + 64);
    let u9 = u64_from_le_bytes_at(b, pos + 72);
    if u6 <= u32::MAX as u64 && u7 <= u32::MAX as u64 && u8v <= u32::MAX as u64 {
        Some(
            (
                StatData {
                    ctime: u0 as i64,
                    ctime_nsec: u1 as i64,
                    mtime: u2 as i64,
                    mtime_nsec: u3 as i64,
                    st_dev: u4,
                    st_ino: u5,
                    st_mode: u6 as u32,
                    st_uid: u7 as u32,
                    st_gid: u8v as u32,
                    st_size: u9,
                },
                pos + 80,
            ),
        )
    } else {
        None
    }
}

/// Reads one little-endian integer from a slice at a position.
fn u64_from_le_bytes_at(b: &[u8], pos: usize) -> (r: u64)
    requires
        pos + 8 <= b@.len(),
    ensures
        r == dec_u64_val(b@, pos as int),
{
    let n = b.len();
    vstd::bytes::u64_from_le_bytes(slice_subrange(b, pos, pos + 8))
}

/// Reads one index entry.
fn read_cache_entry_at(b: &[u8], pos: usize) -> (r: Option<(CacheEntry, usize)>)
    ensures
        r is Some <==> dec_cache_entry_at(b@, pos as int) is Some,
        r matches Some((e, j)) ==> dec_cache_entry_at(b@, pos as int) == Some((e@, j as int)) && j
            <= b@.len() && cache_entry_wf(e@),
{
    match read_stat_at(b, pos) {
        None => None,
        Some((stat, j)) => match read_bytes_at(b, j) {
            None => None,
            Some((name, k)) => match read_hash_at(b, k) {
                None => None,
                Some((h, l)) => Some((CacheEntry::new(name, h, &stat), l)),
            },
        },
    }
}

/// Adjacent order on all neighbours gives the full strict order.
proof fn lemma_cache_chain(es: Seq<CacheEntryView>, i: int, j: int)
    requires
        forall|k: int| 0 <= k < es.len() - 1 ==> lex_lt((#[trigger] es[k]).name, es[k + 1].name),
        0 <= i < j < es.len(),
    ensures
        lex_lt(es[i].name, es[j].name),
    decreases j - i,
{
    if j == i + 1 {
    } else {
        lemma_cache_chain(es, i, j - 1);
        lemma_lex_lt_trans(es[i].name, es[j - 1].name, es[j].name);
    }
}

/// Checks that index entries are strictly ascending by path.
fn check_cache_sorted(entries: &Vec<CacheEntry>) -> (r: bool)
    ensures
        r == cache_entries_sorted(cache_entry_views(entries@)),
{
    let n = entries.len();
    let ghost es = cache_entry_views(entries@);
    let mut i: usize = 1;
    while i < n
        invariant
            n == entries@.len(),
            es == cache_entry_views(entries@),
            1 <= i || n == 0,
            i <= n || (n == 0 && i == 1),
            forall|k: int| 0 <= k < i - 1 ==> lex_lt((#[trigger] es[k]).name, es[k + 1].name),
        decreases n - i,
    {
        match lex_cmp(entries[i - 1].name.as_slice(), entries[i].name.as_slice()) {
            KeyOrder::Less => {
                i = i + 1;
            },
            KeyOrder::Equal => {
                proof {
                    lemma_lex_lt_irrefl(es[i as int].name);
                    assert(!lex_lt(es[i as int - 1].name, es[i as int].name));
                }
                return false;
            },
            KeyOrder::Greater => {
                proof {
                    lemma_lex_lt_asym(es[i as int].name, es[i as int - 1].name);
                    assert(!lex_lt(es[i as int - 1].name, es[i as int].name));
                }
                return false;
            },
        }
    }
    proof {
        if n > 0 {
            assert forall|p: int, q: int| 0 <= p < q < es.len() implies lex_lt(
                (#[trigger] es[p]).name,
                (#[trigger] es[q]).name,
            ) by {
                lemma_cache_chain(es, p, q);
            }
        }
    }
    true
}

/// Appends one entry's encoding to the output.
#[verifier::rlimit(30)]
fn push_cache_entry(out: &mut Vec<u8>, e: &CacheEntry)
    ensures
        final(out)@ == old(out)@ + enc_cache_entry(e@),
{
    push_u64(out, e.ctime as u64);
    push_u64(out, e.ctime_nsec as u64);
    push_u64(out, e.mtime as u64);
    push_u64(out, e.mtime_nsec as u64);
    push_u64(out, e.st_dev);
    push_u64(out, e.st_ino);
    push_u64(out, e.st_mode as u64);
    push_u64(out, e.st_uid as u64);
    push_u64(out, e.st_gid as u64);
    push_u64(out, e.st_size);
    push_u64(out, e.name.len() as u64);
    push_bytes(out, e.name.as_slice());
    push_bytes(out, e.sha1.bytes.as_slice());
    proof {
        assert(out@ =~= old(out)@ + enc_cache_entry(e@));
    }
}

impl Cache {
    /// Serializes the whole index into its file bytes.
    pub fn write_cache(&self) -> (r: Vec<u8>)
        requires
            self.wf(),
        ensures
            r@ == enc_cache(self@),
            dec_cache(r@) == Some(self@),
    {
        let mut out: Vec<u8> = Vec::new();
        push_u64(&mut out, self.header.signature as u64);
        push_u64(&mut out, self.header.version.len() as u64);
        push_bytes(&mut out, self.header.version.as_slice());
        let n = self.entries.len();
        push_u64(&mut out, n as u64);
        let ghost head = out@;
        proof {
            assert(cache_entry_views(self.entries@).take(0) =~= Seq::<CacheEntryView>::empty());
            assert(out@ =~= head + enc_cache_entries(cache_entry_views(self.entries@).take(0)));
        }
        for i in 0..n
            invariant
                n == self.entries@.len(),
                head == enc_u64(self.header.signature as u64) + enc_bytes(self.header.version@)
                    + enc_u64(n as u64),
                out@ == head + enc_cache_entries(cache_entry_views(self.entries@).take(i as int)),
        {
            push_cache_entry(&mut out, &self.entries[i]);
            proof {
                lemma_enc_cache_entries_push(
                    cache_entry_views(self.entries@).take(i as int),
                    self.entries@[i as int]@,
                );
                assert(cache_entry_views(self.entries@).take(i as int).push(
                    self.entries@[i as int]@,
                ) =~= cache_entry_views(self.entries@).take(i + 1));
                assert(out@ =~= head + enc_cache_entries(
                    cache_entry_views(self.entries@).take(i + 1),
                ));
            }
        }
        proof {
            assert(cache_entry_views(self.entries@).take(n as int) =~= cache_entry_views(
                self.entries@,
            ));
            assert(out@ =~= enc_cache(self@));
            lemma_dec_cache_enc(self@);
        }
        out
    }

    /// Recovers an index from its file bytes.  Exactly the byte sequences
    /// that decode to a well-formed index succeed; everything else,
    /// including a wrong signature, is a `CorruptIndex`.
    #[verifier::loop_isolation(false)]
    pub fn read_cache(data: &[u8]) -> (r: Result<Cache, GitError>)
        ensures
            r is Ok <==> dec_cache(data@) is Some,
            r matches Ok(c) ==> (dec_cache(data@) == Some(c@) && c.wf()),
            r matches Err(e) ==> e is CorruptIndex,
    {
        let b = data;
        let (sig, i1) = match read_u64_at(b, 0) {
            None => {
                return Err(GitError::CorruptIndex);
            },
            Some(x) => x,
        };
        if sig != CACHE_SIGNATURE as u64 {
            return Err(GitError::CorruptIndex);
        }
        let (version, i2) = match read_bytes_at(b, i1) {
            None => {
                return Err(GitError::CorruptIndex);
            },
            Some(x) => x,
        };
        let (n, i3) = match read_u64_at(b, i2) {
            None => {
                return Err(GitError::CorruptIndex);
            },
            Some(x) => x,
        };
        let mut entries: Vec<CacheEntry> = Vec::new();
        let mut pos = i3;
        let mut m: u64 = 0;
        while m < n
            invariant
                m <= n,
                pos <= b@.len(),
                entries@.len() == m,
                forall|k: int|
                    0 <= k < entries@.len() ==> cache_entry_wf(
                        #[trigger] cache_entry_views(entries@)[k],
                    ),
                dec_cache_entries_at(b@, i3 as int, n as nat) == (match dec_cache_entries_at(
                    b@,
                    pos as int,
                    (n - m) as nat,
                ) {
                    Some((rest, end)) => Some((cache_entry_views(entries@) + rest, end)),
                    None => None::<(Seq<CacheEntryView>, int)>,
                }),
            decreases n - m,
        {
            let ghost prev_entries = entries@;
            match read_cache_entry_at(b, pos) {
                None => {
                    proof {
                        assert(dec_cache_entries_at(b@, pos as int, (n - m) as nat) is None);
                        assert(dec_cache_entries_at(b@, i3 as int, n as nat) is None);
                        assert(dec_cache(b@) is None);
                    }
                    return Err(GitError::CorruptIndex);
                },
                Some((e, npos)) => {
                    entries.push(e);
                    pos = npos;
                    m = m + 1;
                    proof {
                        assert(cache_entry_views(entries@) =~= cache_entry_views(
                            prev_entries,
                        ).push(entries@[entries@.len() - 1]@));
                        let next = dec_cache_entries_at(b@, pos as int, (n - m) as nat);
                        if next is Some {
                            let (rest2, end2) = next->0;
                            assert(cache_entry_views(prev_entries) + (seq![entries@[entries@.len()
                                - 1]@] + rest2) =~= cache_entry_views(entries@) + rest2);
                        }
                    }
                },
            }
        }
        proof {
            assert(cache_entry_views(entries@) + Seq::<CacheEntryView>::empty()
                =~= cache_entry_views(entries@));
        }
        if pos != b.len() {
            return Err(GitError::CorruptIndex);
        }
        if !check_cache_sorted(&entries) {
            return Err(GitError::CorruptIndex);
        }
        let c = Cache { header: CacheHeader { signature: CACHE_SIGNATURE, version }, entries };
        Ok(c)
    }
}

// ------------------------------------------------------------------
// The atomic save step and the tree builder.
// ------------------------------------------------------------------

/// The two files the index save transaction touches, each either absent or
/// holding complete bytes: the canonical index file and its lock file.
#[derive(Debug)]
pub struct IndexFiles {
    pub canonical: Option<Vec<u8>>,
    pub lock: Option<Vec<u8>>,
}

/// One atomic index save, as the transition it makes on the two files.  The
/// caller performs it with exclusive lock-file creation followed by a
/// rename onto the canonical path.  When the lock file already exists the
/// save fails at once with `ConcurrentModification` and the canonical file
/// is byte-identical to before; otherwise the new bytes replace the
/// canonical file whole, and no lock remains.
pub fn save_atomic(files: IndexFiles, new_bytes: Vec<u8>) -> (r: (
    Result<(), GitError>,
    IndexFiles,
))
    ensures
        files.lock is Some ==> (r.0 matches Err(e) && e is ConcurrentModification
            && r.1.canonical == files.canonical && r.1.lock == files.lock),
        files.lock is None ==> (r.0 is Ok && r.1.canonical == Some(new_bytes) && r.1.lock
            is None),
{
    match files.lock {
        Some(l) => (
            Err(GitError::ConcurrentModification),
            IndexFiles { canonical: files.canonical, lock: Some(l) },
        ),
        None => (Ok(()), IndexFiles { canonical: Some(new_bytes), lock: None }),
    }
}

/// The tree entry a cache entry folds into: same path, mode and digest.
pub open spec fn tree_of_cache(es: Seq<CacheEntryView>) -> Seq<TreeEntryView> {
    Seq::new(
        es.len(),
        |i: int|
            TreeEntryView { st_mode: es[i].stat.st_mode, name: es[i].name, sha1: es[i].sha1 },
    )
}

/// Folds the whole index into one flat tree: one entry per tracked path,
/// in path order, however the entries were inserted.
pub fn build_tree(cache: &Cache) -> (r: Tree)
    requires
        cache.wf(),
    ensures
        r@ == tree_of_cache(cache@.entries),
        r.wf(),
{
    let mut tree = Tree { entries: Vec::new() };
    let n = cache.entries.len();
    proof {
        assert(tree@ =~= tree_of_cache(cache@.entries.take(0)));
    }
    for i in 0..n
        invariant
            n == cache.entries@.len(),
            cache.wf(),
            tree@ == tree_of_cache(cache@.entries.take(i as int)),
            tree.entries@.len() == i,
    {
        let ghost prev = tree.entries@;
        let e = &cache.entries[i];
        tree.entries.push(
            TreeEntry {
                st_mode: e.st_mode,
                name: slice_to_vec(e.name.as_slice()),
                sha1: e.sha1.duplicate(),
            },
        );
        proof {
            assert forall|k: int| 0 <= k < i + 1 implies #[trigger] entry_views(tree.entries@)[k]
                == tree_of_cache(cache@.entries.take(i + 1))[k] by {
                if k < i {
                    assert(tree.entries@[k] == prev[k]);
                    assert(entry_views(prev)[k] == tree_of_cache(cache@.entries.take(i as int))[
                        k
                    ]);
                    assert(cache@.entries.take(i + 1)[k] == cache@.entries[k]);
                    assert(cache@.entries.take(i as int)[k] == cache@.entries[k]);
                } else {
                    assert(tree.entries@[k]@ == (TreeEntryView {
                        st_mode: cache.entries@[k]@.stat.st_mode,
                        name: cache.entries@[k]@.name,
                        sha1: cache.entries@[k]@.sha1,
                    }));
                    assert(cache@.entries.take(i + 1)[k] == cache@.entries[k]);
                }
            }
            assert(tree@ =~= tree_of_cache(cache@.entries.take(i + 1)));
        }
    }
    proof {
        assert(cache@.entries.take(n as int) =~= cache@.entries);
        let ts = tree@;
        let cs = cache@.entries;
        assert forall|p: int, q: int| 0 <= p < q < ts.len() implies lex_lt(
            (#[trigger] ts[p]).name,
            (#[trigger] ts[q]).name,
        ) by {
            assert(lex_lt(cs[p].name, cs[q].name));
        }
        assert forall|p: int| 0 <= p < ts.len() implies crate::object::entry_wf(
            #[trigger] ts[p],
        ) by {
            assert(cache_entry_wf(cs[p]));
        }
        assert(tree.wf());
    }
    tree
}

} // verus!
