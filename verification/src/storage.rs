//! The storage interface of the replicated tree — a vertex store and two
//! append-only operation logs — together with verified in-memory
//! implementations. Any persistence backend may implement these traits;
//! the contracts here are what the replica engine relies on.

use vstd::prelude::*;

use crate::types::EncodedVertex;
use crate::types::Error;
use crate::types::MoveVertex;
use crate::types::ScanOptions;
use crate::types::SetVertexProperty;
use crate::types::VertexId;
use crate::types::VertexModel;
use crate::types::sp_like;
use crate::types::str_eq;
use crate::types::self_str;
use crate::vertex_map::lemma_verts_as_map_at;
use crate::vertex_map::lemma_verts_as_map_contains;
use crate::vertex_map::lemma_verts_as_map_push;
use crate::vertex_map::lemma_verts_as_map_update;
use crate::vertex_map::verts_as_map;
use crate::vertex_map::verts_have_id;
use crate::vertex_map::verts_wf;

verus! {

/// Storage configuration: an in-memory store, or a store persisted at a
/// local path by a backend outside this library.
#[derive(Debug)]
pub enum StorageConfig {
    /// In-memory storage, equivalent to a freshly created path-backed
    /// store except for durability across restarts.
    Memory,
    /// Storage persisted by an embedded database at the given path.
    Sqlite {
        /// Path of the database file.
        path: String,
    },
}

// ---------------------------------------------------------------------------
// Log records and scans
// ---------------------------------------------------------------------------

/// An operation that can be kept in an append-only log.
pub trait LogRecord: Sized {
    /// The originating peer of the record.
    spec fn peer_view(&self) -> Seq<char>;

    /// The identifier of the record's operation.
    spec fn rec_id(&self) -> crate::types::OpId;

    /// Observational equality: everything the log and its readers can
    /// distinguish.
    spec fn alike(&self, other: &Self) -> bool;

    /// Borrow the originating peer.
    fn peer_of(&self) -> (r: &String)
        ensures
            r@ == self.peer_view(),
    ;

    /// Copy the record.
    fn dup(&self) -> (r: Self)
        ensures
            r.alike(self),
            r.peer_view() == self.peer_view(),
    ;
}

impl LogRecord for MoveVertex {
    open spec fn peer_view(&self) -> Seq<char> {
        self.id.peer_id@
    }

    open spec fn rec_id(&self) -> crate::types::OpId {
        self.id
    }

    open spec fn alike(&self, other: &Self) -> bool {
        *self == *other
    }

    fn peer_of(&self) -> (r: &String) {
        &self.id.peer_id
    }

    fn dup(&self) -> (r: Self) {
        self.clone()
    }
}

impl LogRecord for SetVertexProperty {
    open spec fn peer_view(&self) -> Seq<char> {
        self.id.peer_id@
    }

    open spec fn rec_id(&self) -> crate::types::OpId {
        self.id
    }

    open spec fn alike(&self, other: &Self) -> bool {
        sp_like(*self, *other)
    }

    fn peer_of(&self) -> (r: &String) {
        &self.id.peer_id
    }

    fn dup(&self) -> (r: Self) {
        self.clone()
    }
}

/// Whether a record with the given sequence number passes the filters.
pub open spec fn scan_keeps<T: LogRecord>(op: T, seqno: int, opts: ScanOptions) -> bool {
    &&& match opts.peer_id {
        Option::Some(p) => op.peer_view() == p@,
        Option::None => true,
    }
    &&& match opts.from_seq {
        Option::Some(f) => seqno >= f,
        Option::None => true,
    }
    &&& match opts.to_seq {
        Option::Some(t) => seqno <= t,
        Option::None => true,
    }
}

/// The records of the first `n` log entries that pass the filters, in
/// ascending sequence order. The sequence number of entry `i` is `i + 1`.
pub open spec fn scan_filtered<T: LogRecord>(log: Seq<T>, opts: ScanOptions, n: int) -> Seq<T>
    decreases n,
{
    if n <= 0 {
        Seq::empty()
    } else {
        let rest = scan_filtered(log, opts, n - 1);
        if scan_keeps(log[n - 1], n, opts) {
            rest.push(log[n - 1])
        } else {
            rest
        }
    }
}

/// What a scan of the whole log returns: the filtered records, reversed
/// when asked, and capped by the limit.
pub open spec fn scan_spec<T: LogRecord>(log: Seq<T>, opts: ScanOptions) -> Seq<T> {
    let kept = scan_filtered(log, opts, log.len() as int);
    let ordered = if opts.reverse {
        kept.reverse()
    } else {
        kept
    };
    match opts.limit {
        Option::Some(l) => if ordered.len() > l {
            ordered.take(l as int)
        } else {
            ordered
        },
        Option::None => ordered,
    }
}

/// An append-only operation log. Entries are never mutated or removed;
/// the log is the source of truth from which the vertex store can in
/// principle be rebuilt.
pub trait LogStore<T: LogRecord>: Sized {
    /// The entries appended so far, in order. Entry `i` has sequence
    /// number `i + 1`.
    spec fn log(&self) -> Seq<T>;

    /// The internal invariant of the implementation, established at
    /// construction and preserved by every operation.
    spec fn inv(&self) -> bool;

    /// The implementation never fails with a storage error (short of
    /// sequence-number exhaustion). An in-memory log is reliable; a
    /// backend that can hit external I/O declares itself unreliable and
    /// the success promises below are vacuous for it.
    spec fn reliable(&self) -> bool;

    /// Append an operation; returns its sequence number.
    fn append(&mut self, op: T) -> (r: Result<u64, Error>)
        requires
            old(self).inv(),
        ensures
            final(self).inv(),
            final(self).reliable() == old(self).reliable(),
            old(self).reliable() && old(self).log().len() < u64::MAX ==> r is Ok,
            match r {
                Result::Ok(s) => final(self).log() == old(self).log().push(op) && s as int == old(
                    self,
                ).log().len() + 1,
                Result::Err(e) => final(self).log() == old(self).log() && e is Storage,
            },
    ;

    /// The sequence number of the newest entry, 0 when the log is empty.
    fn latest_seq(&self) -> (r: Result<u64, Error>)
        requires
            self.inv(),
        ensures
            self.reliable() ==> r is Ok,
            match r {
                Result::Ok(s) => s as int == self.log().len(),
                Result::Err(e) => e is Storage,
            },
    ;

    /// Scan the log: optional filters combine by conjunction, default
    /// order is sequence ascending.
    fn scan_range(&self, opts: ScanOptions) -> (r: Result<Vec<T>, Error>)
        requires
            self.inv(),
        ensures
            self.reliable() ==> r is Ok,
            match r {
                Result::Ok(v) => v@.len() == scan_spec(self.log(), opts).len() && forall|i: int|
                    0 <= i < v@.len() ==> (#[trigger] v@[i]).alike(&scan_spec(self.log(), opts)[i])
                        && v@[i].peer_view() == scan_spec(self.log(), opts)[i].peer_view(),
                Result::Err(e) => e is Storage,
            },
    ;
}

/// A verified in-memory operation log.
#[derive(Debug)]
pub struct MemLog<T> {
    entries: Vec<T>,
}

impl<T: LogRecord> MemLog<T> {
    /// Create an empty log.
    pub fn new() -> (r: Self)
        ensures
            r.inv(),
            r.log() == Seq::<T>::empty(),
    {
        let r = MemLog { entries: Vec::new() };
        proof {
            assert(r.log() =~= Seq::<T>::empty());
        }
        r
    }
}

impl<T: LogRecord> LogStore<T> for MemLog<T> {
    closed spec fn log(&self) -> Seq<T> {
        self.entries@
    }

    open spec fn inv(&self) -> bool {
        true
    }

    open spec fn reliable(&self) -> bool {
        true
    }

    fn append(&mut self, op: T) -> (r: Result<u64, Error>) {
        let n = self.entries.len();
        if n as u64 == u64::MAX {
            return Result::Err(
                Error::Storage(
                    crate::types::StorageError::Backend(
                        String::from_str("log sequence numbers exhausted"),
                    ),
                ),
            );
        }
        self.entries.push(op);
        Result::Ok(n as u64 + 1)
    }

    fn latest_seq(&self) -> (r: Result<u64, Error>) {
        Result::Ok(self.entries.len() as u64)
    }

    fn scan_range(&self, opts: ScanOptions) -> (r: Result<Vec<T>, Error>) {
        let n = self.entries.len();
        let mut kept: Vec<T> = Vec::new();
        let mut i: usize = 0;
        while i < n
            invariant
                i <= n,
                n == self.entries@.len(),
                kept@.len() == scan_filtered(self.entries@, opts, i as int).len(),
                forall|j: int| 0 <= j < kept@.len() ==> (#[trigger] kept@[j]).alike(
                    &scan_filtered(self.entries@, opts, i as int)[j],
                ) && kept@[j].peer_view() == scan_filtered(self.entries@, opts, i as int)[j]
                    .peer_view(),
            decreases n - i,
        {
            let ghost before = scan_filtered(self.entries@, opts, i as int);
            let ghost after_s = scan_filtered(self.entries@, opts, i + 1 as int);
            let op = &self.entries[i];
            let mut keep = true;
            match &opts.peer_id {
                Option::Some(p) => {
                    if !str_eq(self_str(op.peer_of()), self_str(p)) {
                        keep = false;
                    }
                },
                Option::None => {},
            }
            let seqno = i as u64 + 1;
            match opts.from_seq {
                Option::Some(f) => {
                    if seqno < f {
                        keep = false;
                    }
                },
                Option::None => {},
            }
            match opts.to_seq {
                Option::Some(t) => {
                    if seqno > t {
                        keep = false;
                    }
                },
                Option::None => {},
            }
            proof {
                assert(keep == scan_keeps(self.entries@[i as int], i + 1 as int, opts));
            }
            if keep {
                kept.push(self.entries[i].dup());
                proof {
                    assert(after_s == before.push(self.entries@[i as int]));
                }
            } else {
                proof {
                    assert(after_s == before);
                }
            }
            i = i + 1;
        }
        let ghost all_kept = scan_filtered(self.entries@, opts, n as int);
        let ghost kept_orig = kept@;
        // Reverse when asked.
        if opts.reverse {
            let mut ordered: Vec<T> = Vec::new();
            let mut k: usize = kept.len();
            while k > 0
                invariant
                    k <= kept_orig.len(),
                    kept@ == kept_orig.take(k as int),
                    ordered@.len() == kept_orig.len() - k,
                    forall|j: int| 0 <= j < ordered@.len() ==> (#[trigger] ordered@[j])
                        == kept_orig[kept_orig.len() - 1 - j],
                decreases k,
            {
                proof {
                    assert(kept@.len() == k);
                    assert(kept_orig.take(k as int).last() == kept_orig[k - 1]);
                    assert(kept_orig.take(k as int).drop_last() =~= kept_orig.take(k - 1));
                }
                let x_opt = kept.pop();
                let x = match x_opt {
                    Option::Some(x) => x,
                    Option::None => {
                        proof {
                            assert(false);
                        }
                        return Result::Err(
                            Error::Storage(
                                crate::types::StorageError::Backend(
                                    String::from_str("scan state lost"),
                                ),
                            ),
                        );
                    },
                };
                k = k - 1;
                ordered.push(x);
            }
            kept = ordered;
            proof {
                assert(kept@.len() == all_kept.reverse().len());
                assert forall|j: int| 0 <= j < kept@.len() implies (#[trigger] kept@[j]).alike(
                    &all_kept.reverse()[j],
                ) && kept@[j].peer_view() == all_kept.reverse()[j].peer_view() by {
                    assert(kept@[j] == kept_orig[kept_orig.len() - 1 - j]);
                    assert(all_kept.reverse()[j] == all_kept[all_kept.len() - 1 - j]);
                }
            }
        }
        let ghost ordered_s = if opts.reverse {
            all_kept.reverse()
        } else {
            all_kept
        };
        // Cap by the limit.
        match opts.limit {
            Option::Some(l) => {
                if (kept.len() as u64) > l {
                    let ghost before_cap = kept@;
                    let lim = l as usize;
                    kept.truncate(lim);
                    proof {
                        assert(kept@ == before_cap.take(lim as int));
                        assert forall|j: int| 0 <= j < kept@.len() implies (#[trigger]
                        kept@[j]).alike(&ordered_s.take(lim as int)[j]) && kept@[j].peer_view()
                            == ordered_s.take(lim as int)[j].peer_view() by {
                            assert(kept@[j] == before_cap[j]);
                        }
                    }
                    return Result::Ok(kept);
                }
            },
            Option::None => {},
        }
        Result::Ok(kept)
    }
}

// ---------------------------------------------------------------------------
// Vertex store
// ---------------------------------------------------------------------------

/// A vertex is a child of the given parent in the mapping.
pub open spec fn child_of(m: Map<Seq<char>, VertexModel>, id: Seq<char>, parent: Seq<char>) -> bool {
    m.contains_key(id) && m[id].parent == Option::Some(parent)
}

/// An index lies beyond an optional lower bound.
pub open spec fn beyond(after: Option<i64>, idx: int) -> bool {
    match after {
        Option::Some(a) => idx > a,
        Option::None => true,
    }
}

/// A persistent associative store of materialized vertex records.
pub trait VertexStore: Sized {
    /// The mapping from vertex identifier to vertex held by the store.
    spec fn vertices(&self) -> Map<Seq<char>, VertexModel>;

    /// The internal invariant of the implementation, established at
    /// construction and preserved by every operation.
    spec fn inv(&self) -> bool;

    /// The implementation never fails with a storage error. An in-memory
    /// store is reliable; a backend that can hit external I/O declares
    /// itself unreliable and the success promises below are vacuous for
    /// it.
    spec fn reliable(&self) -> bool;

    /// Point lookup by identifier.
    fn get_vertex(&self, id: &str) -> (r: Result<Option<EncodedVertex>, Error>)
        requires
            self.inv(),
        ensures
            self.reliable() ==> !(r is Err),
            match r {
                Result::Ok(Option::Some(v)) => self.vertices().contains_key(id@) && v@
                    == self.vertices()[id@] && v.id@ == id@ && v.wf(),
                Result::Ok(Option::None) => !self.vertices().contains_key(id@),
                Result::Err(e) => e is Storage,
            },
    ;

    /// Upsert: replace or create the record keyed by the vertex's
    /// identifier. A successful put is durable before it returns.
    fn put_vertex(&mut self, vertex: EncodedVertex) -> (r: Result<(), Error>)
        requires
            old(self).inv(),
            vertex.wf(),
        ensures
            final(self).inv(),
            final(self).reliable() == old(self).reliable(),
            old(self).reliable() ==> r is Ok,
            match r {
                Result::Ok(u) => final(self).vertices() == old(self).vertices().insert(
                    vertex.id@,
                    vertex@,
                ),
                Result::Err(e) => final(self).vertices() == old(self).vertices() && e is Storage,
            },
    ;

    /// One page of the children of a parent: pairs of identifier and
    /// sibling index, index ascending, strictly beyond `after_idx` when
    /// given, at most `limit` of them. Whatever is left out of a full
    /// page has an index at least as large as the last returned one, so
    /// callers paginate by feeding the last index back in.
    fn get_children_page(&self, parent_id: &str, after_idx: Option<i64>, limit: usize) -> (r:
        Result<Vec<(VertexId, i64)>, Error>)
        requires
            self.inv(),
        ensures
            self.reliable() ==> !(r is Err),
            match r {
                Result::Ok(page) => {
                    &&& page@.len() <= limit
                    &&& forall|k: int| 0 <= k < page@.len() ==> child_of(
                        self.vertices(),
                        (#[trigger] page@[k]).0@,
                        parent_id@,
                    ) && self.vertices()[page@[k].0@].idx == page@[k].1 && beyond(
                        after_idx,
                        page@[k].1 as int,
                    )
                    &&& forall|k: int, l: int| 0 <= k < l < page@.len() ==> (#[trigger] page@[k]).1
                        <= (#[trigger] page@[l]).1 && page@[k].0@ != page@[l].0@
                    &&& forall|id: Seq<char>| child_of(self.vertices(), id, parent_id@) && beyond(
                        after_idx,
                        self.vertices()[id].idx,
                    ) ==> (exists|k: int| 0 <= k < page@.len() && (#[trigger] page@[k]).0@ == id)
                        || (page@.len() == limit && (limit == 0 || self.vertices()[id].idx
                        >= page@[page@.len() - 1].1))
                },
                Result::Err(e) => e is Storage,
            },
    ;
}

/// A verified in-memory vertex store.
#[derive(Debug)]
pub struct MemVertexStore {
    records: Vec<EncodedVertex>,
}

impl MemVertexStore {
    /// The records kept, in insertion order.
    pub closed spec fn records_view(&self) -> Seq<EncodedVertex> {
        self.records@
    }

    /// The store's records are well-formed with distinct identifiers.
    pub open spec fn wf(&self) -> bool {
        verts_wf(self.records_view())
    }

    /// Create an empty store.
    pub fn new() -> (r: Self)
        ensures
            r.wf(),
            r.vertices() == Map::<Seq<char>, VertexModel>::empty(),
    {
        let r = MemVertexStore { records: Vec::new() };
        proof {
            assert(r.vertices() =~= Map::<Seq<char>, VertexModel>::empty());
        }
        r
    }
}

impl VertexStore for MemVertexStore {
    open spec fn vertices(&self) -> Map<Seq<char>, VertexModel> {
        verts_as_map(self.records_view())
    }

    open spec fn inv(&self) -> bool {
        self.wf()
    }

    open spec fn reliable(&self) -> bool {
        true
    }

    fn get_vertex(&self, id: &str) -> (r: Result<Option<EncodedVertex>, Error>) {
        let n = self.records.len();
        let mut i: usize = 0;
        while i < n
            invariant
                i <= n,
                self.wf(),
                n == self.records@.len(),
                forall|j: int| 0 <= j < i ==> (#[trigger] self.records@[j]).id@ != id@,
            decreases n - i,
        {
            if str_eq(self_str(&self.records[i].id), id) {
                proof {
                    lemma_verts_as_map_at(self.records@, i as int);
                }
                return Result::Ok(Option::Some(self.records[i].clone()));
            }
            i = i + 1;
        }
        proof {
            lemma_verts_as_map_contains(self.records@, id@);
        }
        Result::Ok(Option::None)
    }

    fn put_vertex(&mut self, vertex: EncodedVertex) -> (r: Result<(), Error>) {
        let n = self.records.len();
        let mut i: usize = 0;
        while i < n
            invariant
                i <= n,
                *self == *old(self),
                old(self).wf(),
                vertex.wf(),
                n == self.records@.len(),
                forall|j: int| 0 <= j < i ==> (#[trigger] self.records@[j]).id@ != vertex.id@,
            decreases n - i,
        {
            if str_eq(self_str(&self.records[i].id), self_str(&vertex.id)) {
                proof {
                    lemma_verts_as_map_update(self.records@, i as int, vertex);
                }
                self.records.set(i, vertex);
                proof {
                    assert forall|j: int| 0 <= j < self.records@.len() implies (#[trigger] self
                        .records@[j]).wf() by {
                        if j != i {
                            assert(self.records@[j] == old(self).records_view()[j]);
                        }
                    }
                }
                return Result::Ok(());
            }
            i = i + 1;
        }
        proof {
            lemma_verts_as_map_push(self.records@, vertex);
            lemma_verts_as_map_contains(self.records@, vertex.id@);
        }
        self.records.push(vertex);
        proof {
            assert forall|a: int, b: int| 0 <= a < b < self.records@.len() implies self
                .records@[a].id@ != self.records@[b].id@ by {
                if b < self.records@.len() - 1 {
                    assert(self.records@[a] == old(self).records_view()[a]);
                    assert(self.records@[b] == old(self).records_view()[b]);
                } else {
                    assert(self.records@[a] == old(self).records_view()[a]);
                }
            }
            assert forall|j: int| 0 <= j < self.records@.len() implies (#[trigger] self
                .records@[j]).wf() by {
                if j < self.records@.len() - 1 {
                    assert(self.records@[j] == old(self).records_view()[j]);
                }
            }
        }
        Result::Ok(())
    }

    #[verifier::rlimit(100)]
    fn get_children_page(&self, parent_id: &str, after_idx: Option<i64>, limit: usize) -> (r:
        Result<Vec<(VertexId, i64)>, Error>) {
        let ghost m = self.vertices();
        let n = self.records.len();
        let mut acc: Vec<(VertexId, i64)> = Vec::new();
        let mut i: usize = 0;
        while i < n
            invariant
                i <= n,
                self.wf(),
                m == self.vertices(),
                n == self.records@.len(),
                forall|k: int| 0 <= k < acc@.len() ==> child_of(
                    m,
                    (#[trigger] acc@[k]).0@,
                    parent_id@,
                ) && m[acc@[k].0@].idx == acc@[k].1 && beyond(after_idx, acc@[k].1 as int),
                forall|k: int, l: int| 0 <= k <= l < acc@.len() ==> (#[trigger] acc@[k]).1 <= (
                #[trigger] acc@[l]).1,
                forall|k: int, l: int| 0 <= k < l < acc@.len() ==> (#[trigger] acc@[k]).0@ != (
                #[trigger] acc@[l]).0@,
                forall|j: int| 0 <= j < i ==> !(child_like(self.records@[j], parent_id@)
                    && beyond(after_idx, self.records@[j].idx as int)) || (exists|k: int|
                    0 <= k < acc@.len() && (#[trigger] acc@[k]).0@ == self.records@[j].id@),
                forall|k: int| 0 <= k < acc@.len() ==> exists|j: int| 0 <= j < i && (#[trigger]
                acc@[k]).0@ == self.records@[j].id@,
            decreases n - i,
        {
            let v = &self.records[i];
            let mut is_child = false;
            match &v.parent_id {
                Option::Some(p) => {
                    if str_eq(self_str(p), parent_id) {
                        is_child = true;
                    }
                },
                Option::None => {},
            }
            let mut past = true;
            match after_idx {
                Option::Some(a) => {
                    if v.idx <= a {
                        past = false;
                    }
                },
                Option::None => {},
            }
            if is_child && past {
                proof {
                    lemma_verts_as_map_at(self.records@, i as int);
                }
                let mut p: usize = 0;
                while p < acc.len() && acc[p].1 <= v.idx
                    invariant
                        p <= acc@.len(),
                        i < self.records@.len(),
                        v == self.records@[i as int],
                        forall|j: int| 0 <= j < p ==> (#[trigger] acc@[j]).1 <= v.idx,
                    decreases acc@.len() - p,
                {
                    p = p + 1;
                }
                let ghost prev_acc = acc@;
                let cid = v.id.clone();
                let entry = (cid, v.idx);
                proof {
                    assert(entry == (self.records@[i as int].id, self.records@[i as int].idx));
                }
                acc.insert(p, entry);
                proof {
                    assert(acc@ == prev_acc.insert(p as int, entry));
                    assert(forall|k: int| 0 <= k < p ==> acc@[k] == prev_acc[k]);
                    assert(acc@[p as int] == entry);
                    assert(forall|k: int| p < k < acc@.len() ==> acc@[k] == prev_acc[k - 1]);
                    // Sortedness across the insertion point.
                    assert forall|k: int, l: int| 0 <= k <= l < acc@.len() implies (#[trigger]
                    acc@[k]).1 <= (#[trigger] acc@[l]).1 by {
                        let k0: int = if k <= p {
                            k
                        } else {
                            k - 1
                        };
                        let l0: int = if l <= p {
                            l
                        } else {
                            l - 1
                        };
                        if k == p && l == p {
                        } else if k == p {
                            assert(acc@[l] == prev_acc[l - 1]);
                            assert(prev_acc[p as int].1 > v.idx || p == prev_acc.len());
                            assert(prev_acc[l - 1].1 >= prev_acc[p as int].1);
                        } else if l == p {
                            assert(acc@[k] == prev_acc[k]);
                        } else {
                            assert(acc@[k] == prev_acc[k0] && acc@[l] == prev_acc[l0]);
                        }
                    }
                    // Distinct identifiers.
                    assert forall|k: int, l: int| 0 <= k < l < acc@.len() implies (#[trigger]
                    acc@[k]).0@ != (#[trigger] acc@[l]).0@ by {
                        if k != p && l != p {
                            let k0: int = if k < p {
                                k
                            } else {
                                k - 1
                            };
                            let l0: int = if l < p {
                                l
                            } else {
                                l - 1
                            };
                            assert(acc@[k] == prev_acc[k0] && acc@[l] == prev_acc[l0]);
                        } else {
                            let o: int = if k == p {
                                l
                            } else {
                                k
                            };
                            let o0: int = if o < p {
                                o
                            } else {
                                o - 1
                            };
                            assert(acc@[o] == prev_acc[o0]);
                            let j0 = choose|j0: int| 0 <= j0 < i && (#[trigger] prev_acc[o0]).0@
                                == self.records@[j0].id@;
                            assert(self.records@[j0].id@ != self.records@[i as int].id@);
                        }
                    }
                    // Membership of every entry among the records seen.
                    assert forall|k: int| 0 <= k < acc@.len() implies exists|j: int| 0 <= j < i
                        + 1 && (#[trigger] acc@[k]).0@ == self.records@[j].id@ by {
                        if k == p {
                            assert(acc@[k].0@ == self.records@[i as int].id@);
                        } else {
                            let k0: int = if k < p {
                                k
                            } else {
                                k - 1
                            };
                            assert(acc@[k] == prev_acc[k0]);
                            let j0 = choose|j0: int| 0 <= j0 < i && (#[trigger] prev_acc[k0]).0@
                                == self.records@[j0].id@;
                            assert(acc@[k].0@ == self.records@[j0].id@);
                        }
                    }
                    // Every matching record seen so far is represented.
                    assert forall|j: int| 0 <= j < i + 1 && child_like(
                        self.records@[j],
                        parent_id@,
                    ) && beyond(after_idx, self.records@[j].idx as int) implies exists|k: int|
                        0 <= k < acc@.len() && (#[trigger] acc@[k]).0@
                        == self.records@[j].id@ by {
                        if j == i {
                            assert(acc@[p as int].0@ == self.records@[j].id@);
                        } else {
                            let k0 = choose|k0: int| 0 <= k0 < prev_acc.len() && (#[trigger]
                            prev_acc[k0]).0@ == self.records@[j].id@;
                            let k1: int = if k0 < p {
                                k0
                            } else {
                                k0 + 1
                            };
                            assert(acc@[k1].0@ == self.records@[j].id@);
                        }
                    }
                    // Entry data matches the mapping.
                    assert forall|k: int| 0 <= k < acc@.len() implies child_of(
                        m,
                        (#[trigger] acc@[k]).0@,
                        parent_id@,
                    ) && m[acc@[k].0@].idx == acc@[k].1 && beyond(after_idx, acc@[k].1 as int) by {
                        if k != p {
                            let k0: int = if k < p {
                                k
                            } else {
                                k - 1
                            };
                            assert(acc@[k] == prev_acc[k0]);
                        }
                    }
                }
            }
            i = i + 1;
        }
        proof {
            assert forall|id: Seq<char>| child_of(m, id, parent_id@) && beyond(
                after_idx,
                m[id].idx,
            ) implies exists|k: int| 0 <= k < acc@.len() && (#[trigger] acc@[k]).0@ == id by {
                lemma_verts_as_map_contains(self.records@, id);
                let j = choose|j: int| 0 <= j < self.records@.len() && self.records@[j].id@ == id;
                lemma_verts_as_map_at(self.records@, j);
                assert(child_like(self.records@[j], parent_id@));
                assert(beyond(after_idx, self.records@[j].idx as int));
            }
        }
        // Cap the page at the limit; whatever is dropped has an index at
        // least as large as the last kept entry.
        if acc.len() > limit {
            let ghost full = acc@;
            let mut capped: Vec<(VertexId, i64)> = Vec::new();
            let mut k: usize = 0;
            while k < limit
                invariant
                    k <= limit,
                    limit < full.len(),
                    acc@ == full,
                    capped@.len() == k,
                    forall|j: int| 0 <= j < k ==> (#[trigger] capped@[j]) == full[j],
                decreases limit - k,
            {
                let entry_id = acc[k].0.clone();
                let entry_idx = acc[k].1;
                proof {
                    assert((entry_id, entry_idx) == full[k as int]);
                }
                capped.push((entry_id, entry_idx));
                k = k + 1;
            }
            proof {
                assert forall|k: int| 0 <= k < capped@.len() implies child_of(
                    m,
                    (#[trigger] capped@[k]).0@,
                    parent_id@,
                ) && m[capped@[k].0@].idx == capped@[k].1 && beyond(
                    after_idx,
                    capped@[k].1 as int,
                ) by {
                    assert(capped@[k] == full[k]);
                }
                assert forall|k: int, l: int| 0 <= k < l < capped@.len() implies (#[trigger]
                capped@[k]).1 <= (#[trigger] capped@[l]).1 && capped@[k].0@ != capped@[l].0@ by {
                    assert(capped@[k] == full[k] && capped@[l] == full[l]);
                }
                if limit > 0 {
                    assert forall|id: Seq<char>| child_of(m, id, parent_id@) && beyond(
                        after_idx,
                        m[id].idx,
                    ) implies (exists|k2: int| 0 <= k2 < capped@.len() && (#[trigger]
                    capped@[k2]).0@ == id) || m[id].idx >= capped@[capped@.len() - 1].1 by {
                        let w = choose|w: int| 0 <= w < full.len() && (#[trigger] full[w]).0@
                            == id;
                        if w < limit {
                            assert(capped@[w] == full[w]);
                            assert(capped@[w].0@ == id);
                        } else {
                            assert(full[limit - 1].1 <= full[w].1);
                            assert(m[id].idx == full[w].1);
                            assert(capped@[capped@.len() - 1] == full[limit - 1]);
                        }
                    }
                }
            }
            return Result::Ok(capped);
        }
        Result::Ok(acc)
    }
}

/// The record is a child of the given parent.
pub open spec fn child_like(v: EncodedVertex, parent: Seq<char>) -> bool {
    v.parent_id matches Option::Some(p) && p@ == parent
}

// ---------------------------------------------------------------------------
// Combined storage
// ---------------------------------------------------------------------------

/// The storage of one replica: a vertex store and the two operation logs.
pub struct Storage<V: VertexStore, M: LogStore<MoveVertex>, P: LogStore<SetVertexProperty>> {
    /// Store of materialized vertices.
    pub vertices: V,
    /// Append-only log of move operations.
    pub move_log: M,
    /// Append-only log of property operations.
    pub prop_log: P,
}

/// In-memory storage: the verified backend for [`StorageConfig::Memory`].
pub type MemStorage = Storage<MemVertexStore, MemLog<MoveVertex>, MemLog<SetVertexProperty>>;

impl<V: VertexStore, M: LogStore<MoveVertex>, P: LogStore<SetVertexProperty>> Storage<V, M, P> {
    /// Assemble a storage instance from a backend's three parts.
    pub fn new(vertices: V, move_log: M, prop_log: P) -> (r: Self)
        ensures
            r.vertices == vertices,
            r.move_log == move_log,
            r.prop_log == prop_log,
    {
        Storage { vertices, move_log, prop_log }
    }
}

/// Create the verified in-memory storage.
pub fn new_memory_storage() -> (r: MemStorage)
    ensures
        r.vertices.inv(),
        r.move_log.inv(),
        r.prop_log.inv(),
        r.vertices.wf(),
        r.vertices.vertices() == Map::<Seq<char>, VertexModel>::empty(),
        r.move_log.log() == Seq::<MoveVertex>::empty(),
        r.prop_log.log() == Seq::<SetVertexProperty>::empty(),
{
    Storage::new(MemVertexStore::new(), MemLog::new(), MemLog::new())
}

/// Every scanned record is a kept log entry, and every kept log entry is
/// scanned.
pub proof fn lemma_scan_filtered_membership<T: LogRecord>(log: Seq<T>, opts: ScanOptions, n: int)
    requires
        n <= log.len(),
    ensures
        forall|k: int|
            #![trigger scan_filtered(log, opts, n)[k]]
            0 <= k < scan_filtered(log, opts, n).len() ==> exists|j: int| 0 <= j < n
                && #[trigger] log[j] == scan_filtered(log, opts, n)[k] && scan_keeps(
                log[j],
                j + 1,
                opts,
            ),
        forall|j: int| 0 <= j < n && scan_keeps(#[trigger] log[j], j + 1, opts) ==> exists|k: int|
            0 <= k < scan_filtered(log, opts, n).len() && #[trigger] scan_filtered(log, opts, n)[k]
                == log[j],
    decreases n,
{
    if n > 0 {
        lemma_scan_filtered_membership(log, opts, n - 1);
        let prev = scan_filtered(log, opts, n - 1);
        let cur = scan_filtered(log, opts, n);
        assert forall|k: int|
            #![trigger cur[k]]
            0 <= k < cur.len() implies exists|j: int| 0 <= j < n && #[trigger] log[j] == cur[k]
            && scan_keeps(log[j], j + 1, opts) by {
            if k < prev.len() {
                assert(cur[k] == prev[k]);
                let j = choose|j: int| 0 <= j < n - 1 && #[trigger] log[j] == prev[k]
                    && scan_keeps(log[j], j + 1, opts);
                assert(log[j] == cur[k]);
            } else {
                assert(cur[k] == log[n - 1]);
            }
        }
        assert forall|j: int| 0 <= j < n && scan_keeps(#[trigger] log[j], j + 1, opts) implies
            exists|k: int| 0 <= k < cur.len() && #[trigger] cur[k] == log[j] by {
            if j < n - 1 {
                let k = choose|k: int| 0 <= k < prev.len() && #[trigger] prev[k] == log[j];
                assert(cur[k] == log[j]);
            } else {
                assert(cur[cur.len() - 1] == log[n - 1]);
            }
        }
    }
}

/// With pairwise distinct log identifiers, the scanned records carry
/// pairwise distinct identifiers.
pub proof fn lemma_scan_filtered_distinct<T: LogRecord>(log: Seq<T>, opts: ScanOptions, n: int)
    requires
        n <= log.len(),
        forall|a: int, b: int| 0 <= a < b < log.len() ==> !crate::types::opid_same(
            (#[trigger] log[a]).rec_id(),
            (#[trigger] log[b]).rec_id(),
        ),
    ensures
        forall|a: int, b: int| 0 <= a < b < scan_filtered(log, opts, n).len()
            ==> !crate::types::opid_same(
            (#[trigger] scan_filtered(log, opts, n)[a]).rec_id(),
            (#[trigger] scan_filtered(log, opts, n)[b]).rec_id(),
        ),
    decreases n,
{
    if n > 0 {
        lemma_scan_filtered_distinct(log, opts, n - 1);
        lemma_scan_filtered_membership(log, opts, n - 1);
        let prev = scan_filtered(log, opts, n - 1);
        let cur = scan_filtered(log, opts, n);
        assert forall|a: int, b: int| 0 <= a < b < cur.len() implies !crate::types::opid_same(
            (#[trigger] cur[a]).rec_id(),
            (#[trigger] cur[b]).rec_id(),
        ) by {
            if b < prev.len() {
                assert(cur[a] == prev[a] && cur[b] == prev[b]);
            } else if cur.len() > prev.len() {
                assert(cur[a] == prev[a]);
                assert(cur[b] == log[n - 1]);
                let j = choose|j: int| 0 <= j < n - 1 && #[trigger] log[j] == prev[a]
                    && scan_keeps(log[j], j + 1, opts);
            }
        }
    }
}

/// With no filters set, a scan of the first `n` entries returns exactly
/// those entries.
pub proof fn lemma_scan_unfiltered<T: LogRecord>(log: Seq<T>, opts: ScanOptions, n: int)
    requires
        0 <= n <= log.len(),
        opts.peer_id is None,
        opts.from_seq is None,
        opts.to_seq is None,
    ensures
        scan_filtered(log, opts, n) == log.take(n),
    decreases n,
{
    if n == 0 {
        assert(scan_filtered(log, opts, 0) =~= log.take(0));
    } else {
        lemma_scan_unfiltered(log, opts, n - 1);
        assert(scan_filtered(log, opts, n) =~= log.take(n));
    }
}

} // verus!
