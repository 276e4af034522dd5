//! The replica engine: hosts the logical clock, the vertex cache, and the
//! state vector, applies `Move` and `SetProperty` operations to the
//! materialized tree, and drives sync with other peers.

use vstd::prelude::*;

use crate::model::empty_tree;
use crate::model::engine_steps;
use crate::model::fold_ops;
use crate::model::hist_has_id;
use crate::model::hist_ids_distinct;
use crate::model::hist_ok;
use crate::model::is_max_child_idx;
use crate::model::lemma_engine_steps_snoc;
use crate::model::lemma_hist_has_id_push;
use crate::model::lemma_hist_ok_push;
use crate::model::lemma_logs_push;
use crate::model::lemma_max_agrees;
use crate::model::lemma_replay_history;
use crate::model::lemma_replay_history_distinct;
use crate::model::lemma_replay_history_ids;
use crate::model::lemma_tree_wf_move;
use crate::model::lemma_tree_wf_step;
use crate::model::max_child_idx;
use crate::model::move_apply;
use crate::model::move_ok;
use crate::model::moves_of;
use crate::model::op_admissible;
use crate::model::op_apply;
use crate::model::op_ok;
use crate::model::project_op;
use crate::model::prop_apply;
use crate::model::props_of;
use crate::model::replay_history;
use crate::model::tree_wf;
use crate::model::TreeMap;
use crate::state_vector::StateVector;
use crate::state_vector::entries_cover;
use crate::storage::beyond;
use crate::storage::child_of;
use crate::storage::lemma_scan_unfiltered;
use crate::storage::scan_spec;
use crate::storage::LogRecord;
use crate::storage::LogStore;
use crate::storage::Storage;
use crate::storage::VertexStore;
use crate::types::EncodedVertex;
use crate::types::Error;
use crate::types::MoveVertex;
use crate::types::OpId;
use crate::types::Range;
use crate::types::SetVertexProperty;
use crate::types::VertexId;
use crate::types::VertexOperation;
use crate::types::VertexPropertyType;
use crate::types::op_id_of;
use crate::types::self_str;
use crate::types::sp_like;

verus! {

// ---------------------------------------------------------------------------
// The vertex cache, backed by an outside LRU implementation
// ---------------------------------------------------------------------------

#[verifier::external_type_specification]
#[verifier::external_body]
#[verifier::reject_recursive_types(K)]
#[verifier::reject_recursive_types(V)]
#[verifier::reject_recursive_types(S)]
pub struct ExLruCache<K, V, S>(lru::LruCache<K, V, S>);

/// The concrete cache type: vertex records keyed by identifier, hashed
/// by the standard library's default hasher.
pub type VertexCache = lru::LruCache<
    String,
    EncodedVertex,
    std::collections::hash_map::RandomState,
>;

/// What the cache currently holds, as a mapping from key to record.
pub uninterp spec fn cache_entries(c: VertexCache) -> Map<Seq<char>, EncodedVertex>;

/// The cache holds no entries.
pub open spec fn cache_empty(c: VertexCache) -> bool {
    forall|k: Seq<char>| !cache_entries(c).contains_key(k)
}

/// Relies on lru::LruCache::with_hasher: a freshly created cache holds
/// nothing.
#[verifier::external_body]
fn cache_new(cap: usize) -> (r: VertexCache)
    requires
        cap >= 1,
    ensures
        cache_empty(r),
{
    lru::LruCache::with_hasher(
        core::num::NonZeroUsize::new(cap).unwrap(),
        std::collections::hash_map::RandomState::new(),
    )
}

/// Relies on lru::LruCache::get: returns the entry under the key, if one
/// is held, and only moves it to the front of the recency order.
#[verifier::external_body]
fn cache_get<'a>(c: &'a mut VertexCache, k: &str) -> (r: Option<&'a EncodedVertex>)
    ensures
        cache_entries(*final(c)) == cache_entries(*old(c)),
        match r {
            Option::Some(v) => cache_entries(*old(c)).contains_key(k@) && *v == cache_entries(
                *old(c),
            )[k@],
            Option::None => !cache_entries(*old(c)).contains_key(k@),
        },
{
    c.get(k)
}

/// Relies on lru::LruCache::put: inserts the pair; when the cache is at
/// capacity the least-recently-used entry is silently evicted.
#[verifier::external_body]
fn cache_put(c: &mut VertexCache, k: String, v: EncodedVertex)
    ensures
        cache_entries(*final(c)).submap_of(cache_entries(*old(c)).insert(k@, v)),
        cache_entries(*final(c)).contains_key(k@),
        cache_entries(*final(c))[k@] == v,
{
    c.put(k, v);
}

/// Relies on uuid::Uuid::new_v4 and its canonical text form: a random
/// version-4 identifier rendered as 36 hyphenated hexadecimal characters.
#[verifier::external_body]
fn fresh_vertex_id() -> (r: String)
    ensures
        r@.len() == 36,
{
    uuid::Uuid::new_v4().to_string()
}

/// Every cache entry agrees with the store.
pub open spec fn cache_coherent(entries: Map<Seq<char>, EncodedVertex>, m: TreeMap) -> bool {
    forall|k: Seq<char>| entries.contains_key(k) ==> m.contains_key(k) && (#[trigger] entries[k])@
        == m[k] && entries[k].id@ == k && entries[k].wf()
}

// ---------------------------------------------------------------------------
// The engine
// ---------------------------------------------------------------------------

/// One peer's replica of the tree: storage, cache, state vector and
/// logical clock.
pub struct RepTree<V: VertexStore, M: LogStore<MoveVertex>, P: LogStore<SetVertexProperty>> {
    peer_id: String,
    lamport_clock: u64,
    storage: Storage<V, M, P>,
    vertex_cache: VertexCache,
    state_vector: StateVector,
    hist: Ghost<Seq<VertexOperation>>,
    synced: Ghost<bool>,
}

/// The clock value after observing a timestamp.
pub open spec fn clock_next(local: u64, observed: u64) -> int {
    if local >= observed {
        local + 1
    } else {
        observed + 1
    }
}

impl<V: VertexStore, M: LogStore<MoveVertex>, P: LogStore<SetVertexProperty>> RepTree<V, M, P> {
    /// The identifier of this peer.
    pub closed spec fn peer(&self) -> Seq<char> {
        self.peer_id@
    }

    /// The current logical clock value.
    pub closed spec fn lamport(&self) -> u64 {
        self.lamport_clock
    }

    /// The operations applied by this replica, in arrival order,
    /// `ModifyProperty` already projected onto `SetProperty`.
    pub closed spec fn history(&self) -> Seq<VertexOperation> {
        self.hist@
    }

    /// The materialized tree: the vertex store's mapping.
    pub closed spec fn tree(&self) -> TreeMap {
        self.storage.vertices.vertices()
    }

    /// The move log's contents.
    pub closed spec fn move_log_view(&self) -> Seq<MoveVertex> {
        self.storage.move_log.log()
    }

    /// The property log's contents.
    pub closed spec fn prop_log_view(&self) -> Seq<SetVertexProperty> {
        self.storage.prop_log.log()
    }

    /// The state vector value.
    pub closed spec fn sv(&self) -> StateVector {
        self.state_vector
    }

    /// The replica has acknowledged the operation with this peer and
    /// counter.
    pub open spec fn applied(&self, p: Seq<char>, c: u64) -> bool {
        self.sv().covers(p, c)
    }

    /// The materialized tree equals the fold of the history: true unless
    /// a storage failure interrupted an application midway.
    pub closed spec fn in_sync(&self) -> bool {
        self.synced@
    }

    /// The backend never fails with a storage error: true of the verified
    /// in-memory backend. On a reliable replica the engine promises
    /// success wherever no missing vertex and no exhausted counter space
    /// stands in the way.
    pub closed spec fn reliable(&self) -> bool {
        &&& self.storage.vertices.reliable()
        &&& self.storage.move_log.reliable()
        &&& self.storage.prop_log.reliable()
    }

    /// The replica invariant.
    pub closed spec fn wf(&self) -> bool {
        &&& self.state_vector.wf()
        &&& self.storage.vertices.inv()
        &&& self.storage.move_log.inv()
        &&& self.storage.prop_log.inv()
        &&& self.storage.move_log.log() == moves_of(self.hist@)
        &&& self.storage.prop_log.log() == props_of(self.hist@)
        &&& forall|p: Seq<char>, c: u64| self.state_vector.covers(p, c) == hist_has_id(
            self.hist@,
            p,
            c,
        )
        &&& hist_ids_distinct(self.hist@)
        &&& hist_no_modify(self.hist@)
        &&& tree_wf(self.tree())
        &&& cache_coherent(cache_entries(self.vertex_cache), self.tree())
        &&& self.synced@ ==> self.tree() == fold_ops(empty_tree(), self.hist@) && hist_ok(
            self.hist@,
        )
    }

    /// Create a replica over the given storage. The storage must be
    /// fresh: empty logs, empty vertex store.
    pub fn new(peer_id: String, storage: Storage<V, M, P>) -> (r: Self)
        requires
            storage.vertices.inv(),
            storage.move_log.inv(),
            storage.prop_log.inv(),
            storage.vertices.vertices() == Map::<Seq<char>, crate::types::VertexModel>::empty(),
            storage.move_log.log() == Seq::<MoveVertex>::empty(),
            storage.prop_log.log() == Seq::<SetVertexProperty>::empty(),
        ensures
            r.wf(),
            r.in_sync(),
            r.peer() == peer_id@,
            r.lamport() == 0,
            r.history() == Seq::<VertexOperation>::empty(),
            forall|p: Seq<char>, c: u64| !r.applied(p, c),
            r.tree() == empty_tree(),
            r.move_log_view() == Seq::<MoveVertex>::empty(),
            r.prop_log_view() == Seq::<SetVertexProperty>::empty(),
            r.reliable() == (storage.vertices.reliable() && storage.move_log.reliable()
                && storage.prop_log.reliable()),
    {
        let r = RepTree {
            peer_id,
            lamport_clock: 0u64,
            storage,
            vertex_cache: cache_new(50000),
            state_vector: StateVector::new(),
            hist: Ghost(Seq::empty()),
            synced: Ghost(true),
        };
        proof {
            assert(moves_of(r.hist@) =~= Seq::<MoveVertex>::empty());
            assert(props_of(r.hist@) =~= Seq::<SetVertexProperty>::empty());
            crate::model::lemma_tree_wf_empty();
            assert(r.tree() =~= empty_tree());
        }
        r
    }

    /// Open a replica over storage that already holds persisted state:
    /// the two logs' records and the vertex store they materialize. The
    /// state vector is rebuilt by scanning both logs, so exactly the
    /// logged identifiers are acknowledged; the ghost history is
    /// reconstructed as every move followed by every property operation,
    /// and the logical clock restarts at zero, as for a fresh replica.
    #[verifier::rlimit(30)]
    #[verifier::spinoff_prover]
    pub fn open(peer_id: String, storage: Storage<V, M, P>) -> (r: Result<Self, Error>)
        requires
            storage.vertices.inv(),
            storage.move_log.inv(),
            storage.prop_log.inv(),
            tree_wf(storage.vertices.vertices()),
            forall|a: int, b: int| 0 <= a < b < storage.move_log.log().len()
                ==> !crate::types::opid_same(
                (#[trigger] storage.move_log.log()[a]).id,
                (#[trigger] storage.move_log.log()[b]).id,
            ),
            forall|a: int, b: int| 0 <= a < b < storage.prop_log.log().len()
                ==> !crate::types::opid_same(
                (#[trigger] storage.prop_log.log()[a]).id,
                (#[trigger] storage.prop_log.log()[b]).id,
            ),
            forall|a: int, b: int| 0 <= a < storage.move_log.log().len() && 0 <= b
                < storage.prop_log.log().len() ==> !crate::types::opid_same(
                (#[trigger] storage.move_log.log()[a]).id,
                (#[trigger] storage.prop_log.log()[b]).id,
            ),
        ensures
            storage.vertices.reliable() && storage.move_log.reliable()
                && storage.prop_log.reliable() ==> r is Ok,
            match r {
                Result::Ok(rt) => {
                    &&& rt.wf()
                    &&& rt.peer() == peer_id@
                    &&& rt.lamport() == 0
                    &&& rt.tree() == storage.vertices.vertices()
                    &&& rt.move_log_view() == storage.move_log.log()
                    &&& rt.prop_log_view() == storage.prop_log.log()
                    &&& rt.reliable() == (storage.vertices.reliable()
                        && storage.move_log.reliable() && storage.prop_log.reliable())
                    &&& forall|p: Seq<char>, c: u64| rt.applied(p, c) == ((exists|i: int|
                        0 <= i < storage.move_log.log().len() && (#[trigger] storage.move_log.log()[i]).id.peer_id@
                            == p && storage.move_log.log()[i].id.counter == c) || (exists|i: int|
                        0 <= i < storage.prop_log.log().len() && (#[trigger] storage.prop_log.log()[i]).id.peer_id@
                            == p && storage.prop_log.log()[i].id.counter == c))
                },
                Result::Err(e) => e is Storage,
            },
    {
        let ghost mlog = storage.move_log.log();
        let ghost plog = storage.prop_log.log();
        let opts_m = crate::types::ScanOptions {
            peer_id: Option::None,
            from_seq: Option::None,
            to_seq: Option::None,
            limit: Option::None,
            reverse: false,
        };
        let mv_scan = match storage.move_log.scan_range(opts_m) {
            Result::Ok(v) => v,
            Result::Err(e) => {
                return Result::Err(e);
            },
        };
        proof {
            lemma_scan_unfiltered(mlog, opts_m, mlog.len() as int);
            assert(mlog.take(mlog.len() as int) =~= mlog);
            assert(scan_spec(mlog, opts_m) == mlog);
            assert(mv_scan@ =~= mlog);
        }
        let opts_p = crate::types::ScanOptions {
            peer_id: Option::None,
            from_seq: Option::None,
            to_seq: Option::None,
            limit: Option::None,
            reverse: false,
        };
        let pr_scan = match storage.prop_log.scan_range(opts_p) {
            Result::Ok(v) => v,
            Result::Err(e) => {
                return Result::Err(e);
            },
        };
        proof {
            lemma_scan_unfiltered(plog, opts_p, plog.len() as int);
            assert(plog.take(plog.len() as int) =~= plog);
            assert(scan_spec(plog, opts_p) == plog);
        }
        let mut sv = StateVector::new();
        let n = mv_scan.len();
        let mut i: usize = 0;
        while i < n
            invariant
                i <= n,
                sv.wf(),
                n == mv_scan@.len(),
                mv_scan@ == mlog,
                forall|p: Seq<char>, c: u64| sv.covers(p, c) == (exists|q: int| 0 <= q < i && (
                #[trigger] mlog[q]).id.peer_id@ == p && mlog[q].id.counter == c),
            decreases n - i,
        {
            let ghost pre_sv = sv;
            sv.add(self_str(&mv_scan[i].id.peer_id), mv_scan[i].id.counter);
            proof {
                assert forall|p: Seq<char>, c: u64| sv.covers(p, c) == (exists|q: int|
                    0 <= q < i + 1 && (#[trigger] mlog[q]).id.peer_id@ == p && mlog[q].id.counter
                        == c) by {
                    if sv.covers(p, c) {
                        if pre_sv.covers(p, c) {
                            let q = choose|q: int| 0 <= q < i && (#[trigger] mlog[q]).id.peer_id@
                                == p && mlog[q].id.counter == c;
                            assert(0 <= q < i + 1 && mlog[q].id.peer_id@ == p && mlog[q].id.counter
                                == c);
                        } else {
                            assert(mlog[i as int].id.peer_id@ == p && mlog[i as int].id.counter
                                == c);
                        }
                    }
                    if exists|q: int| 0 <= q < i + 1 && (#[trigger] mlog[q]).id.peer_id@ == p
                        && mlog[q].id.counter == c {
                        let q = choose|q: int| 0 <= q < i + 1 && (#[trigger] mlog[q]).id.peer_id@
                            == p && mlog[q].id.counter == c;
                        if q < i {
                            assert(pre_sv.covers(p, c));
                        }
                    }
                }
            }
            i = i + 1;
        }
        let m = pr_scan.len();
        let mut j: usize = 0;
        while j < m
            invariant
                j <= m,
                sv.wf(),
                m == pr_scan@.len(),
                pr_scan@.len() == plog.len(),
                forall|q: int| 0 <= q < plog.len() ==> sp_like(#[trigger] pr_scan@[q], plog[q]),
                forall|p: Seq<char>, c: u64| sv.covers(p, c) == ((exists|q: int|
                    0 <= q < mlog.len() && (#[trigger] mlog[q]).id.peer_id@ == p
                        && mlog[q].id.counter == c) || (exists|q: int| 0 <= q < j && (
                #[trigger] plog[q]).id.peer_id@ == p && plog[q].id.counter == c)),
            decreases m - j,
        {
            let ghost pre_sv = sv;
            sv.add(self_str(&pr_scan[j].id.peer_id), pr_scan[j].id.counter);
            proof {
                assert(pr_scan@[j as int].id == plog[j as int].id);
                assert forall|p: Seq<char>, c: u64| sv.covers(p, c) == ((exists|q: int|
                    0 <= q < mlog.len() && (#[trigger] mlog[q]).id.peer_id@ == p
                        && mlog[q].id.counter == c) || (exists|q: int| 0 <= q < j + 1 && (
                #[trigger] plog[q]).id.peer_id@ == p && plog[q].id.counter == c)) by {
                    if sv.covers(p, c) && !pre_sv.covers(p, c) {
                        assert(plog[j as int].id.peer_id@ == p && plog[j as int].id.counter == c);
                    }
                    if exists|q: int| 0 <= q < j + 1 && (#[trigger] plog[q]).id.peer_id@ == p
                        && plog[q].id.counter == c {
                        let q = choose|q: int| 0 <= q < j + 1 && (#[trigger] plog[q]).id.peer_id@
                            == p && plog[q].id.counter == c;
                        if q < j {
                            assert(pre_sv.covers(p, c));
                        }
                    }
                }
            }
            j = j + 1;
        }
        let rt = RepTree {
            peer_id,
            lamport_clock: 0u64,
            storage,
            vertex_cache: cache_new(50000),
            state_vector: sv,
            hist: Ghost(replay_history(mlog, plog)),
            synced: Ghost(false),
        };
        proof {
            lemma_replay_history(mlog, plog);
            lemma_replay_history_ids(mlog, plog);
            lemma_replay_history_distinct(mlog, plog);
            assert forall|i2: int| 0 <= i2 < rt.hist@.len() implies !((#[trigger] rt.hist@[i2]) is
                ModifyProperty) by {
                if i2 < mlog.len() {
                    assert(rt.hist@[i2] == VertexOperation::Move(mlog[i2]));
                } else {
                    assert(rt.hist@[i2] == VertexOperation::SetProperty(plog[i2 - mlog.len()]));
                }
            }
            assert forall|p: Seq<char>, c: u64| rt.sv().covers(p, c) == hist_has_id(
                rt.hist@,
                p,
                c,
            ) by {}
            assert(cache_coherent(cache_entries(rt.vertex_cache), rt.tree()));
            assert(rt.wf());
        }
        Result::Ok(rt)
    }

    /// The peer identifier of this replica.
    pub fn peer_id(&self) -> (r: &str)
        ensures
            r@ == self.peer(),
    {
        self_str(&self.peer_id)
    }

    /// The current Lamport clock value.
    pub fn lamport_clock(&self) -> (r: u64)
        ensures
            r == self.lamport(),
    {
        self.lamport_clock
    }

    /// Advance the clock past an observed timestamp.
    fn update_lamport_clock(&mut self, timestamp: u64)
        requires
            old(self).lamport() < u64::MAX,
            timestamp < u64::MAX,
        ensures
            final(self).lamport() as int == clock_next(old(self).lamport(), timestamp),
            final(self).peer() == old(self).peer(),
            final(self).history() == old(self).history(),
            final(self).sv() == old(self).sv(),
            final(self).tree() == old(self).tree(),
            final(self).move_log_view() == old(self).move_log_view(),
            final(self).prop_log_view() == old(self).prop_log_view(),
            final(self).in_sync() == old(self).in_sync(),
            final(self).wf() == old(self).wf(),
            final(self).reliable() == old(self).reliable(),
            final(self).vertex_cache == old(self).vertex_cache,
    {
        if self.lamport_clock >= timestamp {
            self.lamport_clock = self.lamport_clock + 1;
        } else {
            self.lamport_clock = timestamp + 1;
        }
    }

    /// Allocate the next operation identifier from the clock.
    fn new_op_id(&mut self) -> (r: OpId)
        requires
            old(self).lamport() < u64::MAX,
        ensures
            r.peer_id@ == old(self).peer(),
            r.counter == old(self).lamport(),
            final(self).lamport() == old(self).lamport() + 1,
            final(self).peer() == old(self).peer(),
            final(self).history() == old(self).history(),
            final(self).sv() == old(self).sv(),
            final(self).tree() == old(self).tree(),
            final(self).move_log_view() == old(self).move_log_view(),
            final(self).prop_log_view() == old(self).prop_log_view(),
            final(self).in_sync() == old(self).in_sync(),
            final(self).wf() == old(self).wf(),
            final(self).reliable() == old(self).reliable(),
            final(self).vertex_cache == old(self).vertex_cache,
    {
        let counter = self.lamport_clock;
        self.lamport_clock = self.lamport_clock + 1;
        OpId::new(self.peer_id.clone(), counter)
    }

    /// Look a vertex up, consulting the cache first and populating it on
    /// a miss.
    fn fetch(&mut self, id: &str) -> (r: Result<Option<EncodedVertex>, Error>)
        requires
            old(self).wf(),
        ensures
            final(self).wf(),
            final(self).peer() == old(self).peer(),
            final(self).lamport() == old(self).lamport(),
            final(self).history() == old(self).history(),
            final(self).sv() == old(self).sv(),
            final(self).tree() == old(self).tree(),
            final(self).move_log_view() == old(self).move_log_view(),
            final(self).prop_log_view() == old(self).prop_log_view(),
            final(self).in_sync() == old(self).in_sync(),
            final(self).reliable() == old(self).reliable(),
            old(self).reliable() ==> !(r is Err),
            match r {
                Result::Ok(Option::Some(v)) => final(self).tree().contains_key(id@) && v@
                    == final(self).tree()[id@] && v.id@ == id@ && v.wf(),
                Result::Ok(Option::None) => !final(self).tree().contains_key(id@),
                Result::Err(e) => e is Storage,
            },
    {
        let hit = match cache_get(&mut self.vertex_cache, id) {
            Option::Some(v) => Option::Some(v.clone()),
            Option::None => Option::None,
        };
        match hit {
            Option::Some(v) => {
                return Result::Ok(Option::Some(v));
            },
            Option::None => {},
        }
        match self.storage.vertices.get_vertex(id) {
            Result::Err(e) => Result::Err(e),
            Result::Ok(Option::None) => Result::Ok(Option::None),
            Result::Ok(Option::Some(v)) => {
                let ghost pre = cache_entries(self.vertex_cache);
                let copy = v.clone();
                let ghost gcopy = copy;
                cache_put(&mut self.vertex_cache, id.to_owned(), copy);
                proof {
                    let now = cache_entries(self.vertex_cache);
                    assert forall|k: Seq<char>| now.contains_key(k) implies self
                        .tree()
                        .contains_key(k) && (#[trigger] now[k])@ == self.tree()[k] && now[k].id@
                        == k && now[k].wf() by {
                        if k == id@ {
                            assert(now[k] == gcopy);
                        } else {
                            assert(pre.insert(id@, gcopy).contains_key(k));
                            assert(now[k] == pre[k]);
                        }
                    }
                }
                Result::Ok(Option::Some(v))
            },
        }
    }

    /// Consult the cache, then the store; populate the cache on a miss.
    pub fn get_vertex(&mut self, id: &str) -> (r: Result<Option<EncodedVertex>, Error>)
        requires
            old(self).wf(),
        ensures
            final(self).wf(),
            final(self).peer() == old(self).peer(),
            final(self).lamport() == old(self).lamport(),
            final(self).history() == old(self).history(),
            final(self).sv() == old(self).sv(),
            final(self).tree() == old(self).tree(),
            final(self).move_log_view() == old(self).move_log_view(),
            final(self).prop_log_view() == old(self).prop_log_view(),
            final(self).in_sync() == old(self).in_sync(),
            final(self).reliable() == old(self).reliable(),
            old(self).reliable() ==> !(r is Err),
            match r {
                Result::Ok(Option::Some(v)) => final(self).tree().contains_key(id@) && v@
                    == final(self).tree()[id@] && v.id@ == id@ && v.wf(),
                Result::Ok(Option::None) => !final(self).tree().contains_key(id@),
                Result::Err(e) => e is Storage,
            },
    {
        self.fetch(id)
    }
}

// ---------------------------------------------------------------------------
// Sibling index computation
// ---------------------------------------------------------------------------

/// An index lies at or below an optional bound.
pub open spec fn within(after: Option<i64>, x: int) -> bool {
    match after {
        Option::Some(a) => x <= a,
        Option::None => false,
    }
}

/// Termination measure for paging by last returned index.
pub open spec fn page_measure(after: Option<i64>) -> int {
    match after {
        Option::None => 0x20000000000000000,
        Option::Some(a) => i64::MAX - a,
    }
}

/// The largest sibling index among the children of a parent, 0 when no
/// child has a positive index, found by paging through the store.
fn max_sibling_idx<V: VertexStore>(store: &V, parent: &str) -> (r: Result<i64, Error>)
    requires
        store.inv(),
    ensures
        store.reliable() ==> !(r is Err),
        match r {
            Result::Ok(b) => is_max_child_idx(store.vertices(), parent@, b as int),
            Result::Err(e) => e is Storage,
        },
{
    let ghost m = store.vertices();
    let mut best: i64 = 0;
    let mut after: Option<i64> = Option::None;
    loop
        invariant_except_break
            store.inv(),
            m == store.vertices(),
            best >= 0,
            best == 0 || exists|id: Seq<char>| #[trigger] child_of(m, id, parent@) && m[id].idx
                == best,
            forall|id: Seq<char>| #[trigger] child_of(m, id, parent@) && within(
                after,
                m[id].idx,
            ) ==> m[id].idx <= best,
        ensures
            is_max_child_idx(m, parent@, best as int),
        decreases page_measure(after),
    {
        let page = match store.get_children_page(parent, after, 1024) {
            Result::Ok(p) => p,
            Result::Err(e) => {
                return Result::Err(e);
            },
        };
        if page.len() == 0 {
            proof {
                assert forall|id: Seq<char>| #[trigger] child_of(m, id, parent@) implies m[id].idx
                    <= best by {
                    if !within(after, m[id].idx) {
                        assert(beyond(after, m[id].idx));
                    }
                }
            }
            break;
        }
        let last_idx = page[page.len() - 1].1;
        let ghost prev_after = after;
        let ghost prev_best = best;
        if last_idx > best {
            best = last_idx;
            proof {
                assert(child_of(m, page@[page@.len() - 1].0@, parent@));
                assert(m[page@[page@.len() - 1].0@].idx == best);
            }
        }
        if page.len() < 1024 {
            proof {
                assert forall|id: Seq<char>| #[trigger] child_of(m, id, parent@) implies m[id].idx
                    <= best by {
                    if within(prev_after, m[id].idx) {
                        assert(m[id].idx <= prev_best);
                    } else {
                        assert(beyond(prev_after, m[id].idx));
                        let k = choose|k: int| 0 <= k < page@.len() && (#[trigger] page@[k]).0@
                            == id;
                        assert(page@[k].1 <= page@[page@.len() - 1].1);
                    }
                }
            }
            break;
        }
        proof {
            assert(beyond(prev_after, page@[page@.len() - 1].1 as int));
            assert forall|id: Seq<char>| #[trigger] child_of(m, id, parent@) && within(
                Option::Some(last_idx),
                m[id].idx,
            ) implies m[id].idx <= best by {
                if within(prev_after, m[id].idx) {
                    assert(m[id].idx <= prev_best);
                } else {
                    assert(beyond(prev_after, m[id].idx));
                    if exists|k: int| 0 <= k < page@.len() && (#[trigger] page@[k]).0@ == id {
                        let k = choose|k: int| 0 <= k < page@.len() && (#[trigger] page@[k]).0@
                            == id;
                        assert(page@[k].1 <= page@[page@.len() - 1].1);
                    } else {
                        assert(m[id].idx >= page@[page@.len() - 1].1);
                        assert(m[id].idx == last_idx);
                    }
                }
            }
        }
        after = Option::Some(last_idx);
    }
    Result::Ok(best)
}

impl<V: VertexStore, M: LogStore<MoveVertex>, P: LogStore<SetVertexProperty>> RepTree<V, M, P> {
    /// The observable replica state, apart from clock and cache, is the
    /// same in both.
    pub open spec fn same_state(a: Self, b: Self) -> bool {
        &&& b.history() == a.history()
        &&& b.sv() == a.sv()
        &&& b.tree() == a.tree()
        &&& b.move_log_view() == a.move_log_view()
        &&& b.prop_log_view() == a.prop_log_view()
        &&& b.in_sync() == a.in_sync()
    }

    /// Apply a property operation: look the target up, update the record,
    /// persist, log, and acknowledge in the state vector.
    fn apply_prop_op(&mut self, sp: SetVertexProperty) -> (r: Result<OpId, Error>)
        requires
            old(self).wf(),
        ensures
            final(self).wf(),
            final(self).peer() == old(self).peer(),
            final(self).lamport() == old(self).lamport(),
            final(self).reliable() == old(self).reliable(),
            old(self).applied(sp.id.peer_id@, sp.id.counter) ==> r is Ok,
            !old(self).applied(sp.id.peer_id@, sp.id.counter) && !old(self).tree().contains_key(
                sp.target_id@,
            ) ==> r is Err,
            old(self).reliable() && old(self).prop_log_view().len() < u64::MAX ==> !(r matches
            Result::Err(e) && e is Storage),
            match r {
                Result::Ok(id) => id == sp.id && (if old(self).applied(
                    sp.id.peer_id@,
                    sp.id.counter,
                ) {
                    Self::same_state(*old(self), *final(self))
                } else if sp.transient && old(self).tree().contains_key(sp.target_id@) {
                    Self::same_state(*old(self), *final(self))
                } else {
                    &&& old(self).tree().contains_key(sp.target_id@)
                    &&& final(self).history() == old(self).history().push(
                        VertexOperation::SetProperty(sp),
                    )
                    &&& final(self).tree() == prop_apply(old(self).tree(), sp)
                    &&& final(self).move_log_view() == old(self).move_log_view()
                    &&& final(self).prop_log_view() == old(self).prop_log_view().push(sp)
                    &&& final(self).in_sync() == old(self).in_sync()
                    &&& forall|p: Seq<char>, c: u64| final(self).applied(p, c) == (old(
                        self,
                    ).applied(p, c) || (p == sp.id.peer_id@ && c == sp.id.counter))
                }),
                Result::Err(e) => {
                    &&& final(self).history() == old(self).history()
                    &&& final(self).sv() == old(self).sv()
                    &&& final(self).move_log_view() == old(self).move_log_view()
                    &&& final(self).prop_log_view() == old(self).prop_log_view()
                    &&& match e {
                        Error::VertexNotFound(v) => !old(self).applied(sp.id.peer_id@, sp.id.counter)
                            && !old(self).tree().contains_key(sp.target_id@) && v@
                            == sp.target_id@ && final(self).tree() == old(self).tree()
                            && final(self).in_sync() == old(self).in_sync(),
                        Error::Storage(z) => true,
                        _ => false,
                    }
                },
            },
    {
        // An identifier already acknowledged: the whole application is a
        // no-op, so that replay is idempotent.
        if self.state_vector.contains_point(self_str(&sp.id.peer_id), sp.id.counter) {
            return Result::Ok(sp.id.clone());
        }
        let existing = match self.fetch(self_str(&sp.target_id)) {
            Result::Ok(x) => x,
            Result::Err(e) => {
                return Result::Err(e);
            },
        };
        let mut vertex = match existing {
            Option::Some(v) => v,
            Option::None => {
                return Result::Err(Error::VertexNotFound(sp.target_id.clone()));
            },
        };
        if sp.transient {
            // Transient operations are ephemeral signals: acknowledged,
            // never persisted, logged or recorded.
            return Result::Ok(sp.id.clone());
        }
        let ghost gsp = sp;
        let ghost pre = *self;
        let rid = sp.id.clone();
        vertex.set_property_value(self_str(&sp.key), sp.value.clone());
        let for_cache = vertex.clone();
        let ghost gvert = vertex;
        let ghost gcache = for_cache;
        match self.storage.vertices.put_vertex(vertex) {
            Result::Err(e) => {
                return Result::Err(e);
            },
            Result::Ok(u) => {},
        }
        proof {
            assert(self.tree() =~= prop_apply(pre.tree(), gsp));
            lemma_tree_wf_step(pre.tree(), VertexOperation::SetProperty(gsp));
        }
        let ghost pre_cache = cache_entries(self.vertex_cache);
        cache_put(&mut self.vertex_cache, sp.target_id.clone(), for_cache);
        proof {
            let now = cache_entries(self.vertex_cache);
            assert forall|k: Seq<char>| now.contains_key(k) implies self.tree().contains_key(k)
                && (#[trigger] now[k])@ == self.tree()[k] && now[k].id@ == k && now[k].wf() by {
                if k == gsp.target_id@ {
                    assert(now[k] == gcache);
                    assert(gcache@ == gvert@);
                } else {
                    assert(pre_cache.insert(gsp.target_id@, gcache).contains_key(k));
                    assert(now[k] == pre_cache[k]);
                }
            }
        }
        match self.storage.prop_log.append(sp) {
            Result::Err(e) => {
                self.synced = Ghost(false);
                return Result::Err(e);
            },
            Result::Ok(seqno) => {},
        }
        self.state_vector.add(self_str(&rid.peer_id), rid.counter);
        proof {
            lemma_logs_push(self.hist@, VertexOperation::SetProperty(gsp));
            lemma_hist_has_id_push(self.hist@, VertexOperation::SetProperty(gsp));
            if pre.in_sync() {
                lemma_hist_ok_push(self.hist@, VertexOperation::SetProperty(gsp));
            }
        }
        self.hist = Ghost(self.hist@.push(VertexOperation::SetProperty(gsp)));
        proof {
            assert forall|i: int| 0 <= i < self.hist@.len() implies !((#[trigger] self.hist@[i]) is
                ModifyProperty) by {
                if i < self.hist@.len() - 1 {
                    assert(self.hist@[i] == pre.history()[i]);
                }
            }
            assert(hist_ids_distinct(self.hist@)) by {
                assert forall|i: int, j: int| 0 <= i < j < self.hist@.len() implies !crate::types::opid_same(
                    op_id_of(#[trigger] self.hist@[i]),
                    op_id_of(#[trigger] self.hist@[j]),
                ) by {
                    if j < self.hist@.len() - 1 {
                        assert(self.hist@[i] == pre.history()[i]);
                        assert(self.hist@[j] == pre.history()[j]);
                    } else {
                        assert(self.hist@[i] == pre.history()[i]);
                        assert(hist_has_id(
                            pre.history(),
                            op_id_of(pre.history()[i]).peer_id@,
                            op_id_of(pre.history()[i]).counter,
                        ));
                    }
                }
            }
        }
        Result::Ok(rid)
    }

    /// Apply a move operation: reject a dangling parent, create or
    /// re-parent the target, persist, log, and acknowledge.
    fn apply_move_op(&mut self, mv: MoveVertex) -> (r: Result<OpId, Error>)
        requires
            old(self).wf(),
        ensures
            final(self).wf(),
            final(self).peer() == old(self).peer(),
            final(self).lamport() == old(self).lamport(),
            final(self).reliable() == old(self).reliable(),
            old(self).applied(mv.id.peer_id@, mv.id.counter) ==> r is Ok,
            !old(self).applied(mv.id.peer_id@, mv.id.counter) && !move_ok(old(self).tree(), mv)
                ==> r is Err,
            old(self).reliable() && old(self).move_log_view().len() < u64::MAX ==> !(r matches
            Result::Err(e) && e is Storage),
            match r {
                Result::Ok(id) => id == mv.id && (if old(self).applied(
                    mv.id.peer_id@,
                    mv.id.counter,
                ) {
                    Self::same_state(*old(self), *final(self))
                } else {
                    &&& move_ok(old(self).tree(), mv)
                    &&& final(self).history() == old(self).history().push(
                        VertexOperation::Move(mv),
                    )
                    &&& final(self).tree() == move_apply(old(self).tree(), mv)
                    &&& final(self).move_log_view() == old(self).move_log_view().push(mv)
                    &&& final(self).prop_log_view() == old(self).prop_log_view()
                    &&& final(self).in_sync() == old(self).in_sync()
                    &&& forall|p: Seq<char>, c: u64| final(self).applied(p, c) == (old(
                        self,
                    ).applied(p, c) || (p == mv.id.peer_id@ && c == mv.id.counter))
                }),
                Result::Err(e) => {
                    &&& final(self).history() == old(self).history()
                    &&& final(self).sv() == old(self).sv()
                    &&& final(self).move_log_view() == old(self).move_log_view()
                    &&& final(self).prop_log_view() == old(self).prop_log_view()
                    &&& match e {
                        Error::VertexNotFound(v) => !old(self).applied(mv.id.peer_id@, mv.id.counter)
                            && !move_ok(old(self).tree(), mv) && (mv.parent_id matches Option::Some(p)
                            && v@ == p@) && final(self).tree() == old(self).tree()
                            && final(self).in_sync() == old(self).in_sync(),
                        Error::InvalidOperation(z) => !old(self).applied(mv.id.peer_id@, mv.id.counter)
                            && move_ok(old(self).tree(), mv) && (mv.parent_id is Some
                            && max_child_idx(old(self).tree(), mv.parent_id->0@) == i64::MAX)
                            && final(self).tree() == old(self).tree() && final(self).in_sync()
                            == old(self).in_sync(),
                        Error::Storage(z) => true,
                        _ => false,
                    }
                },
            },
    {
        if self.state_vector.contains_point(self_str(&mv.id.peer_id), mv.id.counter) {
            return Result::Ok(mv.id.clone());
        }
        // A move whose named parent is unknown is rejected outright.
        match &mv.parent_id {
            Option::Some(p) => {
                match self.fetch(self_str(p)) {
                    Result::Err(e) => {
                        return Result::Err(e);
                    },
                    Result::Ok(Option::None) => {
                        return Result::Err(Error::VertexNotFound(p.clone()));
                    },
                    Result::Ok(Option::Some(q)) => {},
                }
            },
            Option::None => {},
        }
        let existing = match self.fetch(self_str(&mv.target_id)) {
            Result::Ok(x) => x,
            Result::Err(e) => {
                return Result::Err(e);
            },
        };
        let idx: i64 = match &mv.parent_id {
            Option::Some(p) => {
                proof {
                    assert(old(self).reliable() ==> self.storage.vertices.reliable());
                }
                let b = match max_sibling_idx(&self.storage.vertices, self_str(p)) {
                    Result::Ok(b) => b,
                    Result::Err(e) => {
                        return Result::Err(e);
                    },
                };
                proof {
                    lemma_max_agrees(self.tree(), p@, b as int);
                }
                if b == i64::MAX {
                    return Result::Err(
                        Error::InvalidOperation(
                            String::from_str("sibling index space exhausted"),
                        ),
                    );
                }
                b + 1
            },
            Option::None => 0,
        };
        let ghost gmv = mv;
        let ghost pre = *self;
        let rid = mv.id.clone();
        let new_vertex = match existing {
            Option::Some(v) => EncodedVertex {
                id: mv.target_id.clone(),
                parent_id: crate::types::clone_opt_id(&mv.parent_id),
                idx,
                properties: v.properties,
            },
            Option::None => EncodedVertex {
                id: mv.target_id.clone(),
                parent_id: crate::types::clone_opt_id(&mv.parent_id),
                idx,
                properties: Vec::new(),
            },
        };
        proof {
            if !pre.tree().contains_key(gmv.target_id@) {
                assert(crate::types::props_as_map(new_vertex.properties@) =~= Map::empty());
            }
            assert(new_vertex@ == move_apply(pre.tree(), gmv)[gmv.target_id@]);
        }
        let for_cache = new_vertex.clone();
        let ghost gvert = new_vertex;
        let ghost gcache = for_cache;
        match self.storage.vertices.put_vertex(new_vertex) {
            Result::Err(e) => {
                return Result::Err(e);
            },
            Result::Ok(u) => {},
        }
        proof {
            assert(self.tree() =~= move_apply(pre.tree(), gmv));
            lemma_tree_wf_move(pre.tree(), gmv);
        }
        let ghost pre_cache = cache_entries(self.vertex_cache);
        cache_put(&mut self.vertex_cache, mv.target_id.clone(), for_cache);
        proof {
            let now = cache_entries(self.vertex_cache);
            assert forall|k: Seq<char>| now.contains_key(k) implies self.tree().contains_key(k)
                && (#[trigger] now[k])@ == self.tree()[k] && now[k].id@ == k && now[k].wf() by {
                if k == gmv.target_id@ {
                    assert(now[k] == gcache);
                    assert(gcache@ == gvert@);
                } else {
                    assert(pre_cache.insert(gmv.target_id@, gcache).contains_key(k));
                    assert(now[k] == pre_cache[k]);
                }
            }
        }
        match self.storage.move_log.append(mv) {
            Result::Err(e) => {
                self.synced = Ghost(false);
                return Result::Err(e);
            },
            Result::Ok(seqno) => {},
        }
        self.state_vector.add(self_str(&rid.peer_id), rid.counter);
        proof {
            lemma_logs_push(self.hist@, VertexOperation::Move(gmv));
            lemma_hist_has_id_push(self.hist@, VertexOperation::Move(gmv));
            if pre.in_sync() {
                lemma_hist_ok_push(self.hist@, VertexOperation::Move(gmv));
            }
        }
        self.hist = Ghost(self.hist@.push(VertexOperation::Move(gmv)));
        proof {
            assert forall|i: int| 0 <= i < self.hist@.len() implies !((#[trigger] self.hist@[i]) is
                ModifyProperty) by {
                if i < self.hist@.len() - 1 {
                    assert(self.hist@[i] == pre.history()[i]);
                }
            }
            assert(hist_ids_distinct(self.hist@)) by {
                assert forall|i: int, j: int| 0 <= i < j < self.hist@.len() implies !crate::types::opid_same(
                    op_id_of(#[trigger] self.hist@[i]),
                    op_id_of(#[trigger] self.hist@[j]),
                ) by {
                    if j < self.hist@.len() - 1 {
                        assert(self.hist@[i] == pre.history()[i]);
                        assert(self.hist@[j] == pre.history()[j]);
                    } else {
                        assert(self.hist@[i] == pre.history()[i]);
                        assert(hist_has_id(
                            pre.history(),
                            op_id_of(pre.history()[i]).peer_id@,
                            op_id_of(pre.history()[i]).counter,
                        ));
                    }
                }
            }
        }
        Result::Ok(rid)
    }

    /// Apply one inbound operation. A move first advances the Lamport
    /// clock; a `ModifyProperty` is projected onto a `SetProperty`
    /// carrying the raw update bytes. Re-applying an operation whose
    /// identifier is already acknowledged changes nothing but the clock.
    pub fn apply_op(&mut self, op: VertexOperation) -> (r: Result<OpId, Error>)
        requires
            old(self).wf(),
            op is Move ==> op->Move_0.timestamp < u64::MAX && old(self).lamport() < u64::MAX,
        ensures
            final(self).wf(),
            final(self).peer() == old(self).peer(),
            final(self).lamport() as int == (if op is Move {
                clock_next(old(self).lamport(), op->Move_0.timestamp)
            } else {
                old(self).lamport() as int
            }),
            final(self).reliable() == old(self).reliable(),
            old(self).applied(op_id_of(op).peer_id@, op_id_of(op).counter) ==> r is Ok,
            !old(self).applied(op_id_of(op).peer_id@, op_id_of(op).counter) && !op_admissible(
                old(self).tree(),
                project_op(op),
            ) ==> r is Err,
            old(self).reliable() && old(self).move_log_view().len() < u64::MAX && old(
                self,
            ).prop_log_view().len() < u64::MAX ==> !(r matches Result::Err(e) && e is Storage),
            match r {
                Result::Ok(id) => id == op_id_of(op) && (({
                    let q = project_op(op);
                    if old(self).applied(id.peer_id@, id.counter) {
                        Self::same_state(*old(self), *final(self))
                    } else if q matches VertexOperation::SetProperty(x) && x.transient && old(
                        self,
                    ).tree().contains_key(x.target_id@) {
                        Self::same_state(*old(self), *final(self))
                    } else {
                        &&& op_ok(old(self).tree(), q)
                        &&& final(self).history() == old(self).history().push(q)
                        &&& final(self).tree() == op_apply(old(self).tree(), q)
                        &&& final(self).in_sync() == old(self).in_sync()
                        &&& forall|p: Seq<char>, c: u64| final(self).applied(p, c) == (old(
                            self,
                        ).applied(p, c) || (p == id.peer_id@ && c == id.counter))
                    }
                })),
                Result::Err(e) => {
                    &&& final(self).history() == old(self).history()
                    &&& final(self).sv() == old(self).sv()
                    &&& final(self).move_log_view() == old(self).move_log_view()
                    &&& final(self).prop_log_view() == old(self).prop_log_view()
                    &&& match e {
                        Error::VertexNotFound(v) => !old(self).applied(
                            op_id_of(op).peer_id@,
                            op_id_of(op).counter,
                        ) && !op_admissible(old(self).tree(), project_op(op)) && final(self).tree()
                            == old(self).tree() && final(self).in_sync() == old(self).in_sync()
                            && (match project_op(op) {
                            VertexOperation::Move(x) => x.parent_id matches Option::Some(pp) && v@
                                == pp@,
                            VertexOperation::SetProperty(x) => v@ == x.target_id@,
                            VertexOperation::ModifyProperty(x) => false,
                        }),
                        Error::InvalidOperation(z) => !old(self).applied(
                            op_id_of(op).peer_id@,
                            op_id_of(op).counter,
                        ) && (project_op(op) matches VertexOperation::Move(x) && x.parent_id is Some
                            && move_ok(old(self).tree(), x) && max_child_idx(
                            old(self).tree(),
                            x.parent_id->0@,
                        ) == i64::MAX) && final(self).tree() == old(self).tree()
                            && final(self).in_sync() == old(self).in_sync(),
                        Error::Storage(z) => true,
                        _ => false,
                    }
                },
            },
    {
        let ghost gop = op;
        match op {
            VertexOperation::Move(mv) => {
                self.update_lamport_clock(mv.timestamp);
                let r = self.apply_move_op(mv);
                proof {
                    assert(project_op(gop) == VertexOperation::Move(mv));
                }
                r
            },
            VertexOperation::SetProperty(sp) => {
                let r = self.apply_prop_op(sp);
                proof {
                    assert(project_op(gop) == VertexOperation::SetProperty(sp));
                }
                r
            },
            VertexOperation::ModifyProperty(mp) => {
                let sp = SetVertexProperty {
                    id: mp.id,
                    target_id: mp.target_id,
                    key: mp.key,
                    value: VertexPropertyType::YDoc(mp.update),
                    transient: false,
                };
                let r = self.apply_prop_op(sp);
                proof {
                    assert(project_op(gop) == VertexOperation::SetProperty(sp));
                }
                r
            },
        }
    }
}

impl<V: VertexStore, M: LogStore<MoveVertex>, P: LogStore<SetVertexProperty>> RepTree<V, M, P> {
    /// Apply a batch of operations in order, stopping at the first error.
    /// On success the replica has stepped through every operation in
    /// order; on an error some prefix is fully applied, the failing
    /// operation had no effect on history, logs or state vector, and no
    /// identifiers are returned.
    #[verifier::loop_isolation(false)]
    pub fn apply_ops(&mut self, ops: Vec<VertexOperation>) -> (r: Result<Vec<OpId>, Error>)
        requires
            old(self).wf(),
            old(self).lamport() as int + ops@.len() < u64::MAX,
            forall|i: int| 0 <= i < ops@.len() && (#[trigger] ops@[i]) is Move ==> ops@[i]->Move_0
                .timestamp as int + ops@.len() < u64::MAX,
        ensures
            final(self).wf(),
            final(self).peer() == old(self).peer(),
            final(self).reliable() == old(self).reliable(),
            old(self).reliable() && old(self).move_log_view().len() + ops@.len() < u64::MAX && old(
                self,
            ).prop_log_view().len() + ops@.len() < u64::MAX ==> !(r matches Result::Err(e)
                && e is Storage),
            match r {
                Result::Ok(ids) => ids@.len() == ops@.len() && (forall|i: int|
                    0 <= i < ids@.len() ==> (#[trigger] ids@[i]) == op_id_of(ops@[i])) && ({
                    let s = engine_steps(old(self).tree(), old(self).history(), ops@);
                    &&& final(self).tree() == s.0
                    &&& final(self).history() == s.1
                    &&& final(self).in_sync() == old(self).in_sync()
                }),
                Result::Err(e) => exists|k: int|
                    #![trigger ops@.take(k)]
                    0 <= k < ops@.len() && ({
                        let s = engine_steps(old(self).tree(), old(self).history(), ops@.take(k));
                        &&& final(self).history() == s.1
                        &&& final(self).move_log_view() == moves_of(s.1)
                        &&& final(self).prop_log_view() == props_of(s.1)
                        &&& forall|p: Seq<char>, c: u64| final(self).applied(p, c) == hist_has_id(
                            s.1,
                            p,
                            c,
                        )
                        &&& match e {
                            Error::VertexNotFound(v) => !hist_has_id(
                                s.1,
                                op_id_of(ops@[k]).peer_id@,
                                op_id_of(ops@[k]).counter,
                            ) && !op_admissible(s.0, project_op(ops@[k])) && final(self).tree()
                                == s.0 && final(self).in_sync() == old(self).in_sync() && (
                            match project_op(ops@[k]) {
                                VertexOperation::Move(x) => x.parent_id matches Option::Some(pp)
                                    && v@ == pp@,
                                VertexOperation::SetProperty(x) => v@ == x.target_id@,
                                VertexOperation::ModifyProperty(x) => false,
                            }),
                            Error::InvalidOperation(z) => final(self).tree() == s.0
                                && final(self).in_sync() == old(self).in_sync(),
                            Error::Storage(z) => true,
                            _ => false,
                        }
                    }),
            },
    {
        let ghost orig = ops@;
        let n = ops.len();
        let mut rest = ops;
        let mut ids: Vec<OpId> = Vec::new();
        let mut i: usize = 0;
        while i < n
            invariant
                i <= n,
                self.wf(),
                self.peer() == old(self).peer(),
                self.reliable() == old(self).reliable(),
                self.in_sync() == old(self).in_sync(),
                n == orig.len(),
                rest@ == orig.skip(i as int),
                ids@.len() == i,
                forall|j: int| 0 <= j < i ==> (#[trigger] ids@[j]) == op_id_of(orig[j]),
                self.lamport() as int + (n - i) < u64::MAX,
                forall|j: int| 0 <= j < orig.len() && (#[trigger] orig[j]) is Move ==> orig[j]->Move_0
                    .timestamp as int + orig.len() < u64::MAX,
                self.tree() == engine_steps(
                    old(self).tree(),
                    old(self).history(),
                    orig.take(i as int),
                ).0,
                self.history() == engine_steps(
                    old(self).tree(),
                    old(self).history(),
                    orig.take(i as int),
                ).1,
                self.move_log_view().len() <= old(self).move_log_view().len() + i,
                self.prop_log_view().len() <= old(self).prop_log_view().len() + i,
            decreases n - i,
        {
            let op = rest.remove(0);
            proof {
                assert(op == orig.skip(i as int)[0]);
                assert(op == orig[i as int]);
                assert(rest@ =~= orig.skip(i as int + 1));
            }
            let ghost pre = *self;
            let ghost gop = op;
            let id = match self.apply_op(op) {
                Result::Ok(id) => id,
                Result::Err(e) => {
                    proof {
                        let s = engine_steps(
                            old(self).tree(),
                            old(self).history(),
                            orig.take(i as int),
                        );
                        assert(pre.tree() == s.0 && pre.history() == s.1);
                        assert(self.history() == s.1);
                        assert(self.move_log_view() == moves_of(s.1));
                        assert(self.prop_log_view() == props_of(s.1));
                        assert(forall|p: Seq<char>, c: u64| self.applied(p, c) == hist_has_id(
                            s.1,
                            p,
                            c,
                        ));
                        if old(self).reliable() && old(self).move_log_view().len() + orig.len()
                            < u64::MAX && old(self).prop_log_view().len() + orig.len() < u64::MAX {
                            assert(pre.move_log_view().len() < u64::MAX);
                            assert(pre.prop_log_view().len() < u64::MAX);
                            assert(!(e is Storage));
                        }
                    }
                    return Result::Err(e);
                },
            };
            proof {
                let s = engine_steps(old(self).tree(), old(self).history(), orig.take(i as int));
                lemma_engine_steps_snoc(old(self).tree(), old(self).history(), orig.take(i as int), gop);
                assert(orig.take(i as int).push(gop) =~= orig.take(i as int + 1));
                let q = project_op(gop);
                if pre.applied(op_id_of(gop).peer_id@, op_id_of(gop).counter) {
                    assert(hist_has_id(s.1, op_id_of(gop).peer_id@, op_id_of(gop).counter));
                } else {
                    assert(!hist_has_id(s.1, op_id_of(gop).peer_id@, op_id_of(gop).counter));
                }
                assert(self.tree() == engine_steps(
                    old(self).tree(),
                    old(self).history(),
                    orig.take(i as int + 1),
                ).0);
                assert(self.history() == engine_steps(
                    old(self).tree(),
                    old(self).history(),
                    orig.take(i as int + 1),
                ).1);
                lemma_logs_push(pre.history(), q);
                assert(self.move_log_view().len() <= pre.move_log_view().len() + 1);
                assert(self.prop_log_view().len() <= pre.prop_log_view().len() + 1);
            }
            ids.push(id);
            i = i + 1;
        }
        proof {
            assert(orig.take(n as int) =~= orig);
        }
        Result::Ok(ids)
    }

    /// Create a fresh vertex under the given parent: generate a random
    /// identifier, allocate an operation identifier from the clock, and
    /// apply the move. The operation's counter is the clock value at
    /// entry, so two successive locally-originated operations carry
    /// strictly increasing counters.
    pub fn create_vertex(&mut self, parent_id: Option<VertexId>) -> (r: Result<VertexId, Error>)
        requires
            old(self).wf(),
            old(self).lamport() < u64::MAX - 1,
        ensures
            final(self).wf(),
            final(self).peer() == old(self).peer(),
            final(self).lamport() > old(self).lamport(),
            final(self).reliable() == old(self).reliable(),
            !old(self).applied(old(self).peer(), old(self).lamport()) && (
            parent_id matches Option::Some(p) && !old(self).tree().contains_key(p@)) ==> r is Err,
            old(self).reliable() && old(self).move_log_view().len() < u64::MAX && old(
                self,
            ).prop_log_view().len() < u64::MAX ==> !(r matches Result::Err(e) && e is Storage),
            match r {
                Result::Ok(v) => v@.len() == 36 && (!old(self).applied(
                    old(self).peer(),
                    old(self).lamport(),
                ) ==> final(self).history().len() == old(self).history().len() + 1 && ({
                    let op = final(self).history().last();
                    &&& final(self).history() == old(self).history().push(op)
                    &&& op is Move
                    &&& op_ok(old(self).tree(), op)
                    &&& op->Move_0.target_id == v
                    &&& op->Move_0.parent_id == parent_id
                    &&& op->Move_0.id.peer_id@ == old(self).peer()
                    &&& op->Move_0.id.counter == old(self).lamport()
                    &&& final(self).tree() == op_apply(old(self).tree(), op)
                })),
                Result::Err(e) => e is VertexNotFound ==> (parent_id matches Option::Some(p)
                    && !old(self).tree().contains_key(p@)),
            },
    {
        let id = fresh_vertex_id();
        let op_id = self.new_op_id();
        let timestamp = self.lamport_clock;
        let move_op = MoveVertex {
            id: op_id,
            target_id: id.clone(),
            parent_id,
            timestamp,
        };
        match self.apply_op(VertexOperation::Move(move_op)) {
            Result::Ok(q) => Result::Ok(id),
            Result::Err(e) => Result::Err(e),
        }
    }

    /// Set a property on a vertex, allocating the operation identifier
    /// from the clock.
    pub fn set_property(&mut self, vertex_id: &str, key: &str, value: VertexPropertyType) -> (r:
        Result<OpId, Error>)
        requires
            old(self).wf(),
            old(self).lamport() < u64::MAX,
        ensures
            final(self).wf(),
            final(self).peer() == old(self).peer(),
            final(self).lamport() > old(self).lamport(),
            final(self).reliable() == old(self).reliable(),
            !old(self).applied(old(self).peer(), old(self).lamport()) && !old(
                self,
            ).tree().contains_key(vertex_id@) ==> r is Err,
            old(self).reliable() && old(self).move_log_view().len() < u64::MAX && old(
                self,
            ).prop_log_view().len() < u64::MAX ==> !(r matches Result::Err(e) && e is Storage),
            match r {
                Result::Ok(id) => id.peer_id@ == old(self).peer() && id.counter == old(
                    self,
                ).lamport() && (!old(self).applied(old(self).peer(), old(self).lamport())
                    ==> final(self).history().len() == old(self).history().len() + 1 && ({
                    let op = final(self).history().last();
                    &&& final(self).history() == old(self).history().push(op)
                    &&& op is SetProperty
                    &&& op_ok(old(self).tree(), op)
                    &&& op->SetProperty_0.target_id@ == vertex_id@
                    &&& op->SetProperty_0.key@ == key@
                    &&& op->SetProperty_0.value@ == value@
                    &&& !op->SetProperty_0.transient
                    &&& op->SetProperty_0.id == id
                    &&& final(self).tree() == op_apply(old(self).tree(), op)
                })),
                Result::Err(e) => e is VertexNotFound ==> !old(self).tree().contains_key(
                    vertex_id@,
                ),
            },
    {
        let op_id = self.new_op_id();
        let rid = op_id.clone();
        let prop_op = SetVertexProperty {
            id: op_id,
            target_id: vertex_id.to_owned(),
            key: key.to_owned(),
            value,
            transient: false,
        };
        match self.apply_op(VertexOperation::SetProperty(prop_op)) {
            Result::Ok(q) => Result::Ok(rid),
            Result::Err(e) => Result::Err(e),
        }
    }

    /// Move a vertex under a new parent, allocating the operation
    /// identifier from the clock.
    pub fn move_vertex(&mut self, vertex_id: &str, parent_id: Option<VertexId>) -> (r: Result<
        OpId,
        Error,
    >)
        requires
            old(self).wf(),
            old(self).lamport() < u64::MAX - 1,
        ensures
            final(self).wf(),
            final(self).peer() == old(self).peer(),
            final(self).lamport() > old(self).lamport(),
            final(self).reliable() == old(self).reliable(),
            !old(self).applied(old(self).peer(), old(self).lamport()) && (
            parent_id matches Option::Some(p) && !old(self).tree().contains_key(p@)) ==> r is Err,
            old(self).reliable() && old(self).move_log_view().len() < u64::MAX && old(
                self,
            ).prop_log_view().len() < u64::MAX ==> !(r matches Result::Err(e) && e is Storage),
            match r {
                Result::Ok(id) => id.peer_id@ == old(self).peer() && id.counter == old(
                    self,
                ).lamport() && (!old(self).applied(old(self).peer(), old(self).lamport())
                    ==> final(self).history().len() == old(self).history().len() + 1 && ({
                    let op = final(self).history().last();
                    &&& final(self).history() == old(self).history().push(op)
                    &&& op is Move
                    &&& op_ok(old(self).tree(), op)
                    &&& op->Move_0.target_id@ == vertex_id@
                    &&& op->Move_0.parent_id == parent_id
                    &&& op->Move_0.id == id
                    &&& final(self).tree() == op_apply(old(self).tree(), op)
                })),
                Result::Err(e) => e is VertexNotFound ==> (parent_id matches Option::Some(p)
                    && !old(self).tree().contains_key(p@)),
            },
    {
        let op_id = self.new_op_id();
        let rid = op_id.clone();
        let timestamp = self.lamport_clock;
        let move_op = MoveVertex {
            id: op_id,
            target_id: vertex_id.to_owned(),
            parent_id,
            timestamp,
        };
        match self.apply_op(VertexOperation::Move(move_op)) {
            Result::Ok(q) => Result::Ok(rid),
            Result::Err(e) => Result::Err(e),
        }
    }

    /// A snapshot of the state vector: per peer, the merged ranges of
    /// acknowledged counters.
    pub fn get_state_vector(&self) -> (r: Vec<(String, Vec<Range>)>)
        requires
            self.wf(),
        ensures
            forall|p: Seq<char>, c: u64| entries_cover(r@, p, c) == self.applied(p, c),
            crate::state_vector::entries_wf(r@),
    {
        self.state_vector.get_ranges()
    }

    /// Parent existence, among the structural invariants: on any
    /// well-formed replica — in particular after any run of successful
    /// applications — every vertex's parent, if named, exists in the
    /// tree, the children of a common parent carry pairwise distinct,
    /// non-negative sibling indexes, and the tree is finite.
    pub proof fn lemma_tree_invariant(&self)
        requires
            self.wf(),
        ensures
            tree_wf(self.tree()),
    {
    }
}

/// Lamport monotonicity of local origination: each origination helper
/// returns an operation counter equal to the clock at entry and leaves
/// the clock strictly larger, so of two operations originated locally one
/// after the other, the second carries the strictly larger counter.
pub proof fn lemma_lamport_monotonicity(
    first_counter: u64,
    clock_between: u64,
    second_counter: u64,
)
    requires
        first_counter < clock_between,
        clock_between <= second_counter,
    ensures
        first_counter < second_counter,
{
}

impl<V: VertexStore, M: LogStore<MoveVertex>, P: LogStore<SetVertexProperty>> RepTree<V, M, P> {
    /// All children of a parent, hydrated, in strictly ascending sibling
    /// index order.
    #[verifier::rlimit(60)]
    pub fn get_children(&mut self, parent_id: &str) -> (r: Result<Vec<EncodedVertex>, Error>)
        requires
            old(self).wf(),
        ensures
            final(self).wf(),
            Self::same_state(*old(self), *final(self)),
            final(self).peer() == old(self).peer(),
            final(self).lamport() == old(self).lamport(),
            final(self).reliable() == old(self).reliable(),
            old(self).reliable() ==> r is Ok,
            match r {
                Result::Ok(cs) => {
                    &&& forall|k: int| 0 <= k < cs@.len() ==> child_of(
                        final(self).tree(),
                        (#[trigger] cs@[k]).id@,
                        parent_id@,
                    ) && cs@[k]@ == final(self).tree()[cs@[k].id@] && cs@[k].wf()
                    &&& forall|k: int, l: int| 0 <= k < l < cs@.len() ==> (#[trigger] cs@[k]).idx
                        < (#[trigger] cs@[l]).idx
                    &&& forall|id: Seq<char>| child_of(final(self).tree(), id, parent_id@)
                        ==> exists|k: int| 0 <= k < cs@.len() && (#[trigger] cs@[k]).id@ == id
                },
                Result::Err(e) => e is Storage,
            },
    {
        let ghost m = self.tree();
        let mut out: Vec<EncodedVertex> = Vec::new();
        let mut after: Option<i64> = Option::None;
        loop
            invariant_except_break
                self.wf(),
                Self::same_state(*old(self), *self),
                self.peer() == old(self).peer(),
                self.lamport() == old(self).lamport(),
                self.reliable() == old(self).reliable(),
                m == self.tree(),
                forall|k: int| 0 <= k < out@.len() ==> child_of(
                    m,
                    (#[trigger] out@[k]).id@,
                    parent_id@,
                ) && out@[k]@ == m[out@[k].id@] && out@[k].wf(),
                forall|k: int, l: int| 0 <= k < l < out@.len() ==> (#[trigger] out@[k]).idx < (
                #[trigger] out@[l]).idx,
                match after {
                    Option::None => out@.len() == 0,
                    Option::Some(a) => (forall|k: int| 0 <= k < out@.len() ==> (#[trigger]
                    out@[k]).idx <= a) && (forall|id: Seq<char>| child_of(m, id, parent_id@)
                        && m[id].idx <= a ==> exists|k: int| 0 <= k < out@.len() && (#[trigger]
                    out@[k]).id@ == id),
                },
            ensures
                self.wf(),
                Self::same_state(*old(self), *self),
                self.peer() == old(self).peer(),
                self.lamport() == old(self).lamport(),
                self.reliable() == old(self).reliable(),
                m == self.tree(),
                forall|k: int| 0 <= k < out@.len() ==> child_of(
                    m,
                    (#[trigger] out@[k]).id@,
                    parent_id@,
                ) && out@[k]@ == m[out@[k].id@] && out@[k].wf(),
                forall|k: int, l: int| 0 <= k < l < out@.len() ==> (#[trigger] out@[k]).idx < (
                #[trigger] out@[l]).idx,
                forall|id: Seq<char>| child_of(m, id, parent_id@) ==> exists|k: int|
                    0 <= k < out@.len() && (#[trigger] out@[k]).id@ == id,
            decreases page_measure(after),
        {
            let ghost prev_after = after;
            let page = match self.storage.vertices.get_children_page(parent_id, after, 1000) {
                Result::Ok(p) => p,
                Result::Err(e) => {
                    return Result::Err(e);
                },
            };
            proof {
                // Within a page, distinct children of one parent carry
                // strictly ascending indexes.
                assert forall|k: int, l: int| 0 <= k < l < page@.len() implies (#[trigger]
                page@[k]).1 < (#[trigger] page@[l]).1 by {
                    assert(child_of(m, page@[k].0@, parent_id@));
                    assert(child_of(m, page@[l].0@, parent_id@));
                }
            }
            if page.len() == 0 {
                proof {
                    assert forall|id: Seq<char>| child_of(m, id, parent_id@) implies exists|k: int|
                        0 <= k < out@.len() && (#[trigger] out@[k]).id@ == id by {
                        if !within(prev_after, m[id].idx) {
                            assert(beyond(prev_after, m[id].idx));
                            assert(false);
                        }
                    }
                }
                break;
            }
            let npage = page.len();
            let ghost pre_out = out@;
            let mut k: usize = 0;
            while k < npage
                invariant
                    k <= npage,
                    self.wf(),
                    Self::same_state(*old(self), *self),
                    self.peer() == old(self).peer(),
                    self.lamport() == old(self).lamport(),
                    self.reliable() == old(self).reliable(),
                    m == self.tree(),
                    npage == page@.len(),
                    forall|q: int| 0 <= q < page@.len() ==> child_of(
                        m,
                        (#[trigger] page@[q]).0@,
                        parent_id@,
                    ) && m[page@[q].0@].idx == page@[q].1 && beyond(prev_after, page@[q].1 as int),
                    forall|q: int, w: int| 0 <= q < w < page@.len() ==> (#[trigger] page@[q]).1 < (
                    #[trigger] page@[w]).1,
                    out@.len() == pre_out.len() + k,
                    forall|q: int| 0 <= q < pre_out.len() ==> out@[q] == pre_out[q],
                    forall|q: int| 0 <= q < k ==> (#[trigger] out@[pre_out.len() + q]).id@
                        == page@[q].0@ && out@[pre_out.len() + q].idx == page@[q].1,
                    forall|q: int| 0 <= q < out@.len() ==> child_of(
                        m,
                        (#[trigger] out@[q]).id@,
                        parent_id@,
                    ) && out@[q]@ == m[out@[q].id@] && out@[q].wf(),
                    forall|q: int, w: int| 0 <= q < w < out@.len() ==> (#[trigger] out@[q]).idx < (
                    #[trigger] out@[w]).idx,
                    forall|q: int| 0 <= q < pre_out.len() ==> within(
                        prev_after,
                        (#[trigger] out@[q]).idx as int,
                    ),
                decreases npage - k,
            {
                let cid = page[k].0.clone();
                let child = match self.fetch(self_str(&cid)) {
                    Result::Ok(Option::Some(v)) => v,
                    Result::Ok(Option::None) => {
                        proof {
                            assert(child_of(m, page@[k as int].0@, parent_id@));
                            assert(false);
                        }
                        return Result::Err(
                            Error::Storage(
                                crate::types::StorageError::Backend(
                                    String::from_str("store lost a vertex mid-read"),
                                ),
                            ),
                        );
                    },
                    Result::Err(e) => {
                        return Result::Err(e);
                    },
                };
                proof {
                    assert(child.idx == m[page@[k as int].0@].idx);
                    assert(child.idx == page@[k as int].1);
                }
                let ghost gchild = child;
                out.push(child);
                proof {
                    assert(out@[out@.len() - 1] == gchild);
                    assert forall|q: int, w: int| 0 <= q < w < out@.len() implies (#[trigger]
                    out@[q]).idx < (#[trigger] out@[w]).idx by {
                        if w == out@.len() - 1 {
                            assert(out@[w].idx == page@[k as int].1);
                            if q < pre_out.len() {
                                assert(within(prev_after, out@[q].idx as int));
                                assert(beyond(prev_after, page@[k as int].1 as int));
                            } else {
                                let q0 = q - pre_out.len();
                                assert(out@[pre_out.len() + q0].idx == page@[q0].1);
                                assert(page@[q0].1 < page@[k as int].1);
                            }
                        }
                    }
                }
                k = k + 1;
            }
            if npage < 1000 {
                proof {
                    assert forall|id: Seq<char>| child_of(m, id, parent_id@) implies exists|w: int|
                        0 <= w < out@.len() && (#[trigger] out@[w]).id@ == id by {
                        if within(prev_after, m[id].idx) {
                            let w0 = choose|w0: int| 0 <= w0 < pre_out.len() && (#[trigger]
                            pre_out[w0]).id@ == id;
                            assert(out@[w0].id@ == id);
                        } else {
                            assert(beyond(prev_after, m[id].idx));
                            let q = choose|q: int| 0 <= q < page@.len() && (#[trigger]
                            page@[q]).0@ == id;
                            assert(out@[pre_out.len() + q].id@ == id);
                        }
                    }
                }
                break;
            }
            let last_idx = page[npage - 1].1;
            proof {
                assert(beyond(prev_after, page@[npage - 1].1 as int));
                assert forall|id: Seq<char>| child_of(m, id, parent_id@) && m[id].idx
                    <= last_idx implies exists|w: int| 0 <= w < out@.len() && (#[trigger]
                out@[w]).id@ == id by {
                    if within(prev_after, m[id].idx) {
                        let w0 = choose|w0: int| 0 <= w0 < pre_out.len() && (#[trigger]
                        pre_out[w0]).id@ == id;
                        assert(out@[w0].id@ == id);
                    } else {
                        assert(beyond(prev_after, m[id].idx));
                        if exists|q: int| 0 <= q < page@.len() && (#[trigger] page@[q]).0@ == id {
                            let q = choose|q: int| 0 <= q < page@.len() && (#[trigger]
                            page@[q]).0@ == id;
                            assert(out@[pre_out.len() + q].id@ == id);
                        } else {
                            assert(m[id].idx >= page@[npage - 1].1);
                            assert(m[id].idx == last_idx);
                            assert(child_of(m, page@[npage - 1].0@, parent_id@));
                            assert(m[page@[npage - 1].0@].idx == last_idx);
                            assert(id != page@[npage - 1].0@);
                            assert(false);
                        }
                    }
                }
                assert forall|q: int| 0 <= q < out@.len() implies (#[trigger] out@[q]).idx
                    <= last_idx by {
                    if q < pre_out.len() {
                        assert(within(prev_after, out@[q].idx as int));
                    } else {
                        let q0 = q - pre_out.len();
                        assert(out@[pre_out.len() + q0].idx == page@[q0].1);
                        assert(page@[q0].1 <= page@[npage - 1].1);
                    }
                }
            }
            after = Option::Some(last_idx);
        }
        Result::Ok(out)
    }
}

/// Borrow the identifier of an operation.
fn op_id_ref(op: &VertexOperation) -> (r: &OpId)
    ensures
        *r == op_id_of(*op),
{
    match op {
        VertexOperation::Move(x) => &x.id,
        VertexOperation::SetProperty(x) => &x.id,
        VertexOperation::ModifyProperty(x) => &x.id,
    }
}

/// No operation of the history is an unprojected `ModifyProperty`.
pub open spec fn hist_no_modify(h: Seq<VertexOperation>) -> bool {
    forall|i: int| 0 <= i < h.len() ==> !((#[trigger] h[i]) is ModifyProperty)
}

/// Sort operations ascending by identifier: each element is at most the
/// next under the operation-identifier order, and the output is a
/// permutation of the input.
#[verifier::rlimit(100)]
#[verifier::spinoff_prover]
fn sort_ops(input: Vec<VertexOperation>) -> (r: Vec<VertexOperation>)
    ensures
        forall|k: int| 0 <= k && k + 1 < r@.len() ==> crate::types::opid_lt(
            op_id_of(#[trigger] r@[k]),
            op_id_of(r@[k + 1]),
        ) || crate::types::opid_same(op_id_of(r@[k]), op_id_of(r@[k + 1])),
        r@.to_multiset() == input@.to_multiset(),
{
    let ghost all = input@;
    let mut rest = input;
    let mut sorted: Vec<VertexOperation> = Vec::new();
    proof {
        broadcast use vstd::seq_lib::group_to_multiset_ensures;
        broadcast use vstd::multiset::group_multiset_axioms;
        assert(sorted@.to_multiset().len() == 0);
        assert(sorted@.to_multiset().add(rest@.to_multiset()) =~= all.to_multiset());
    }
    while rest.len() > 0
        invariant
            rest@.len() <= all.len(),
            rest@ == all.take(rest@.len() as int),
            sorted@.to_multiset().add(rest@.to_multiset()) == all.to_multiset(),
            forall|k: int|
                #![trigger sorted@[k]]
                0 <= k < sorted@.len() ==> exists|k0: int| 0 <= k0 < all.len() && sorted@[k]
                    == #[trigger] all[k0],
            forall|k: int| 0 <= k && k + 1 < sorted@.len() ==> crate::types::opid_lt(
                op_id_of(#[trigger] sorted@[k]),
                op_id_of(sorted@[k + 1]),
            ) || crate::types::opid_same(op_id_of(sorted@[k]), op_id_of(sorted@[k + 1])),
        decreases rest@.len(),
    {
        proof {
            assert(all.take(rest@.len() as int).last() == all[rest@.len() - 1]);
            assert(all.take(rest@.len() as int).drop_last() =~= all.take(rest@.len() - 1));
        }
        let ghost prev_rest = rest@;
        let op = match rest.pop() {
            Option::Some(x) => x,
            Option::None => {
                proof {
                    assert(false);
                }
                continue;
            },
        };
        let ghost q0 = rest@.len() as int;
        proof {
            assert(op == all[q0]);
            broadcast use vstd::seq_lib::group_to_multiset_ensures;
            assert(prev_rest =~= rest@.push(op));
            assert(prev_rest.to_multiset() =~= rest@.to_multiset().insert(op));
        }
        let mut p: usize = 0;
        while p < sorted.len() && matches!(
            OpId::compare(op_id_ref(&sorted[p]), op_id_ref(&op)),
            core::cmp::Ordering::Less
        )
            invariant
                p <= sorted@.len(),
                forall|j: int| 0 <= j < p ==> crate::types::opid_lt(
                    op_id_of(#[trigger] sorted@[j]),
                    op_id_of(op),
                ),
                forall|k: int| 0 <= k && k + 1 < sorted@.len() ==> crate::types::opid_lt(
                    op_id_of(#[trigger] sorted@[k]),
                    op_id_of(sorted@[k + 1]),
                ) || crate::types::opid_same(op_id_of(sorted@[k]), op_id_of(sorted@[k + 1])),
            decreases sorted@.len() - p,
        {
            p = p + 1;
        }
        proof {
            if p < sorted@.len() {
                crate::types::lemma_opid_lt_total(op_id_of(sorted@[p as int]), op_id_of(op));
            }
        }
        let ghost pre_sorted = sorted@;
        let ghost gop = op;
        sorted.insert(p, op);
        proof {
            assert(sorted@ == pre_sorted.insert(p as int, gop));
            assert(forall|j: int| 0 <= j < p ==> sorted@[j] == pre_sorted[j]);
            assert(sorted@[p as int] == gop);
            assert(forall|j: int| p < j < sorted@.len() ==> sorted@[j] == pre_sorted[j - 1]);
            assert forall|k: int| 0 <= k && k + 1 < sorted@.len() implies crate::types::opid_lt(
                op_id_of(#[trigger] sorted@[k]),
                op_id_of(sorted@[k + 1]),
            ) || crate::types::opid_same(op_id_of(sorted@[k]), op_id_of(sorted@[k + 1])) by {
                crate::types::lemma_opid_lt_total(op_id_of(sorted@[k]), op_id_of(sorted@[k + 1]));
                if k + 1 < p {
                    assert(sorted@[k] == pre_sorted[k] && sorted@[k + 1] == pre_sorted[k + 1]);
                } else if k + 1 == p {
                    assert(sorted@[k] == pre_sorted[k]);
                } else if k == p {
                    if k + 1 < sorted@.len() {
                        assert(sorted@[k + 1] == pre_sorted[k]);
                    }
                } else {
                    assert(sorted@[k] == pre_sorted[k - 1] && sorted@[k + 1] == pre_sorted[k]);
                }
            }
            assert forall|k: int|
                #![trigger sorted@[k]]
                0 <= k < sorted@.len() implies exists|k0: int| 0 <= k0 < all.len() && sorted@[k]
                == #[trigger] all[k0] by {
                if k == p {
                    assert(sorted@[k] == all[q0]);
                } else {
                    let k2: int = if k < p {
                        k
                    } else {
                        k - 1
                    };
                    assert(sorted@[k] == pre_sorted[k2]);
                    let k0 = choose|k0: int| 0 <= k0 < all.len() && pre_sorted[k2]
                        == #[trigger] all[k0];
                }
            }
            broadcast use vstd::multiset::group_multiset_axioms;
            vstd::seq_lib::to_multiset_insert(pre_sorted, p as int, gop);
            assert(sorted@.to_multiset() == pre_sorted.to_multiset().insert(gop));
            assert(sorted@.to_multiset().add(rest@.to_multiset()) =~= all.to_multiset());
        }
    }
    proof {
        broadcast use vstd::seq_lib::group_to_multiset_ensures;
        broadcast use vstd::multiset::group_multiset_axioms;
        assert(rest@.to_multiset().len() == 0);
        assert(sorted@.to_multiset() =~= all.to_multiset());
    }
    sorted
}
/// Two sequences with equal multisets hold the same elements.
proof fn lemma_multiset_same_membership(a: Seq<VertexOperation>, b: Seq<VertexOperation>)
    requires
        a.to_multiset() == b.to_multiset(),
    ensures
        forall|x: VertexOperation| a.contains(x) == b.contains(x),
{
    broadcast use vstd::seq_lib::group_to_multiset_ensures;
    assert forall|x: VertexOperation| a.contains(x) == b.contains(x) by {
        assert(a.contains(x) == (a.to_multiset().count(x) > 0));
        assert(b.contains(x) == (b.to_multiset().count(x) > 0));
    }
}

/// The operation is one the remote entries do not cover, and it stems
/// from one of the two logs: a move equal to a move-log record, or a
/// property operation observably equal to a property-log record.
#[verifier::opaque]
pub open spec fn op_missing_and_logged(
    es: Seq<(String, Vec<Range>)>,
    mlog: Seq<MoveVertex>,
    plog: Seq<SetVertexProperty>,
    op: VertexOperation,
) -> bool {
    &&& !entries_cover(es, op_id_of(op).peer_id@, op_id_of(op).counter)
    &&& match op {
        VertexOperation::Move(m) => exists|j: int| 0 <= j < mlog.len() && m == #[trigger] mlog[j],
        VertexOperation::SetProperty(sp) => exists|j: int|
            0 <= j < plog.len() && sp_like(sp, #[trigger] plog[j]),
        VertexOperation::ModifyProperty(mp) => false,
    }
}

/// Some operation of the sequence is this move.
#[verifier::opaque]
pub open spec fn ops_carry_move(ops: Seq<VertexOperation>, m: MoveVertex) -> bool {
    exists|k: int| 0 <= k < ops.len() && #[trigger] ops[k] == VertexOperation::Move(m)
}

/// Some operation of the sequence is observably this property record.
#[verifier::opaque]
pub open spec fn ops_carry_prop(ops: Seq<VertexOperation>, sp: SetVertexProperty) -> bool {
    exists|k: int| 0 <= k < ops.len() && (#[trigger] ops[k]) is SetProperty && sp_like(
        ops[k]->SetProperty_0,
        sp,
    )
}

/// Appending an operation keeps every move already carried.
proof fn lemma_ops_carry_move_push(ops: Seq<VertexOperation>, x: VertexOperation, m: MoveVertex)
    requires
        ops_carry_move(ops, m),
    ensures
        ops_carry_move(ops.push(x), m),
{
    reveal(ops_carry_move);
    let k = choose|k: int| 0 <= k < ops.len() && #[trigger] ops[k] == VertexOperation::Move(m);
    assert(ops.push(x)[k] == VertexOperation::Move(m));
}

/// Appending an operation keeps every property record already carried.
proof fn lemma_ops_carry_prop_push(
    ops: Seq<VertexOperation>,
    x: VertexOperation,
    sp: SetVertexProperty,
)
    requires
        ops_carry_prop(ops, sp),
    ensures
        ops_carry_prop(ops.push(x), sp),
{
    reveal(ops_carry_prop);
    let k = choose|k: int| 0 <= k < ops.len() && (#[trigger] ops[k]) is SetProperty && sp_like(
        ops[k]->SetProperty_0,
        sp,
    );
    assert(ops.push(x)[k] is SetProperty);
}

/// A sequence holding the same elements carries the same moves and
/// property records.
proof fn lemma_ops_carry_same_membership(a: Seq<VertexOperation>, b: Seq<VertexOperation>)
    requires
        forall|x: VertexOperation| a.contains(x) == b.contains(x),
    ensures
        forall|m: MoveVertex| ops_carry_move(a, m) ==> #[trigger] ops_carry_move(b, m),
        forall|sp: SetVertexProperty| ops_carry_prop(a, sp) ==> #[trigger] ops_carry_prop(b, sp),
{
    reveal(ops_carry_move);
    reveal(ops_carry_prop);
    assert forall|m: MoveVertex| ops_carry_move(a, m) implies #[trigger] ops_carry_move(b, m) by {
        let k = choose|k: int| 0 <= k < a.len() && #[trigger] a[k] == VertexOperation::Move(m);
        assert(a.contains(a[k]));
        assert(b.contains(a[k]));
        let k2 = choose|k2: int| 0 <= k2 < b.len() && b[k2] == a[k];
        assert(b[k2] == VertexOperation::Move(m));
    }
    assert forall|sp: SetVertexProperty| ops_carry_prop(a, sp) implies #[trigger] ops_carry_prop(
        b,
        sp,
    ) by {
        let k = choose|k: int| 0 <= k < a.len() && (#[trigger] a[k]) is SetProperty && sp_like(
            a[k]->SetProperty_0,
            sp,
        );
        assert(a.contains(a[k]));
        assert(b.contains(a[k]));
        let k2 = choose|k2: int| 0 <= k2 < b.len() && b[k2] == a[k];
        assert(b[k2] is SetProperty && sp_like(b[k2]->SetProperty_0, sp));
    }
}

impl<V: VertexStore, M: LogStore<MoveVertex>, P: LogStore<SetVertexProperty>> RepTree<V, M, P> {
    /// The operations this replica has applied that the given remote
    /// state vector does not cover — exactly the records of the two logs
    /// whose identifier the remote entries miss — sorted ascending by
    /// operation identifier; consumers apply them in the returned order.
    /// The logs are scanned whole and each record is filtered against the
    /// remote state vector.
    #[verifier::rlimit(30)]
    #[verifier::spinoff_prover]
    pub fn get_missing_ops(&self, their_state: Vec<(String, Vec<Range>)>) -> (r: Result<
        Vec<VertexOperation>,
        Error,
    >)
        requires
            self.wf(),
        ensures
            self.reliable() ==> r is Ok,
            match r {
                Result::Ok(out) => {
                    &&& forall|k: int| 0 <= k && k + 1 < out@.len() ==> crate::types::opid_lt(
                        op_id_of(#[trigger] out@[k]),
                        op_id_of(out@[k + 1]),
                    ) || crate::types::opid_same(op_id_of(out@[k]), op_id_of(out@[k + 1]))
                    &&& forall|k: int| 0 <= k < out@.len() ==> op_missing_and_logged(
                        their_state@,
                        self.move_log_view(),
                        self.prop_log_view(),
                        #[trigger] out@[k],
                    )
                    &&& forall|j: int| 0 <= j < self.move_log_view().len() && !entries_cover(
                        their_state@,
                        (#[trigger] self.move_log_view()[j]).id.peer_id@,
                        self.move_log_view()[j].id.counter,
                    ) ==> ops_carry_move(out@, self.move_log_view()[j])
                    &&& forall|j: int| 0 <= j < self.prop_log_view().len() && !entries_cover(
                        their_state@,
                        (#[trigger] self.prop_log_view()[j]).id.peer_id@,
                        self.prop_log_view()[j].id.counter,
                    ) ==> ops_carry_prop(out@, self.prop_log_view()[j])
                },
                Result::Err(e) => e is Storage,
            },
    {
        let ghost mlog = self.move_log_view();
        let ghost plog = self.prop_log_view();
        let their = StateVector::from_ranges(their_state);
        let mut combined: Vec<VertexOperation> = Vec::new();
        let opts_m = crate::types::ScanOptions {
            peer_id: Option::None,
            from_seq: Option::None,
            to_seq: Option::None,
            limit: Option::None,
            reverse: false,
        };
        let mut mv_scan = match self.storage.move_log.scan_range(opts_m) {
            Result::Ok(v) => v,
            Result::Err(e) => {
                return Result::Err(e);
            },
        };
        proof {
            lemma_scan_unfiltered(mlog, opts_m, mlog.len() as int);
            assert(mlog.take(mlog.len() as int) =~= mlog);
            assert(scan_spec(mlog, opts_m) == mlog);
            assert(mv_scan@ =~= mlog);
        }
        while mv_scan.len() > 0
            invariant
                their.entries() == their_state@,
                mv_scan@.len() <= mlog.len(),
                mv_scan@ == mlog.take(mv_scan@.len() as int),
                forall|k: int| 0 <= k < combined@.len() ==> op_missing_and_logged(
                    their_state@,
                    mlog,
                    plog,
                    #[trigger] combined@[k],
                ),
                forall|j: int| mv_scan@.len() <= j < mlog.len() && !entries_cover(
                    their_state@,
                    (#[trigger] mlog[j]).id.peer_id@,
                    mlog[j].id.counter,
                ) ==> ops_carry_move(combined@, mlog[j]),
            decreases mv_scan@.len(),
        {
            let ghost prev_scan = mv_scan@;
            let op = match mv_scan.pop() {
                Option::Some(x) => x,
                Option::None => {
                    proof {
                        assert(false);
                    }
                    continue;
                },
            };
            proof {
                assert(op == mlog[prev_scan.len() - 1]);
                assert(mv_scan@ =~= mlog.take(prev_scan.len() - 1));
            }
            let ghost gop = op;
            if !their.contains_point(self_str(&op.id.peer_id), op.id.counter) {
                let ghost prev_comb = combined@;
                combined.push(VertexOperation::Move(op));
                proof {
                    assert(combined@ == prev_comb.push(VertexOperation::Move(gop)));
                    assert(op_missing_and_logged(
                        their_state@,
                        mlog,
                        plog,
                        VertexOperation::Move(gop),
                    )) by {
                        reveal(op_missing_and_logged);
                        assert(gop == mlog[prev_scan.len() - 1]);
                    }
                    assert forall|k: int| 0 <= k < combined@.len() implies op_missing_and_logged(
                        their_state@,
                        mlog,
                        plog,
                        #[trigger] combined@[k],
                    ) by {
                        if k < prev_comb.len() {
                            assert(combined@[k] == prev_comb[k]);
                        }
                    }
                    assert forall|j: int| mv_scan@.len() <= j < mlog.len() && !entries_cover(
                        their_state@,
                        (#[trigger] mlog[j]).id.peer_id@,
                        mlog[j].id.counter,
                    ) implies ops_carry_move(combined@, mlog[j]) by {
                        if j == prev_scan.len() - 1 {
                            assert(ops_carry_move(combined@, mlog[j])) by {
                                reveal(ops_carry_move);
                                assert(combined@[combined@.len() - 1] == VertexOperation::Move(
                                    mlog[j],
                                ));
                            }
                        } else {
                            lemma_ops_carry_move_push(
                                prev_comb,
                                VertexOperation::Move(gop),
                                mlog[j],
                            );
                        }
                    }
                }
            } else {
                proof {
                    assert(entries_cover(
                        their_state@,
                        mlog[prev_scan.len() - 1].id.peer_id@,
                        mlog[prev_scan.len() - 1].id.counter,
                    ));
                    assert forall|j: int| mv_scan@.len() <= j < mlog.len() && !entries_cover(
                        their_state@,
                        (#[trigger] mlog[j]).id.peer_id@,
                        mlog[j].id.counter,
                    ) implies ops_carry_move(combined@, mlog[j]) by {
                        assert(j != prev_scan.len() - 1);
                    }
                }
            }
        }
        let opts_p = crate::types::ScanOptions {
            peer_id: Option::None,
            from_seq: Option::None,
            to_seq: Option::None,
            limit: Option::None,
            reverse: false,
        };
        let mut pr_scan = match self.storage.prop_log.scan_range(opts_p) {
            Result::Ok(v) => v,
            Result::Err(e) => {
                return Result::Err(e);
            },
        };
        proof {
            lemma_scan_unfiltered(plog, opts_p, plog.len() as int);
            assert(plog.take(plog.len() as int) =~= plog);
            assert(scan_spec(plog, opts_p) == plog);
        }
        while pr_scan.len() > 0
            invariant
                their.entries() == their_state@,
                pr_scan@.len() <= plog.len(),
                forall|i: int| 0 <= i < pr_scan@.len() ==> sp_like(
                    #[trigger] pr_scan@[i],
                    plog[i],
                ),
                forall|k: int| 0 <= k < combined@.len() ==> op_missing_and_logged(
                    their_state@,
                    mlog,
                    plog,
                    #[trigger] combined@[k],
                ),
                forall|j: int| 0 <= j < mlog.len() && !entries_cover(
                    their_state@,
                    (#[trigger] mlog[j]).id.peer_id@,
                    mlog[j].id.counter,
                ) ==> ops_carry_move(combined@, mlog[j]),
                forall|j: int| pr_scan@.len() <= j < plog.len() && !entries_cover(
                    their_state@,
                    (#[trigger] plog[j]).id.peer_id@,
                    plog[j].id.counter,
                ) ==> ops_carry_prop(combined@, plog[j]),
            decreases pr_scan@.len(),
        {
            let ghost prev_scan = pr_scan@;
            let op = match pr_scan.pop() {
                Option::Some(x) => x,
                Option::None => {
                    proof {
                        assert(false);
                    }
                    continue;
                },
            };
            proof {
                assert(sp_like(op, plog[prev_scan.len() - 1]));
                assert(forall|i: int| 0 <= i < pr_scan@.len() ==> #[trigger] pr_scan@[i]
                    == prev_scan[i]);
            }
            let ghost gop = op;
            if !their.contains_point(self_str(&op.id.peer_id), op.id.counter) {
                let ghost prev_comb = combined@;
                combined.push(VertexOperation::SetProperty(op));
                proof {
                    assert(combined@ == prev_comb.push(VertexOperation::SetProperty(gop)));
                    assert(op_missing_and_logged(
                        their_state@,
                        mlog,
                        plog,
                        VertexOperation::SetProperty(gop),
                    )) by {
                        reveal(op_missing_and_logged);
                        assert(sp_like(gop, plog[prev_scan.len() - 1]));
                    }
                    assert forall|k: int| 0 <= k < combined@.len() implies op_missing_and_logged(
                        their_state@,
                        mlog,
                        plog,
                        #[trigger] combined@[k],
                    ) by {
                        if k < prev_comb.len() {
                            assert(combined@[k] == prev_comb[k]);
                        }
                    }
                    assert forall|j: int| 0 <= j < mlog.len() && !entries_cover(
                        their_state@,
                        (#[trigger] mlog[j]).id.peer_id@,
                        mlog[j].id.counter,
                    ) implies ops_carry_move(combined@, mlog[j]) by {
                        lemma_ops_carry_move_push(
                            prev_comb,
                            VertexOperation::SetProperty(gop),
                            mlog[j],
                        );
                    }
                    assert forall|j: int| pr_scan@.len() <= j < plog.len() && !entries_cover(
                        their_state@,
                        (#[trigger] plog[j]).id.peer_id@,
                        plog[j].id.counter,
                    ) implies ops_carry_prop(combined@, plog[j]) by {
                        if j == prev_scan.len() - 1 {
                            assert(ops_carry_prop(combined@, plog[j])) by {
                                reveal(ops_carry_prop);
                                assert(combined@[combined@.len() - 1] is SetProperty);
                                assert(sp_like(
                                    combined@[combined@.len() - 1]->SetProperty_0,
                                    plog[j],
                                ));
                            }
                        } else {
                            lemma_ops_carry_prop_push(
                                prev_comb,
                                VertexOperation::SetProperty(gop),
                                plog[j],
                            );
                        }
                    }
                }
            } else {
                proof {
                    assert(entries_cover(
                        their_state@,
                        plog[prev_scan.len() - 1].id.peer_id@,
                        plog[prev_scan.len() - 1].id.counter,
                    ));
                    assert forall|j: int| pr_scan@.len() <= j < plog.len() && !entries_cover(
                        their_state@,
                        (#[trigger] plog[j]).id.peer_id@,
                        plog[j].id.counter,
                    ) implies ops_carry_prop(combined@, plog[j]) by {
                        assert(j != prev_scan.len() - 1);
                    }
                }
            }
        }
        let ghost comb = combined@;
        let sorted = sort_ops(combined);
        proof {
            lemma_multiset_same_membership(comb, sorted@);
            lemma_ops_carry_same_membership(comb, sorted@);
            assert forall|k: int| 0 <= k < sorted@.len() implies op_missing_and_logged(
                their_state@,
                mlog,
                plog,
                #[trigger] sorted@[k],
            ) by {
                assert(sorted@.contains(sorted@[k]));
                assert(comb.contains(sorted@[k]));
                let k0 = choose|k0: int| 0 <= k0 < comb.len() && comb[k0] == sorted@[k];
                assert(op_missing_and_logged(their_state@, mlog, plog, comb[k0]));
            }
        }
        Result::Ok(sorted)
    }
}


} // verus!
