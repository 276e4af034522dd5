//! The mathematical model of a replica: how `Move` and `SetProperty`
//! operations transform the mapping from vertex identifier to vertex, what
//! a history of applied operations denotes, and the invariants every
//! reachable tree satisfies.

use vstd::prelude::*;

use crate::storage::child_of;
use crate::types::MoveVertex;
use crate::types::SetVertexProperty;
use crate::types::VertexModel;
use crate::types::VertexOperation;
use crate::types::opt_id_view;
use crate::types::op_id_of;
use crate::types::opid_same;

verus! {

/// The mapping from vertex identifier to vertex model.
pub type TreeMap = Map<Seq<char>, VertexModel>;

// ---------------------------------------------------------------------------
// Sibling indexes
// ---------------------------------------------------------------------------

/// Every child of the parent has an index at most `b`.
pub open spec fn idx_bound(m: TreeMap, parent: Seq<char>, b: int) -> bool {
    forall|id: Seq<char>| #[trigger] child_of(m, id, parent) ==> m[id].idx <= b
}

/// `b` is the maximum child index under the parent, or 0 when there is no
/// child with a positive index.
pub open spec fn is_max_child_idx(m: TreeMap, parent: Seq<char>, b: int) -> bool {
    &&& b >= 0
    &&& idx_bound(m, parent, b)
    &&& b == 0 || exists|id: Seq<char>| #[trigger] child_of(m, id, parent) && m[id].idx == b
}

/// The maximum child index under the parent (0 when there is none).
pub open spec fn max_child_idx(m: TreeMap, parent: Seq<char>) -> int {
    choose|b: int| is_max_child_idx(m, parent, b)
}

/// The maximum child index is unique.
pub proof fn lemma_max_unique(m: TreeMap, parent: Seq<char>, b1: int, b2: int)
    requires
        is_max_child_idx(m, parent, b1),
        is_max_child_idx(m, parent, b2),
    ensures
        b1 == b2,
{
    if b1 != 0 {
        let id = choose|id: Seq<char>| #[trigger] child_of(m, id, parent) && m[id].idx == b1;
        assert(b1 <= b2);
    }
    if b2 != 0 {
        let id = choose|id: Seq<char>| #[trigger] child_of(m, id, parent) && m[id].idx == b2;
        assert(b2 <= b1);
    }
}

/// A witness pins the value of `max_child_idx` down.
pub proof fn lemma_max_agrees(m: TreeMap, parent: Seq<char>, b: int)
    requires
        is_max_child_idx(m, parent, b),
    ensures
        max_child_idx(m, parent) == b,
{
    assert(exists|x: int| is_max_child_idx(m, parent, x));
    lemma_max_unique(m, parent, max_child_idx(m, parent), b);
}

/// A maximum child index exists whenever the mapping is finite.
pub proof fn lemma_max_exists(m: TreeMap, parent: Seq<char>)
    requires
        m.dom().finite(),
    ensures
        exists|b: int| is_max_child_idx(m, parent, b),
        is_max_child_idx(m, parent, max_child_idx(m, parent)),
    decreases m.dom().len(),
{
    let kids = Set::new(|id: Seq<char>| child_of(m, id, parent));
    assert(kids.subset_of(m.dom()));
    vstd::set_lib::lemma_len_subset(kids, m.dom());
    if kids.len() == 0 {
        assert(kids.is_empty()) by {
            if !kids.is_empty() {
                let w = kids.choose();
                assert(kids.contains(w));
                assert(kids.remove(w).len() == kids.len() - 1);
            }
        }
        assert forall|id: Seq<char>| #[trigger] child_of(m, id, parent) implies m[id].idx
            <= 0 by {
            assert(kids.contains(id));
        }
        assert(is_max_child_idx(m, parent, 0));
    } else {
        let a = kids.choose();
        assert(kids.contains(a));
        assert(child_of(m, a, parent));
        let m2 = m.remove(a);
        assert(m2.dom() =~= m.dom().remove(a));
        assert(m2.dom().len() < m.dom().len());
        lemma_max_exists(m2, parent);
        let b2 = max_child_idx(m2, parent);
        let b: int = if m[a].idx > b2 {
            m[a].idx
        } else {
            b2
        };
        assert forall|id: Seq<char>| #[trigger] child_of(m, id, parent) implies m[id].idx
            <= b by {
            if id != a {
                assert(child_of(m2, id, parent));
            }
        }
        if b > 0 {
            if b == b2 {
                assert(b2 != 0);
                let id = choose|id: Seq<char>| #[trigger] child_of(m2, id, parent) && m2[id].idx
                    == b2;
                assert(child_of(m, id, parent) && m[id].idx == b);
            } else {
                assert(child_of(m, a, parent) && m[a].idx == b);
            }
        }
        assert(is_max_child_idx(m, parent, b));
    }
    let w = choose|w: int| is_max_child_idx(m, parent, w);
    assert(is_max_child_idx(m, parent, max_child_idx(m, parent)));
}

// ---------------------------------------------------------------------------
// Transitions
// ---------------------------------------------------------------------------

/// A move is applicable: its parent, if named, exists.
pub open spec fn move_ok(m: TreeMap, op: MoveVertex) -> bool {
    match op.parent_id {
        Option::Some(p) => m.contains_key(p@),
        Option::None => true,
    }
}

/// The sibling index the move assigns: one past the largest index among
/// the new parent's children, or 0 for a root vertex.
pub open spec fn move_idx(m: TreeMap, op: MoveVertex) -> int {
    match op.parent_id {
        Option::Some(p) => 1 + max_child_idx(m, p@),
        Option::None => 0,
    }
}

/// Apply a move: create the target on first mention, or re-parent and
/// re-index it; properties are kept. An inapplicable move changes nothing.
pub open spec fn move_apply(m: TreeMap, op: MoveVertex) -> TreeMap {
    if !move_ok(m, op) {
        m
    } else {
        let props = if m.contains_key(op.target_id@) {
            m[op.target_id@].props
        } else {
            Map::empty()
        };
        m.insert(
            op.target_id@,
            VertexModel { parent: opt_id_view(op.parent_id), idx: move_idx(m, op), props },
        )
    }
}

/// A property operation is applicable: the target exists and the
/// operation is not transient.
pub open spec fn prop_ok(m: TreeMap, op: SetVertexProperty) -> bool {
    m.contains_key(op.target_id@) && !op.transient
}

/// Apply a property operation: overwrite the value under the key. An
/// inapplicable operation changes nothing.
pub open spec fn prop_apply(m: TreeMap, op: SetVertexProperty) -> TreeMap {
    if !prop_ok(m, op) {
        m
    } else {
        let v = m[op.target_id@];
        m.insert(
            op.target_id@,
            VertexModel { parent: v.parent, idx: v.idx, props: v.props.insert(op.key@, op.value@) },
        )
    }
}

/// An operation is applicable in a state. A `ModifyProperty` operation
/// never reaches a history: the engine projects it onto `SetProperty`
/// before recording it.
pub open spec fn op_ok(m: TreeMap, op: VertexOperation) -> bool {
    match op {
        VertexOperation::Move(x) => move_ok(m, x),
        VertexOperation::SetProperty(x) => prop_ok(m, x),
        VertexOperation::ModifyProperty(x) => false,
    }
}

/// An operation names no missing vertex: a move's parent, if any, exists,
/// and a property operation's target exists. Unlike [`op_ok`] this admits
/// a transient property operation, which the engine acknowledges without
/// effect.
pub open spec fn op_admissible(m: TreeMap, op: VertexOperation) -> bool {
    match op {
        VertexOperation::Move(x) => move_ok(m, x),
        VertexOperation::SetProperty(x) => m.contains_key(x.target_id@),
        VertexOperation::ModifyProperty(x) => false,
    }
}

/// Apply one operation.
pub open spec fn op_apply(m: TreeMap, op: VertexOperation) -> TreeMap {
    match op {
        VertexOperation::Move(x) => move_apply(m, x),
        VertexOperation::SetProperty(x) => prop_apply(m, x),
        VertexOperation::ModifyProperty(x) => m,
    }
}

/// Fold a history of operations over a state, oldest first.
pub open spec fn fold_ops(m: TreeMap, h: Seq<VertexOperation>) -> TreeMap
    decreases h.len(),
{
    if h.len() == 0 {
        m
    } else {
        op_apply(fold_ops(m, h.drop_last()), h.last())
    }
}

/// The empty tree.
pub open spec fn empty_tree() -> TreeMap {
    Map::empty()
}

/// Every operation of the history was applicable at its point.
pub open spec fn hist_ok(h: Seq<VertexOperation>) -> bool {
    forall|i: int| 0 <= i < h.len() ==> op_ok(fold_ops(empty_tree(), h.take(i)), #[trigger] h[i])
}

/// No two operations of the history share an identifier.
pub open spec fn hist_ids_distinct(h: Seq<VertexOperation>) -> bool {
    forall|i: int, j: int| 0 <= i < j < h.len() ==> !opid_same(
        op_id_of(#[trigger] h[i]),
        op_id_of(#[trigger] h[j]),
    )
}

// ---------------------------------------------------------------------------
// Tree invariants
// ---------------------------------------------------------------------------

/// Every named parent exists.
pub open spec fn parents_linked(m: TreeMap) -> bool {
    forall|id: Seq<char>| m.contains_key(id) && (#[trigger] m[id]).parent is Some
        ==> m.contains_key(m[id].parent->0)
}

/// Children of a common parent carry pairwise distinct indexes.
pub open spec fn sibling_idx_distinct(m: TreeMap) -> bool {
    forall|a: Seq<char>, b: Seq<char>, p: Seq<char>|
        #![trigger child_of(m, a, p), child_of(m, b, p)]
        child_of(m, a, p) && child_of(m, b, p) && a != b ==> m[a].idx != m[b].idx
}

/// Every child of a named parent has a non-negative index.
pub open spec fn idx_nonneg(m: TreeMap) -> bool {
    forall|id: Seq<char>, p: Seq<char>| #[trigger] child_of(m, id, p) ==> m[id].idx >= 0
}

/// The structural invariant of every reachable tree.
pub open spec fn tree_wf(m: TreeMap) -> bool {
    &&& m.dom().finite()
    &&& parents_linked(m)
    &&& sibling_idx_distinct(m)
    &&& idx_nonneg(m)
}

/// The empty tree is well-formed.
pub proof fn lemma_tree_wf_empty()
    ensures
        tree_wf(empty_tree()),
{
    assert(empty_tree().dom() =~= Set::<Seq<char>>::empty());
}

/// One applicable operation preserves the structural invariant.
pub proof fn lemma_tree_wf_step(m: TreeMap, op: VertexOperation)
    requires
        tree_wf(m),
    ensures
        tree_wf(op_apply(m, op)),
{
    match op {
        VertexOperation::Move(x) => {
            lemma_tree_wf_move(m, x);
        },
        VertexOperation::SetProperty(x) => {
            if prop_ok(m, x) {
                let t = prop_apply(m, x);
                assert(t.dom() =~= m.dom());
                assert forall|a: Seq<char>, b: Seq<char>, p: Seq<char>| child_of(t, a, p)
                    && child_of(t, b, p) && a != b implies t[a].idx != t[b].idx by {
                    assert(child_of(m, a, p) && child_of(m, b, p));
                }
                assert forall|id: Seq<char>, p: Seq<char>| #[trigger] child_of(t, id, p) implies
                    t[id].idx >= 0 by {
                    assert(child_of(m, id, p));
                }
            }
        },
        VertexOperation::ModifyProperty(x) => {},
    }
}

/// An applicable move preserves the structural invariant.
pub proof fn lemma_tree_wf_move(m: TreeMap, x: MoveVertex)
    requires
        tree_wf(m),
    ensures
        tree_wf(move_apply(m, x)),
{
    if move_ok(m, x) {
        let t = move_apply(m, x);
        let target = x.target_id@;
        assert(t.dom() =~= m.dom().insert(target));
        match x.parent_id {
            Option::Some(p) => {
                lemma_max_exists(m, p@);
                let mx = max_child_idx(m, p@);
                assert(t[target].idx == 1 + mx);
                assert forall|a: Seq<char>, b: Seq<char>, q: Seq<char>| child_of(t, a, q)
                    && child_of(t, b, q) && a != b implies t[a].idx != t[b].idx by {
                    if a != target && b != target {
                        assert(child_of(m, a, q) && child_of(m, b, q));
                    } else {
                        let o: Seq<char> = if a == target {
                            b
                        } else {
                            a
                        };
                        assert(o != target);
                        assert(q == p@);
                        assert(child_of(m, o, p@));
                        assert(m[o].idx <= mx);
                        assert(t[o].idx == m[o].idx);
                    }
                }
                assert forall|id: Seq<char>, q: Seq<char>| #[trigger] child_of(t, id, q) implies
                    t[id].idx >= 0 by {
                    if id != target {
                        assert(child_of(m, id, q));
                    }
                }
            },
            Option::None => {
                assert forall|a: Seq<char>, b: Seq<char>, q: Seq<char>| child_of(t, a, q)
                    && child_of(t, b, q) && a != b implies t[a].idx != t[b].idx by {
                    assert(a != target && b != target);
                    assert(child_of(m, a, q) && child_of(m, b, q));
                }
                assert forall|id: Seq<char>, q: Seq<char>| #[trigger] child_of(t, id, q) implies
                    t[id].idx >= 0 by {
                    assert(id != target);
                    assert(child_of(m, id, q));
                }
            },
        }
    }
}

/// Every tree reached by folding an applicable history from the empty
/// tree is well-formed: in particular every vertex's parent, if named,
/// exists, and the children of any parent carry distinct indexes.
pub proof fn lemma_fold_tree_wf(h: Seq<VertexOperation>)
    ensures
        tree_wf(fold_ops(empty_tree(), h)),
    decreases h.len(),
{
    if h.len() == 0 {
        lemma_tree_wf_empty();
    } else {
        lemma_fold_tree_wf(h.drop_last());
        lemma_tree_wf_step(fold_ops(empty_tree(), h.drop_last()), h.last());
    }
}

// ---------------------------------------------------------------------------
// Histories, logs and projections
// ---------------------------------------------------------------------------

/// The move operations of a history, in order.
pub open spec fn moves_of(h: Seq<VertexOperation>) -> Seq<MoveVertex>
    decreases h.len(),
{
    if h.len() == 0 {
        Seq::empty()
    } else {
        let rest = moves_of(h.drop_last());
        if h.last() is Move {
            rest.push(h.last()->Move_0)
        } else {
            rest
        }
    }
}

/// The property operations of a history, in order.
pub open spec fn props_of(h: Seq<VertexOperation>) -> Seq<SetVertexProperty>
    decreases h.len(),
{
    if h.len() == 0 {
        Seq::empty()
    } else {
        let rest = props_of(h.drop_last());
        if h.last() is SetProperty {
            rest.push(h.last()->SetProperty_0)
        } else {
            rest
        }
    }
}

/// Some operation of the history carries the given peer and counter.
pub open spec fn hist_has_id(h: Seq<VertexOperation>, p: Seq<char>, c: u64) -> bool {
    exists|i: int| 0 <= i < h.len() && op_id_of(#[trigger] h[i]).peer_id@ == p && op_id_of(
        h[i],
    ).counter == c
}

/// A `ModifyProperty` operation projected onto the `SetProperty` that the
/// engine records for it: the update bytes become an opaque blob value.
pub open spec fn project_op(op: VertexOperation) -> VertexOperation {
    match op {
        VertexOperation::ModifyProperty(mp) => VertexOperation::SetProperty(
            SetVertexProperty {
                id: mp.id,
                target_id: mp.target_id,
                key: mp.key,
                value: crate::types::VertexPropertyType::YDoc(mp.update),
                transient: false,
            },
        ),
        x => x,
    }
}

/// One successful engine step on the pair of materialized tree and
/// recorded history: an operation whose identifier the history already
/// carries changes nothing, a transient property operation changes
/// nothing, and any other operation is projected, applied and recorded.
pub open spec fn engine_step(
    m: TreeMap,
    h: Seq<VertexOperation>,
    op: VertexOperation,
) -> (TreeMap, Seq<VertexOperation>) {
    let q = project_op(op);
    if hist_has_id(h, op_id_of(op).peer_id@, op_id_of(op).counter) {
        (m, h)
    } else if q matches VertexOperation::SetProperty(x) && x.transient {
        (m, h)
    } else {
        (op_apply(m, q), h.push(q))
    }
}

/// The engine steps of a whole batch, in order, assuming every one
/// succeeds.
pub open spec fn engine_steps(
    m: TreeMap,
    h: Seq<VertexOperation>,
    ops: Seq<VertexOperation>,
) -> (TreeMap, Seq<VertexOperation>)
    decreases ops.len(),
{
    if ops.len() == 0 {
        (m, h)
    } else {
        let s = engine_step(m, h, ops[0]);
        engine_steps(s.0, s.1, ops.skip(1))
    }
}

/// A batch extended by one operation steps through the batch, then the
/// operation.
pub proof fn lemma_engine_steps_snoc(
    m: TreeMap,
    h: Seq<VertexOperation>,
    ops: Seq<VertexOperation>,
    op: VertexOperation,
)
    ensures
        engine_steps(m, h, ops.push(op)) == ({
            let s = engine_steps(m, h, ops);
            engine_step(s.0, s.1, op)
        }),
    decreases ops.len(),
{
    if ops.len() == 0 {
        assert(ops.push(op).len() == 1);
        assert(ops.push(op)[0] == op);
        assert(ops.push(op).skip(1) =~= Seq::<VertexOperation>::empty());
        let s1 = engine_step(m, h, op);
        assert(engine_steps(m, h, ops.push(op)) == engine_steps(
            s1.0,
            s1.1,
            ops.push(op).skip(1),
        ));
        assert(engine_steps(s1.0, s1.1, Seq::<VertexOperation>::empty()) == s1);
        assert(engine_steps(m, h, ops) == (m, h));
    } else {
        assert(ops.push(op)[0] == ops[0]);
        assert(ops.push(op).skip(1) =~= ops.skip(1).push(op));
        let s = engine_step(m, h, ops[0]);
        lemma_engine_steps_snoc(s.0, s.1, ops.skip(1), op);
        assert(engine_steps(m, h, ops.push(op)) == engine_steps(s.0, s.1, ops.push(op).skip(1)));
        assert(engine_steps(s.0, s.1, ops.push(op).skip(1)) == engine_steps(
            s.0,
            s.1,
            ops.skip(1).push(op),
        ));
        assert(engine_steps(m, h, ops) == engine_steps(s.0, s.1, ops.skip(1)));
    }
}

/// The history a replica reconstructs from persisted logs: every move,
/// oldest first, then every property operation, oldest first.
pub open spec fn replay_history(
    mlog: Seq<MoveVertex>,
    plog: Seq<SetVertexProperty>,
) -> Seq<VertexOperation> {
    Seq::new(mlog.len(), |i: int| VertexOperation::Move(mlog[i])) + Seq::new(
        plog.len(),
        |i: int| VertexOperation::SetProperty(plog[i]),
    )
}

/// A sequence of bare moves filters to exactly those moves and to no
/// property operations.
proof fn lemma_replay_moves(mlog: Seq<MoveVertex>)
    ensures
        moves_of(Seq::new(mlog.len(), |i: int| VertexOperation::Move(mlog[i]))) == mlog,
        props_of(Seq::new(mlog.len(), |i: int| VertexOperation::Move(mlog[i])))
            == Seq::<SetVertexProperty>::empty(),
    decreases mlog.len(),
{
    let s = Seq::new(mlog.len(), |i: int| VertexOperation::Move(mlog[i]));
    if mlog.len() == 0 {
        assert(moves_of(s) =~= mlog);
        assert(props_of(s) =~= Seq::<SetVertexProperty>::empty());
    } else {
        let mp = mlog.drop_last();
        let sp = Seq::new(mp.len(), |i: int| VertexOperation::Move(mp[i]));
        assert(s.drop_last() =~= sp);
        assert(s.last() == VertexOperation::Move(mlog.last()));
        lemma_replay_moves(mp);
        assert(moves_of(s) == moves_of(sp).push(mlog.last()));
        assert(moves_of(s) =~= mlog);
        assert(props_of(s) == props_of(sp));
    }
}

/// The reconstructed history filters back to exactly the two logs, and
/// holds no unprojected `ModifyProperty`.
pub proof fn lemma_replay_history(mlog: Seq<MoveVertex>, plog: Seq<SetVertexProperty>)
    ensures
        moves_of(replay_history(mlog, plog)) == mlog,
        props_of(replay_history(mlog, plog)) == plog,
        replay_history(mlog, plog).len() == mlog.len() + plog.len(),
        forall|i: int| 0 <= i < mlog.len() ==> replay_history(mlog, plog)[i]
            == VertexOperation::Move(#[trigger] mlog[i]),
        forall|i: int| 0 <= i < plog.len() ==> replay_history(mlog, plog)[mlog.len() + i]
            == VertexOperation::SetProperty(#[trigger] plog[i]),
    decreases plog.len(),
{
    let h = replay_history(mlog, plog);
    if plog.len() == 0 {
        let s = Seq::new(mlog.len(), |i: int| VertexOperation::Move(mlog[i]));
        assert(h =~= s);
        lemma_replay_moves(mlog);
    } else {
        let pp = plog.drop_last();
        let hp = replay_history(mlog, pp);
        assert(h.drop_last() =~= hp);
        assert(h.last() == VertexOperation::SetProperty(plog.last()));
        lemma_replay_history(mlog, pp);
        assert(moves_of(h) == moves_of(hp));
        assert(props_of(h) == props_of(hp).push(plog.last()));
        assert(props_of(h) =~= plog);
    }
}

/// An identifier occurs in the reconstructed history exactly when some
/// record of one of the two logs carries it.
pub proof fn lemma_replay_history_ids(mlog: Seq<MoveVertex>, plog: Seq<SetVertexProperty>)
    ensures
        forall|p: Seq<char>, c: u64| hist_has_id(replay_history(mlog, plog), p, c) == ((exists|
            i: int,
        | 0 <= i < mlog.len() && (#[trigger] mlog[i]).id.peer_id@ == p && mlog[i].id.counter == c)
            || (exists|i: int| 0 <= i < plog.len() && (#[trigger] plog[i]).id.peer_id@ == p
            && plog[i].id.counter == c)),
{
    let h = replay_history(mlog, plog);
    lemma_replay_history(mlog, plog);
    assert forall|p: Seq<char>, c: u64| hist_has_id(h, p, c) == ((exists|i: int|
        0 <= i < mlog.len() && (#[trigger] mlog[i]).id.peer_id@ == p && mlog[i].id.counter == c)
        || (exists|i: int| 0 <= i < plog.len() && (#[trigger] plog[i]).id.peer_id@ == p
        && plog[i].id.counter == c)) by {
        if hist_has_id(h, p, c) {
            let i = choose|i: int| 0 <= i < h.len() && op_id_of(#[trigger] h[i]).peer_id@ == p
                && op_id_of(h[i]).counter == c;
            if i < mlog.len() {
                assert(h[i] == VertexOperation::Move(mlog[i]));
                assert(mlog[i].id.peer_id@ == p && mlog[i].id.counter == c);
            } else {
                assert(h[i] == VertexOperation::SetProperty(plog[i - mlog.len()]));
                assert(plog[i - mlog.len()].id.peer_id@ == p && plog[i - mlog.len()].id.counter
                    == c);
            }
        }
        if exists|i: int| 0 <= i < mlog.len() && (#[trigger] mlog[i]).id.peer_id@ == p
            && mlog[i].id.counter == c {
            let i = choose|i: int| 0 <= i < mlog.len() && (#[trigger] mlog[i]).id.peer_id@ == p
                && mlog[i].id.counter == c;
            assert(h[i] == VertexOperation::Move(mlog[i]));
            assert(op_id_of(h[i]).peer_id@ == p && op_id_of(h[i]).counter == c);
        }
        if exists|i: int| 0 <= i < plog.len() && (#[trigger] plog[i]).id.peer_id@ == p
            && plog[i].id.counter == c {
            let i = choose|i: int| 0 <= i < plog.len() && (#[trigger] plog[i]).id.peer_id@ == p
                && plog[i].id.counter == c;
            assert(h[mlog.len() + i] == VertexOperation::SetProperty(plog[i]));
            assert(op_id_of(h[mlog.len() + i]).peer_id@ == p && op_id_of(
                h[mlog.len() + i],
            ).counter == c);
        }
    }
}

/// With identifiers pairwise distinct within and across the logs, the
/// reconstructed history carries pairwise distinct identifiers.
pub proof fn lemma_replay_history_distinct(mlog: Seq<MoveVertex>, plog: Seq<SetVertexProperty>)
    requires
        forall|a: int, b: int| 0 <= a < b < mlog.len() ==> !opid_same(
            (#[trigger] mlog[a]).id,
            (#[trigger] mlog[b]).id,
        ),
        forall|a: int, b: int| 0 <= a < b < plog.len() ==> !opid_same(
            (#[trigger] plog[a]).id,
            (#[trigger] plog[b]).id,
        ),
        forall|a: int, b: int| 0 <= a < mlog.len() && 0 <= b < plog.len() ==> !opid_same(
            (#[trigger] mlog[a]).id,
            (#[trigger] plog[b]).id,
        ),
    ensures
        hist_ids_distinct(replay_history(mlog, plog)),
{
    let h = replay_history(mlog, plog);
    lemma_replay_history(mlog, plog);
    assert forall|i: int, j: int| 0 <= i < j < h.len() implies !opid_same(
        op_id_of(#[trigger] h[i]),
        op_id_of(#[trigger] h[j]),
    ) by {
        if j < mlog.len() {
            assert(h[i] == VertexOperation::Move(mlog[i]));
            assert(h[j] == VertexOperation::Move(mlog[j]));
        } else if i < mlog.len() {
            assert(h[i] == VertexOperation::Move(mlog[i]));
            assert(h[j] == VertexOperation::SetProperty(plog[j - mlog.len()]));
        } else {
            assert(h[i] == VertexOperation::SetProperty(plog[i - mlog.len()]));
            assert(h[j] == VertexOperation::SetProperty(plog[j - mlog.len()]));
        }
    }
}

/// Appending an operation extends the filtered logs accordingly.
pub proof fn lemma_logs_push(h: Seq<VertexOperation>, op: VertexOperation)
    ensures
        moves_of(h.push(op)) == (if op is Move {
            moves_of(h).push(op->Move_0)
        } else {
            moves_of(h)
        }),
        props_of(h.push(op)) == (if op is SetProperty {
            props_of(h).push(op->SetProperty_0)
        } else {
            props_of(h)
        }),
{
    assert(h.push(op).drop_last() =~= h);
    assert(h.push(op).last() == op);
}

/// Appending an operation adds exactly its identifier.
pub proof fn lemma_hist_has_id_push(h: Seq<VertexOperation>, op: VertexOperation)
    ensures
        forall|p: Seq<char>, c: u64| hist_has_id(h.push(op), p, c) == (hist_has_id(h, p, c) || (p
            == op_id_of(op).peer_id@ && c == op_id_of(op).counter)),
{
    let t = h.push(op);
    assert forall|p: Seq<char>, c: u64| hist_has_id(t, p, c) == (hist_has_id(h, p, c) || (p
        == op_id_of(op).peer_id@ && c == op_id_of(op).counter)) by {
        if hist_has_id(t, p, c) {
            let i = choose|i: int| 0 <= i < t.len() && op_id_of(#[trigger] t[i]).peer_id@ == p
                && op_id_of(t[i]).counter == c;
            if i < h.len() {
                assert(t[i] == h[i]);
            } else {
                assert(t[i] == op);
            }
        }
        if hist_has_id(h, p, c) {
            let i = choose|i: int| 0 <= i < h.len() && op_id_of(#[trigger] h[i]).peer_id@ == p
                && op_id_of(h[i]).counter == c;
            assert(t[i] == h[i]);
        }
        if p == op_id_of(op).peer_id@ && c == op_id_of(op).counter {
            assert(op_id_of(t[h.len() as int]).peer_id@ == p);
        }
    }
}

/// Appending an applicable operation keeps the history applicable.
pub proof fn lemma_hist_ok_push(h: Seq<VertexOperation>, op: VertexOperation)
    requires
        hist_ok(h),
        op_ok(fold_ops(empty_tree(), h), op),
    ensures
        hist_ok(h.push(op)),
        fold_ops(empty_tree(), h.push(op)) == op_apply(fold_ops(empty_tree(), h), op),
{
    let t = h.push(op);
    assert(t.drop_last() =~= h);
    assert(t.last() == op);
    assert forall|i: int| 0 <= i < t.len() implies op_ok(
        fold_ops(empty_tree(), t.take(i)),
        #[trigger] t[i],
    ) by {
        if i < h.len() {
            assert(t.take(i) =~= h.take(i));
            assert(t[i] == h[i]);
        } else {
            assert(t.take(i) =~= h);
        }
    }
}

/// Every log entry stems from a history element, and every matching
/// history element reaches its log.
pub proof fn lemma_logs_membership(h: Seq<VertexOperation>)
    ensures
        forall|j: int|
            #![trigger moves_of(h)[j]]
            0 <= j < moves_of(h).len() ==> exists|i: int| 0 <= i < h.len() && #[trigger] h[i] is Move
                && h[i]->Move_0 == moves_of(h)[j],
        forall|j: int|
            #![trigger props_of(h)[j]]
            0 <= j < props_of(h).len() ==> exists|i: int| 0 <= i < h.len()
                && #[trigger] h[i] is SetProperty && h[i]->SetProperty_0 == props_of(h)[j],
        forall|i: int| 0 <= i < h.len() && (#[trigger] h[i]) is Move ==> exists|j: int|
            0 <= j < moves_of(h).len() && #[trigger] moves_of(h)[j] == h[i]->Move_0,
        forall|i: int| 0 <= i < h.len() && (#[trigger] h[i]) is SetProperty ==> exists|j: int|
            0 <= j < props_of(h).len() && #[trigger] props_of(h)[j] == h[i]->SetProperty_0,
    decreases h.len(),
{
    if h.len() > 0 {
        let hp = h.drop_last();
        lemma_logs_membership(hp);
        assert(forall|i: int| 0 <= i < hp.len() ==> hp[i] == h[i]);
        assert forall|j: int|
            #![trigger moves_of(h)[j]]
            0 <= j < moves_of(h).len() implies exists|i: int| 0 <= i < h.len()
            && #[trigger] h[i] is Move && h[i]->Move_0 == moves_of(h)[j] by {
            if j < moves_of(hp).len() {
                assert(moves_of(h)[j] == moves_of(hp)[j]);
                let i = choose|i: int| 0 <= i < hp.len() && #[trigger] hp[i] is Move
                    && hp[i]->Move_0 == moves_of(hp)[j];
                assert(h[i] is Move && h[i]->Move_0 == moves_of(h)[j]);
            } else {
                assert(h.last() is Move && moves_of(h)[j] == h.last()->Move_0);
                assert(h[h.len() - 1] is Move && h[h.len() - 1]->Move_0 == moves_of(h)[j]);
            }
        }
        assert forall|j: int|
            #![trigger props_of(h)[j]]
            0 <= j < props_of(h).len() implies exists|i: int| 0 <= i < h.len()
            && #[trigger] h[i] is SetProperty && h[i]->SetProperty_0 == props_of(h)[j] by {
            if j < props_of(hp).len() {
                assert(props_of(h)[j] == props_of(hp)[j]);
                let i = choose|i: int| 0 <= i < hp.len() && #[trigger] hp[i] is SetProperty
                    && hp[i]->SetProperty_0 == props_of(hp)[j];
                assert(h[i] is SetProperty && h[i]->SetProperty_0 == props_of(h)[j]);
            } else {
                assert(h[h.len() - 1] is SetProperty && h[h.len() - 1]->SetProperty_0 == props_of(
                    h,
                )[j]);
            }
        }
        assert forall|i: int| 0 <= i < h.len() && (#[trigger] h[i]) is Move implies exists|j: int|
            0 <= j < moves_of(h).len() && #[trigger] moves_of(h)[j] == h[i]->Move_0 by {
            if i < h.len() - 1 {
                assert(hp[i] is Move);
                let j = choose|j: int| 0 <= j < moves_of(hp).len() && moves_of(hp)[j]
                    == hp[i]->Move_0;
                assert(moves_of(h)[j] == moves_of(hp)[j]);
            } else {
                assert(moves_of(h)[moves_of(h).len() - 1] == h[i]->Move_0);
            }
        }
        assert forall|i: int| 0 <= i < h.len() && (#[trigger] h[i]) is SetProperty implies exists|
            j: int,
        | 0 <= j < props_of(h).len() && #[trigger] props_of(h)[j] == h[i]->SetProperty_0 by {
            if i < h.len() - 1 {
                assert(hp[i] is SetProperty);
                let j = choose|j: int| 0 <= j < props_of(hp).len() && props_of(hp)[j]
                    == hp[i]->SetProperty_0;
                assert(props_of(h)[j] == props_of(hp)[j]);
            } else {
                assert(props_of(h)[props_of(h).len() - 1] == h[i]->SetProperty_0);
            }
        }
    }
}

/// With pairwise distinct history identifiers, the identifiers within and
/// across the two logs are pairwise distinct.
pub proof fn lemma_log_ids_distinct(h: Seq<VertexOperation>)
    requires
        hist_ids_distinct(h),
    ensures
        forall|a: int, b: int| 0 <= a < b < moves_of(h).len() ==> !opid_same(
            (#[trigger] moves_of(h)[a]).id,
            (#[trigger] moves_of(h)[b]).id,
        ),
        forall|a: int, b: int| 0 <= a < b < props_of(h).len() ==> !opid_same(
            (#[trigger] props_of(h)[a]).id,
            (#[trigger] props_of(h)[b]).id,
        ),
        forall|a: int, b: int| 0 <= a < moves_of(h).len() && 0 <= b < props_of(h).len()
            ==> !opid_same((#[trigger] moves_of(h)[a]).id, (#[trigger] props_of(h)[b]).id),
    decreases h.len(),
{
    if h.len() > 0 {
        let hp = h.drop_last();
        assert(forall|i: int| 0 <= i < hp.len() ==> hp[i] == h[i]);
        lemma_log_ids_distinct(hp);
        lemma_logs_membership(hp);
        let last = h.last();
        assert(last == h[h.len() - 1]);
        if last is Move {
            assert(moves_of(h) == moves_of(hp).push(last->Move_0));
            assert(props_of(h) == props_of(hp));
            assert forall|a: int, b: int| 0 <= a < b < moves_of(h).len() implies !opid_same(
                (#[trigger] moves_of(h)[a]).id,
                (#[trigger] moves_of(h)[b]).id,
            ) by {
                if b == moves_of(h).len() - 1 {
                    assert(moves_of(h)[a] == moves_of(hp)[a]);
                    let i = choose|i: int| 0 <= i < hp.len() && #[trigger] hp[i] is Move
                        && hp[i]->Move_0 == moves_of(hp)[a];
                    assert(op_id_of(h[i]) == moves_of(h)[a].id);
                    assert(op_id_of(h[h.len() - 1]) == moves_of(h)[b].id);
                } else {
                    assert(moves_of(h)[a] == moves_of(hp)[a] && moves_of(h)[b] == moves_of(
                        hp,
                    )[b]);
                }
            }
            assert forall|a: int, b: int|
                0 <= a < moves_of(h).len() && 0 <= b < props_of(h).len() implies !opid_same(
                (#[trigger] moves_of(h)[a]).id,
                (#[trigger] props_of(h)[b]).id,
            ) by {
                assert(props_of(h)[b] == props_of(hp)[b]);
                if a == moves_of(h).len() - 1 {
                    let i = choose|i: int| 0 <= i < hp.len() && #[trigger] hp[i] is SetProperty
                        && hp[i]->SetProperty_0 == props_of(hp)[b];
                    assert(op_id_of(h[i]) == props_of(h)[b].id);
                    assert(op_id_of(h[h.len() - 1]) == moves_of(h)[a].id);
                } else {
                    assert(moves_of(h)[a] == moves_of(hp)[a]);
                }
            }
        } else if last is SetProperty {
            assert(props_of(h) == props_of(hp).push(last->SetProperty_0));
            assert(moves_of(h) == moves_of(hp));
            assert forall|a: int, b: int| 0 <= a < b < props_of(h).len() implies !opid_same(
                (#[trigger] props_of(h)[a]).id,
                (#[trigger] props_of(h)[b]).id,
            ) by {
                if b == props_of(h).len() - 1 {
                    assert(props_of(h)[a] == props_of(hp)[a]);
                    let i = choose|i: int| 0 <= i < hp.len() && #[trigger] hp[i] is SetProperty
                        && hp[i]->SetProperty_0 == props_of(hp)[a];
                    assert(op_id_of(h[i]) == props_of(h)[a].id);
                    assert(op_id_of(h[h.len() - 1]) == props_of(h)[b].id);
                } else {
                    assert(props_of(h)[a] == props_of(hp)[a] && props_of(h)[b] == props_of(
                        hp,
                    )[b]);
                }
            }
            assert forall|a: int, b: int|
                0 <= a < moves_of(h).len() && 0 <= b < props_of(h).len() implies !opid_same(
                (#[trigger] moves_of(h)[a]).id,
                (#[trigger] props_of(h)[b]).id,
            ) by {
                assert(moves_of(h)[a] == moves_of(hp)[a]);
                if b == props_of(h).len() - 1 {
                    let i = choose|i: int| 0 <= i < hp.len() && #[trigger] hp[i] is Move
                        && hp[i]->Move_0 == moves_of(hp)[a];
                    assert(op_id_of(h[i]) == moves_of(h)[a].id);
                    assert(op_id_of(h[h.len() - 1]) == props_of(h)[b].id);
                } else {
                    assert(props_of(h)[b] == props_of(hp)[b]);
                }
            }
        } else {
            assert(moves_of(h) == moves_of(hp));
            assert(props_of(h) == props_of(hp));
        }
    }
}

} // verus!
