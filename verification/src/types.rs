//! Core types of the replicated tree: identifiers, operations, property
//! values, materialized vertex records, and the error taxonomy.

use vstd::prelude::*;

verus! {

/// Identifier of a vertex, unique across peers.
pub type VertexId = String;

// ---------------------------------------------------------------------------
// String comparison helpers
// ---------------------------------------------------------------------------

/// Strict lexicographic order on character sequences, by code point.
pub open spec fn lex_lt(a: Seq<char>, b: Seq<char>) -> bool
    decreases a.len(),
{
    if b.len() == 0 {
        false
    } else if a.len() == 0 {
        true
    } else if (a[0] as u32) < (b[0] as u32) {
        true
    } else if (a[0] as u32) > (b[0] as u32) {
        false
    } else {
        lex_lt(a.drop_first(), b.drop_first())
    }
}

/// Of two character sequences, exactly one of `lex_lt(a, b)`, `lex_lt(b, a)`
/// and `a == b` holds: the order is total and strict.
pub proof fn lemma_lex_lt_trichotomy(a: Seq<char>, b: Seq<char>)
    ensures
        lex_lt(a, b) || lex_lt(b, a) || a == b,
        lex_lt(a, b) ==> !lex_lt(b, a) && a != b,
        lex_lt(b, a) ==> !lex_lt(a, b) && a != b,
    decreases a.len(),
{
    if b.len() == 0 || a.len() == 0 {
        if a.len() == 0 && b.len() == 0 {
            assert(a =~= b);
        }
    } else if (a[0] as u32) == (b[0] as u32) {
        vstd::utf8::char_u32_cast(a[0], a[0] as u32);
        vstd::utf8::char_u32_cast(b[0], b[0] as u32);
        assert(a[0] == b[0]);
        lemma_lex_lt_trichotomy(a.drop_first(), b.drop_first());
        if a.drop_first() == b.drop_first() {
            assert forall|i: int| 0 <= i < a.len() implies a[i] == b[i] by {
                if i > 0 {
                    assert(a[i] == a.drop_first()[i - 1]);
                    assert(b[i] == b.drop_first()[i - 1]);
                }
            }
            assert(a =~= b);
        }
        if a == b {
            assert(a.drop_first() =~= b.drop_first());
        }
    } else {
        if a == b {
            assert(a[0] == b[0]);
        }
    }
}

/// Lexicographic order is transitive.
pub proof fn lemma_lex_lt_transitive(a: Seq<char>, b: Seq<char>, c: Seq<char>)
    requires
        lex_lt(a, b),
        lex_lt(b, c),
    ensures
        lex_lt(a, c),
    decreases a.len(),
{
    if a.len() == 0 {
        assert(b.len() > 0);
        assert(c.len() > 0);
    } else {
        assert(b.len() > 0);
        assert(c.len() > 0);
        if (a[0] as u32) == (b[0] as u32) && (b[0] as u32) == (c[0] as u32) {
            lemma_lex_lt_transitive(a.drop_first(), b.drop_first(), c.drop_first());
        }
    }
}

/// If the first `i` characters agree, the order is decided by the suffixes.
pub proof fn lemma_lex_lt_skip(a: Seq<char>, b: Seq<char>, i: int)
    requires
        0 <= i <= a.len(),
        i <= b.len(),
        forall|j: int| 0 <= j < i ==> a[j] == b[j],
    ensures
        lex_lt(a, b) == lex_lt(a.skip(i), b.skip(i)),
    decreases i,
{
    if i == 0 {
        assert(a.skip(0) =~= a);
        assert(b.skip(0) =~= b);
    } else {
        assert(a.len() > 0 && b.len() > 0);
        assert(a[0] == b[0]);
        assert(a.drop_first() =~= a.skip(1));
        assert(b.drop_first() =~= b.skip(1));
        lemma_lex_lt_skip(a.skip(1), b.skip(1), i - 1);
        assert(a.skip(1).skip(i - 1) =~= a.skip(i));
        assert(b.skip(1).skip(i - 1) =~= b.skip(i));
    }
}

/// Equality of string slices, decided character by character.
pub fn str_eq(a: &str, b: &str) -> (r: bool)
    ensures
        r == (a@ == b@),
{
    let n = a.unicode_len();
    let m = b.unicode_len();
    if n != m {
        return false;
    }
    let mut i: usize = 0;
    while i < n
        invariant
            i <= n,
            n == a@.len(),
            n == b@.len(),
            forall|j: int| 0 <= j < i ==> a@[j] == b@[j],
        decreases n - i,
    {
        let ca = a.get_char(i);
        let cb = b.get_char(i);
        if ca != cb {
            return false;
        }
        i = i + 1;
    }
    proof {
        assert(a@ =~= b@);
    }
    true
}

/// Lexicographic comparison of string slices, by code point.
pub fn str_cmp(a: &str, b: &str) -> (r: core::cmp::Ordering)
    ensures
        r == core::cmp::Ordering::Less <==> lex_lt(a@, b@),
        r == core::cmp::Ordering::Greater <==> lex_lt(b@, a@),
        r == core::cmp::Ordering::Equal <==> a@ == b@,
{
    proof {
        lemma_lex_lt_trichotomy(a@, b@);
    }
    let n = a.unicode_len();
    let m = b.unicode_len();
    let limit = if n < m { n } else { m };
    let mut i: usize = 0;
    while i < limit
        invariant
            i <= limit,
            limit <= n && limit <= m,
            limit == n || limit == m,
            n == a@.len(),
            m == b@.len(),
            forall|j: int| 0 <= j < i ==> a@[j] == b@[j],
        decreases limit - i,
    {
        let ca = a.get_char(i);
        let cb = b.get_char(i);
        let cau = ca as u32;
        let cbu = cb as u32;
        if cau < cbu {
            proof {
                let sa = a@.skip(i as int);
                let sb = b@.skip(i as int);
                assert(sa[0] == a@[i as int] && sb[0] == b@[i as int]);
                assert(lex_lt(sa, sb));
                lemma_lex_lt_skip(a@, b@, i as int);
                lemma_lex_lt_trichotomy(a@, b@);
            }
            return core::cmp::Ordering::Less;
        }
        if cau > cbu {
            proof {
                let sa = a@.skip(i as int);
                let sb = b@.skip(i as int);
                assert(sa[0] == a@[i as int] && sb[0] == b@[i as int]);
                assert(lex_lt(sb, sa));
                lemma_lex_lt_skip(b@, a@, i as int);
                lemma_lex_lt_trichotomy(a@, b@);
            }
            return core::cmp::Ordering::Greater;
        }
        proof {
            vstd::utf8::char_u32_cast(ca, cau);
            vstd::utf8::char_u32_cast(cb, cbu);
        }
        i = i + 1;
    }
    if n < m {
        proof {
            let sa = a@.skip(i as int);
            let sb = b@.skip(i as int);
            assert(sa.len() == 0 && sb.len() > 0);
            assert(lex_lt(sa, sb));
            lemma_lex_lt_skip(a@, b@, i as int);
            lemma_lex_lt_trichotomy(a@, b@);
        }
        core::cmp::Ordering::Less
    } else if n > m {
        proof {
            let sa = a@.skip(i as int);
            let sb = b@.skip(i as int);
            assert(sb.len() == 0 && sa.len() > 0);
            assert(lex_lt(sb, sa));
            lemma_lex_lt_skip(b@, a@, i as int);
            lemma_lex_lt_trichotomy(a@, b@);
        }
        core::cmp::Ordering::Greater
    } else {
        proof {
            assert(a@ =~= b@);
        }
        core::cmp::Ordering::Equal
    }
}

// ---------------------------------------------------------------------------
// Operation identifiers
// ---------------------------------------------------------------------------

/// Globally unique, totally ordered identifier of an operation:
/// ordered by `counter` ascending, ties broken by `peer_id` lexicographically.
#[derive(Debug, PartialEq, Eq, Hash)]
pub struct OpId {
    /// The peer that created this operation.
    pub peer_id: String,
    /// The counter value allocated by that peer's logical clock.
    pub counter: u64,
}

/// Strict total order on operation identifiers: counter ascending, then
/// peer identifier lexicographic ascending.
pub open spec fn opid_lt(a: OpId, b: OpId) -> bool {
    a.counter < b.counter || (a.counter == b.counter && lex_lt(a.peer_id@, b.peer_id@))
}

/// Two operation identifiers denote the same point when counter and peer agree.
pub open spec fn opid_same(a: OpId, b: OpId) -> bool {
    a.counter == b.counter && a.peer_id@ == b.peer_id@
}

/// `opid_lt` is a strict total order: trichotomy and transitivity.
pub proof fn lemma_opid_lt_total(a: OpId, b: OpId)
    ensures
        opid_lt(a, b) || opid_lt(b, a) || opid_same(a, b),
        opid_lt(a, b) ==> !opid_lt(b, a) && !opid_same(a, b),
        opid_same(a, b) ==> !opid_lt(a, b) && !opid_lt(b, a),
{
    lemma_lex_lt_trichotomy(a.peer_id@, b.peer_id@);
}

/// Transitivity of the operation identifier order.
pub proof fn lemma_opid_lt_transitive(a: OpId, b: OpId, c: OpId)
    requires
        opid_lt(a, b),
        opid_lt(b, c),
    ensures
        opid_lt(a, c),
{
    if a.counter == b.counter && b.counter == c.counter {
        lemma_lex_lt_transitive(a.peer_id@, b.peer_id@, c.peer_id@);
    }
}

impl Clone for OpId {
    fn clone(&self) -> (r: Self)
        ensures
            r == *self,
    {
        OpId { peer_id: self.peer_id.clone(), counter: self.counter }
    }
}

impl OpId {
    /// Create a new operation identifier.
    pub fn new(peer_id: String, counter: u64) -> (r: Self)
        ensures
            r.peer_id == peer_id,
            r.counter == counter,
    {
        OpId { peer_id, counter }
    }

    /// Compare two operation identifiers: counter ascending, then peer
    /// identifier lexicographic ascending. A total order with no ties
    /// between distinct identifiers.
    pub fn compare(a: &Self, b: &Self) -> (r: core::cmp::Ordering)
        ensures
            r == core::cmp::Ordering::Less <==> opid_lt(*a, *b),
            r == core::cmp::Ordering::Greater <==> opid_lt(*b, *a),
            r == core::cmp::Ordering::Equal <==> opid_same(*a, *b),
    {
        proof {
            lemma_opid_lt_total(*a, *b);
        }
        if a.counter < b.counter {
            core::cmp::Ordering::Less
        } else if a.counter > b.counter {
            core::cmp::Ordering::Greater
        } else {
            str_cmp(self_peer(a), self_peer(b))
        }
    }
}

/// Borrow the peer identifier of an operation id as a string slice.
fn self_peer(a: &OpId) -> (r: &str)
    ensures
        r@ == a.peer_id@,
{
    self_str(&a.peer_id)
}

/// Borrow a `String` as a `&str` with the same view.
pub fn self_str(s: &String) -> (r: &str)
    ensures
        r@ == s@,
{
    s.as_str()
}

// ---------------------------------------------------------------------------
// Property values
// ---------------------------------------------------------------------------

/// The mathematical shape of a property value: strings as character
/// sequences, arrays and objects as sequences, blobs as byte sequences.
/// Two executable values with the same model are interchangeable.
pub ghost enum PropModel {
    /// String value.
    Str(Seq<char>),
    /// Boolean value.
    Bool(bool),
    /// Number value: the bit pattern of an IEEE-754 double.
    Num(u64),
    /// Signed 64-bit integer value.
    Int(i64),
    /// Null value.
    Null,
    /// Ordered sequence of values.
    Arr(Seq<PropModel>),
    /// Key-value pairs, in insertion order.
    Obj(Seq<(Seq<char>, PropModel)>),
    /// Opaque serialized collaborative-document update.
    Blob(Seq<u8>),
}

/// A property value carried by a vertex: a JSON-shaped sum type.
///
/// `Number` holds the 64-bit pattern of an IEEE-754 double; callers that
/// work with floating point convert through `f64::to_bits` / `from_bits`.
/// `Object` keys are unique (see [`props_keys_distinct`]).
/// `YDoc` carries an opaque collaborative-editing update whose inner
/// semantics this store does not interpret.
#[derive(Debug, PartialEq)]
pub enum VertexPropertyType {
    /// String value.
    String(String),
    /// Boolean value.
    Boolean(bool),
    /// Number value: the bit pattern of an IEEE-754 double.
    Number(u64),
    /// Signed 64-bit integer value.
    Integer(i64),
    /// Null value.
    Null,
    /// Ordered sequence of values.
    Array(Vec<VertexPropertyType>),
    /// Mapping from string keys to values, keys unique.
    Object(Vec<(String, VertexPropertyType)>),
    /// Opaque serialized collaborative-document update.
    YDoc(Vec<u8>),
}

/// Copy a byte vector element by element.
fn copy_bytes(src: &Vec<u8>) -> (r: Vec<u8>)
    ensures
        r@ == src@,
{
    let mut out: Vec<u8> = Vec::new();
    let mut i: usize = 0;
    while i < src.len()
        invariant
            i <= src@.len(),
            out@.len() == i,
            forall|j: int| 0 <= j < i ==> out@[j] == src@[j],
        decreases src@.len() - i,
    {
        out.push(src[i]);
        i = i + 1;
    }
    proof {
        assert(out@ =~= src@);
    }
    out
}

/// The mathematical value of a property value.
pub open spec fn prop_view(v: VertexPropertyType) -> PropModel
    decreases v,
    via prop_view_decreases
{
    match v {
        VertexPropertyType::String(s) => PropModel::Str(s@),
        VertexPropertyType::Boolean(b) => PropModel::Bool(b),
        VertexPropertyType::Number(n) => PropModel::Num(n),
        VertexPropertyType::Integer(n) => PropModel::Int(n),
        VertexPropertyType::Null => PropModel::Null,
        VertexPropertyType::Array(items) => PropModel::Arr(prop_views_of(items@)),
        VertexPropertyType::Object(pairs) => PropModel::Obj(prop_pairs_of(pairs@)),
        VertexPropertyType::YDoc(bytes) => PropModel::Blob(bytes@),
    }
}

/// The mathematical values of a sequence of property values.
pub open spec fn prop_views_of(s: Seq<VertexPropertyType>) -> Seq<PropModel>
    decreases s,
    via prop_views_of_decreases
{
    if s.len() == 0 {
        Seq::empty()
    } else {
        prop_views_of(s.drop_last()).push(prop_view(s.last()))
    }
}

/// The mathematical values of a sequence of key-value pairs.
pub open spec fn prop_pairs_of(s: Seq<(String, VertexPropertyType)>) -> Seq<(Seq<char>, PropModel)>
    decreases s,
    via prop_pairs_of_decreases
{
    if s.len() == 0 {
        Seq::empty()
    } else {
        prop_pairs_of(s.drop_last()).push((s.last().0@, prop_view(s.last().1)))
    }
}

#[via_fn]
proof fn prop_view_decreases(v: VertexPropertyType) {
    match v {
        VertexPropertyType::Array(items) => {
            assert(decreases_to!(v => v->Array_0));
            assert(decreases_to!(v->Array_0 => v->Array_0@));
            assert(items == v->Array_0);
        },
        VertexPropertyType::Object(pairs) => {
            assert(decreases_to!(v => v->Object_0));
            assert(decreases_to!(v->Object_0 => v->Object_0@));
            assert(pairs == v->Object_0);
        },
        _ => {},
    }
}

#[via_fn]
proof fn prop_views_of_decreases(s: Seq<VertexPropertyType>) {
    if s.len() > 0 {
        assert(decreases_to!(s => s[s.len() - 1]));
        assert(s.drop_last() == s.subrange(0, s.len() - 1));
        vstd::seq::axiom_seq_subrange_decreases(s, 0, s.len() - 1);
    }
}

#[via_fn]
proof fn prop_pairs_of_decreases(s: Seq<(String, VertexPropertyType)>) {
    if s.len() > 0 {
        assert(decreases_to!(s => s[s.len() - 1]));
        assert(decreases_to!(s[s.len() - 1] => s[s.len() - 1].1));
        assert(s.drop_last() == s.subrange(0, s.len() - 1));
        vstd::seq::axiom_seq_subrange_decreases(s, 0, s.len() - 1);
    }
}

/// `prop_views_of` maps the sequence pointwise.
pub proof fn lemma_prop_views_of(s: Seq<VertexPropertyType>)
    ensures
        prop_views_of(s).len() == s.len(),
        forall|i: int| 0 <= i < s.len() ==> prop_views_of(s)[i] == prop_view(s[i]),
    decreases s.len(),
{
    if s.len() > 0 {
        lemma_prop_views_of(s.drop_last());
    }
}

/// `prop_pairs_of` maps the sequence pointwise.
pub proof fn lemma_prop_pairs_of(s: Seq<(String, VertexPropertyType)>)
    ensures
        prop_pairs_of(s).len() == s.len(),
        forall|i: int| 0 <= i < s.len() ==> prop_pairs_of(s)[i] == (s[i].0@, prop_view(s[i].1)),
    decreases s.len(),
{
    if s.len() > 0 {
        lemma_prop_pairs_of(s.drop_last());
    }
}

impl View for VertexPropertyType {
    type V = PropModel;

    open spec fn view(&self) -> PropModel {
        prop_view(*self)
    }
}

impl Clone for VertexPropertyType {
    /// Deep copy; the result has the same mathematical value as the source.
    fn clone(&self) -> (r: Self)
        ensures
            r@ == self@,
        decreases *self,
    {
        match self {
            VertexPropertyType::String(s) => VertexPropertyType::String(s.clone()),
            VertexPropertyType::Boolean(b) => VertexPropertyType::Boolean(*b),
            VertexPropertyType::Number(n) => VertexPropertyType::Number(*n),
            VertexPropertyType::Integer(n) => VertexPropertyType::Integer(*n),
            VertexPropertyType::Null => VertexPropertyType::Null,
            VertexPropertyType::Array(items) => {
                let mut out: Vec<VertexPropertyType> = Vec::new();
                let mut i: usize = 0;
                while i < items.len()
                    invariant
                        i <= items@.len(),
                        out@.len() == i,
                        *self == VertexPropertyType::Array(*items),
                        forall|j: int| 0 <= j < i ==> prop_view(#[trigger] out@[j]) == prop_view(items@[j]),
                    decreases items@.len() - i,
                {
                    proof {
                        assert(decreases_to!(*self => self->Array_0));
                        assert(self->Array_0 == *items);
                        assert(decreases_to!(*items => items@));
                        assert(decreases_to!(items@ => items@[i as int]));
                    }
                    let c = items[i].clone();
                    out.push(c);
                    i = i + 1;
                }
                proof {
                    lemma_prop_views_of(out@);
                    lemma_prop_views_of(items@);
                    assert(prop_views_of(out@) =~= prop_views_of(items@));
                }
                VertexPropertyType::Array(out)
            },
            VertexPropertyType::Object(pairs) => {
                let mut out: Vec<(String, VertexPropertyType)> = Vec::new();
                let mut i: usize = 0;
                while i < pairs.len()
                    invariant
                        i <= pairs@.len(),
                        out@.len() == i,
                        *self == VertexPropertyType::Object(*pairs),
                        forall|j: int| 0 <= j < i ==> (#[trigger] out@[j]).0@ == pairs@[j].0@
                            && prop_view(out@[j].1) == prop_view(pairs@[j].1),
                    decreases pairs@.len() - i,
                {
                    proof {
                        assert(decreases_to!(*self => self->Object_0));
                        assert(self->Object_0 == *pairs);
                        assert(decreases_to!(*pairs => pairs@));
                        assert(decreases_to!(pairs@ => pairs@[i as int]));
                        assert(decreases_to!(pairs@[i as int] => pairs@[i as int].1));
                    }
                    let k = pairs[i].0.clone();
                    let v = pairs[i].1.clone();
                    out.push((k, v));
                    i = i + 1;
                }
                proof {
                    lemma_prop_pairs_of(out@);
                    lemma_prop_pairs_of(pairs@);
                    assert(prop_pairs_of(out@) =~= prop_pairs_of(pairs@));
                }
                VertexPropertyType::Object(out)
            },
            VertexPropertyType::YDoc(bytes) => VertexPropertyType::YDoc(copy_bytes(bytes)),
        }
    }
}

// ---------------------------------------------------------------------------
// Operations
// ---------------------------------------------------------------------------

/// Copy an optional vertex identifier.
pub fn clone_opt_id(o: &Option<VertexId>) -> (r: Option<VertexId>)
    ensures
        r == *o,
{
    match o {
        Option::Some(s) => Option::Some(s.clone()),
        Option::None => Option::None,
    }
}

/// Operation that moves a vertex under a new parent, creating the vertex
/// on first mention. `parent_id` of `None` denotes a root vertex.
#[derive(Debug)]
pub struct MoveVertex {
    /// Unique identifier of this operation.
    pub id: OpId,
    /// The vertex being moved.
    pub target_id: VertexId,
    /// The new parent of the vertex, `None` for a root.
    pub parent_id: Option<VertexId>,
    /// Lamport timestamp at the originating peer.
    pub timestamp: u64,
}

impl Clone for MoveVertex {
    fn clone(&self) -> (r: Self)
        ensures
            r == *self,
    {
        MoveVertex {
            id: self.id.clone(),
            target_id: self.target_id.clone(),
            parent_id: clone_opt_id(&self.parent_id),
            timestamp: self.timestamp,
        }
    }
}

/// Operation that sets a property on a vertex. A `transient` operation has
/// no persistent effect: it is acknowledged and otherwise ignored.
#[derive(Debug)]
pub struct SetVertexProperty {
    /// Unique identifier of this operation.
    pub id: OpId,
    /// The vertex being modified.
    pub target_id: VertexId,
    /// The property key.
    pub key: String,
    /// The property value.
    pub value: VertexPropertyType,
    /// Whether this operation is ephemeral and must not be persisted.
    pub transient: bool,
}

/// Two property operations that agree in every observable respect; the
/// property value is compared by its mathematical value.
pub open spec fn sp_like(a: SetVertexProperty, b: SetVertexProperty) -> bool {
    &&& a.id == b.id
    &&& a.target_id == b.target_id
    &&& a.key == b.key
    &&& a.value@ == b.value@
    &&& a.transient == b.transient
}

impl Clone for SetVertexProperty {
    fn clone(&self) -> (r: Self)
        ensures
            sp_like(r, *self),
    {
        SetVertexProperty {
            id: self.id.clone(),
            target_id: self.target_id.clone(),
            key: self.key.clone(),
            value: self.value.clone(),
            transient: self.transient,
        }
    }
}

/// Operation that carries an opaque collaborative-document update for a
/// property. The engine projects it onto a [`SetVertexProperty`] holding
/// the raw bytes.
#[derive(Debug)]
pub struct ModifyVertexProperty {
    /// Unique identifier of this operation.
    pub id: OpId,
    /// The vertex being modified.
    pub target_id: VertexId,
    /// The property key.
    pub key: String,
    /// The opaque update bytes.
    pub update: Vec<u8>,
}

/// Two modify operations that agree in every observable respect.
pub open spec fn mp_like(a: ModifyVertexProperty, b: ModifyVertexProperty) -> bool {
    &&& a.id == b.id
    &&& a.target_id == b.target_id
    &&& a.key == b.key
    &&& a.update@ == b.update@
}

impl Clone for ModifyVertexProperty {
    fn clone(&self) -> (r: Self)
        ensures
            mp_like(r, *self),
    {
        ModifyVertexProperty {
            id: self.id.clone(),
            target_id: self.target_id.clone(),
            key: self.key.clone(),
            update: copy_bytes(&self.update),
        }
    }
}

/// An operation applicable to the replicated tree.
#[derive(Debug)]
pub enum VertexOperation {
    /// Move a vertex under a new parent.
    Move(MoveVertex),
    /// Set a property on a vertex.
    SetProperty(SetVertexProperty),
    /// Apply an opaque collaborative update to a property.
    ModifyProperty(ModifyVertexProperty),
}

/// Two operations that agree in every observable respect.
pub open spec fn vop_like(a: VertexOperation, b: VertexOperation) -> bool {
    match (a, b) {
        (VertexOperation::Move(x), VertexOperation::Move(y)) => x == y,
        (VertexOperation::SetProperty(x), VertexOperation::SetProperty(y)) => sp_like(x, y),
        (VertexOperation::ModifyProperty(x), VertexOperation::ModifyProperty(y)) => mp_like(x, y),
        _ => false,
    }
}

/// The identifier of an operation.
pub open spec fn op_id_of(op: VertexOperation) -> OpId {
    match op {
        VertexOperation::Move(x) => x.id,
        VertexOperation::SetProperty(x) => x.id,
        VertexOperation::ModifyProperty(x) => x.id,
    }
}

impl Clone for VertexOperation {
    fn clone(&self) -> (r: Self)
        ensures
            vop_like(r, *self),
    {
        match self {
            VertexOperation::Move(x) => VertexOperation::Move(x.clone()),
            VertexOperation::SetProperty(x) => VertexOperation::SetProperty(x.clone()),
            VertexOperation::ModifyProperty(x) => VertexOperation::ModifyProperty(x.clone()),
        }
    }
}

// ---------------------------------------------------------------------------
// Materialized vertex records
// ---------------------------------------------------------------------------

/// The mathematical content of a vertex record.
pub ghost struct VertexModel {
    /// The parent, `None` for a root vertex.
    pub parent: Option<Seq<char>>,
    /// Sibling ordering key.
    pub idx: int,
    /// The property mapping.
    pub props: Map<Seq<char>, PropModel>,
}

/// View of an optional identifier.
pub open spec fn opt_id_view(o: Option<VertexId>) -> Option<Seq<char>> {
    match o {
        Option::Some(s) => Option::Some(s@),
        Option::None => Option::None,
    }
}

/// The property mapping denoted by a list of key-value pairs; a later
/// entry for the same key overrides an earlier one.
pub open spec fn props_as_map(s: Seq<(String, VertexPropertyType)>) -> Map<Seq<char>, PropModel>
    decreases s.len(),
{
    if s.len() == 0 {
        Map::empty()
    } else {
        props_as_map(s.drop_last()).insert(s.last().0@, prop_view(s.last().1))
    }
}

/// The keys of a property list are pairwise distinct.
pub open spec fn props_keys_distinct(s: Seq<(String, VertexPropertyType)>) -> bool {
    forall|i: int, j: int| 0 <= i < j < s.len() ==> s[i].0@ != s[j].0@
}

/// A key occurs in a property list.
pub open spec fn props_has_key(s: Seq<(String, VertexPropertyType)>, k: Seq<char>) -> bool {
    exists|i: int| 0 <= i < s.len() && s[i].0@ == k
}

/// A key is in the property mapping exactly when some entry carries it.
pub proof fn lemma_props_as_map_contains(s: Seq<(String, VertexPropertyType)>, k: Seq<char>)
    ensures
        props_as_map(s).contains_key(k) == props_has_key(s, k),
    decreases s.len(),
{
    if s.len() > 0 {
        lemma_props_as_map_contains(s.drop_last(), k);
        if props_has_key(s, k) && s.last().0@ != k {
            let i = choose|i: int| 0 <= i < s.len() && s[i].0@ == k;
            assert(s.drop_last()[i] == s[i]);
        }
        if props_has_key(s.drop_last(), k) {
            let i = choose|i: int| 0 <= i < s.drop_last().len() && s.drop_last()[i].0@ == k;
            assert(s[i] == s.drop_last()[i]);
        }
    }
}

/// With distinct keys, the mapping sends each entry's key to its value.
pub proof fn lemma_props_as_map_at(s: Seq<(String, VertexPropertyType)>, i: int)
    requires
        props_keys_distinct(s),
        0 <= i < s.len(),
    ensures
        props_as_map(s).contains_key(s[i].0@),
        props_as_map(s)[s[i].0@] == prop_view(s[i].1),
    decreases s.len(),
{
    if i < s.len() - 1 {
        assert(s.drop_last()[i] == s[i]);
        lemma_props_as_map_at(s.drop_last(), i);
    }
}

/// Updating the entry that holds a key updates the mapping at that key.
pub proof fn lemma_props_as_map_update(
    s: Seq<(String, VertexPropertyType)>,
    i: int,
    p: (String, VertexPropertyType),
)
    requires
        props_keys_distinct(s),
        0 <= i < s.len(),
        s[i].0@ == p.0@,
    ensures
        props_as_map(s.update(i, p)) == props_as_map(s).insert(p.0@, prop_view(p.1)),
        props_keys_distinct(s.update(i, p)),
    decreases s.len(),
{
    let t = s.update(i, p);
    assert(forall|j: int| 0 <= j < s.len() && j != i ==> t[j] == s[j]);
    if i == s.len() - 1 {
        assert(t.drop_last() =~= s.drop_last());
        assert(props_as_map(t) =~= props_as_map(s).insert(p.0@, prop_view(p.1)));
    } else {
        assert(t.drop_last() =~= s.drop_last().update(i, p));
        assert(s.drop_last()[i] == s[i]);
        lemma_props_as_map_update(s.drop_last(), i, p);
        assert(s.last().0@ != p.0@);
        assert(t.last() == s.last());
        assert(props_as_map(t) =~= props_as_map(s).insert(p.0@, prop_view(p.1)));
    }
}

/// Appending an entry inserts its key into the mapping.
pub proof fn lemma_props_as_map_push(
    s: Seq<(String, VertexPropertyType)>,
    p: (String, VertexPropertyType),
)
    ensures
        props_as_map(s.push(p)) == props_as_map(s).insert(p.0@, prop_view(p.1)),
{
    assert(s.push(p).drop_last() =~= s);
    assert(s.push(p).last() == p);
}

/// Two pairwise model-equal property lists denote the same mapping.
pub proof fn lemma_props_as_map_congruent(
    a: Seq<(String, VertexPropertyType)>,
    b: Seq<(String, VertexPropertyType)>,
)
    requires
        a.len() == b.len(),
        forall|i: int| 0 <= i < a.len() ==> (#[trigger] a[i]).0@ == b[i].0@ && prop_view(a[i].1)
            == prop_view(b[i].1),
    ensures
        props_as_map(a) == props_as_map(b),
    decreases a.len(),
{
    if a.len() > 0 {
        assert(forall|i: int| 0 <= i < a.len() - 1 ==> a.drop_last()[i] == a[i]
            && b.drop_last()[i] == b[i]);
        lemma_props_as_map_congruent(a.drop_last(), b.drop_last());
        assert(a.last() == a[a.len() - 1] && b.last() == b[b.len() - 1]);
        assert(props_as_map(a) =~= props_as_map(b));
    }
}

/// A materialized vertex record: the current state of one vertex.
#[derive(Debug)]
pub struct EncodedVertex {
    /// Unique identifier of this vertex.
    pub id: VertexId,
    /// Parent vertex, `None` for a root vertex.
    pub parent_id: Option<VertexId>,
    /// Sibling ordering key within the parent's children.
    pub idx: i64,
    /// Properties of this vertex, keys unique.
    pub properties: Vec<(String, VertexPropertyType)>,
}

impl View for EncodedVertex {
    type V = VertexModel;

    open spec fn view(&self) -> VertexModel {
        VertexModel {
            parent: opt_id_view(self.parent_id),
            idx: self.idx as int,
            props: props_as_map(self.properties@),
        }
    }
}

impl EncodedVertex {
    /// Well-formedness: property keys are pairwise distinct.
    pub open spec fn wf(&self) -> bool {
        props_keys_distinct(self.properties@)
    }

    /// Look the value of a property up.
    pub fn get_property(&self, key: &str) -> (r: Option<&VertexPropertyType>)
        requires
            self.wf(),
        ensures
            match r {
                Option::Some(v) => self@.props.contains_key(key@) && v@ == self@.props[key@],
                Option::None => !self@.props.contains_key(key@),
            },
    {
        let n = self.properties.len();
        let mut i: usize = 0;
        while i < n
            invariant
                self.wf(),
                i <= n,
                n == self.properties@.len(),
                forall|j: int| 0 <= j < i ==> self.properties@[j].0@ != key@,
            decreases n - i,
        {
            if str_eq(self_str(&self.properties[i].0), key) {
                proof {
                    lemma_props_as_map_at(self.properties@, i as int);
                }
                return Option::Some(&self.properties[i].1);
            }
            i = i + 1;
        }
        proof {
            lemma_props_as_map_contains(self.properties@, key@);
        }
        Option::None
    }

    /// Set a property, overwriting any existing value under the same key.
    pub fn set_property_value(&mut self, key: &str, value: VertexPropertyType)
        requires
            old(self).wf(),
        ensures
            final(self).wf(),
            final(self).id == old(self).id,
            final(self).parent_id == old(self).parent_id,
            final(self).idx == old(self).idx,
            final(self)@.props == old(self)@.props.insert(key@, value@),
    {
        let n = self.properties.len();
        let mut i: usize = 0;
        while i < n
            invariant
                *self == *old(self),
                old(self).wf(),
                i <= n,
                n == self.properties@.len(),
                forall|j: int| 0 <= j < i ==> self.properties@[j].0@ != key@,
            decreases n - i,
        {
            if str_eq(self_str(&self.properties[i].0), key) {
                let k = key.to_owned();
                proof {
                    lemma_props_as_map_update(self.properties@, i as int, (k, value));
                }
                self.properties.set(i, (k, value));
                return ;
            }
            i = i + 1;
        }
        let k = key.to_owned();
        proof {
            lemma_props_as_map_push(self.properties@, (k, value));
            lemma_props_as_map_contains(self.properties@, key@);
        }
        self.properties.push((k, value));
    }
}

impl Clone for EncodedVertex {
    /// Deep copy; identifier, parent, index and property mapping are kept.
    fn clone(&self) -> (r: Self)
        ensures
            r.id == self.id,
            r.parent_id == self.parent_id,
            r.idx == self.idx,
            r@ == self@,
            self.wf() ==> r.wf(),
    {
        let mut props: Vec<(String, VertexPropertyType)> = Vec::new();
        let n = self.properties.len();
        let mut i: usize = 0;
        while i < n
            invariant
                i <= n,
                n == self.properties@.len(),
                props@.len() == i,
                forall|j: int| 0 <= j < i ==> (#[trigger] props@[j]).0@ == self.properties@[j].0@
                    && prop_view(props@[j].1) == prop_view(self.properties@[j].1),
            decreases n - i,
        {
            let k = self.properties[i].0.clone();
            let v = self.properties[i].1.clone();
            props.push((k, v));
            i = i + 1;
        }
        proof {
            lemma_props_as_map_congruent(props@, self.properties@);
            if self.wf() {
                assert forall|a: int, b: int| 0 <= a < b < props@.len() implies props@[a].0@
                    != props@[b].0@ by {
                    assert(props@[a].0@ == self.properties@[a].0@);
                    assert(props@[b].0@ == self.properties@[b].0@);
                }
            }
        }
        EncodedVertex {
            id: self.id.clone(),
            parent_id: clone_opt_id(&self.parent_id),
            idx: self.idx,
            properties: props,
        }
    }
}

// ---------------------------------------------------------------------------
// Ranges and scan options
// ---------------------------------------------------------------------------

/// An inclusive range of counter values applied for one peer.
#[derive(Debug)]
pub struct Range {
    /// The peer whose counters this range covers.
    pub peer_id: String,
    /// The first counter covered, inclusive.
    pub start: u64,
    /// The last counter covered, inclusive.
    pub end: u64,
}

impl Clone for Range {
    fn clone(&self) -> (r: Self)
        ensures
            r == *self,
    {
        Range { peer_id: self.peer_id.clone(), start: self.start, end: self.end }
    }
}

/// Options for scanning an operation log; absent filters admit everything,
/// and present filters combine by conjunction.
#[derive(Debug)]
pub struct ScanOptions {
    /// Keep only operations originated by this peer.
    pub peer_id: Option<String>,
    /// Keep only log records with sequence number at least this, inclusive.
    pub from_seq: Option<u64>,
    /// Keep only log records with sequence number at most this, inclusive.
    pub to_seq: Option<u64>,
    /// Return at most this many records.
    pub limit: Option<u64>,
    /// Deliver the records in descending sequence order.
    pub reverse: bool,
}

impl Default for ScanOptions {
    /// No filters: every record, in ascending sequence order.
    fn default() -> (r: Self)
        ensures
            r.peer_id is None,
            r.from_seq is None,
            r.to_seq is None,
            r.limit is None,
            !r.reverse,
    {
        ScanOptions {
            peer_id: Option::None,
            from_seq: Option::None,
            to_seq: Option::None,
            limit: Option::None,
            reverse: false,
        }
    }
}

// ---------------------------------------------------------------------------
// Errors
// ---------------------------------------------------------------------------

/// Failure of a persistence backend, carrying its message.
#[derive(Debug)]
pub enum StorageError {
    /// The backing store reported a failure.
    Backend(String),
    /// An input/output failure outside the store proper.
    Io(String),
}

/// The closed set of errors surfaced by this library.
#[derive(Debug)]
pub enum Error {
    /// An operation referenced a vertex that does not exist.
    VertexNotFound(VertexId),
    /// A storage backend failed.
    Storage(StorageError),
    /// A malformed or inapplicable operation was rejected.
    InvalidOperation(String),
    /// Encoding or decoding a stored value failed.
    Serialization(String),
}

} // verus!
