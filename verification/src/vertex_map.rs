//! A list of vertex records with pairwise distinct identifiers, viewed as
//! a mapping from identifier to vertex model.

use vstd::prelude::*;

use crate::types::EncodedVertex;
use crate::types::VertexModel;

verus! {

/// The identifiers of the records are pairwise distinct.
pub open spec fn verts_ids_distinct(s: Seq<EncodedVertex>) -> bool {
    forall|i: int, j: int| 0 <= i < j < s.len() ==> s[i].id@ != s[j].id@
}

/// Every record is well-formed and the identifiers are distinct.
pub open spec fn verts_wf(s: Seq<EncodedVertex>) -> bool {
    &&& verts_ids_distinct(s)
    &&& forall|i: int| 0 <= i < s.len() ==> (#[trigger] s[i]).wf()
}

/// The mapping denoted by a list of records; a later record for the same
/// identifier overrides an earlier one.
pub open spec fn verts_as_map(s: Seq<EncodedVertex>) -> Map<Seq<char>, VertexModel>
    decreases s.len(),
{
    if s.len() == 0 {
        Map::empty()
    } else {
        verts_as_map(s.drop_last()).insert(s.last().id@, s.last()@)
    }
}

/// An identifier occurs in the list.
pub open spec fn verts_have_id(s: Seq<EncodedVertex>, id: Seq<char>) -> bool {
    exists|i: int| 0 <= i < s.len() && s[i].id@ == id
}

/// An identifier is in the mapping exactly when some record carries it.
pub proof fn lemma_verts_as_map_contains(s: Seq<EncodedVertex>, id: Seq<char>)
    ensures
        verts_as_map(s).contains_key(id) == verts_have_id(s, id),
    decreases s.len(),
{
    if s.len() > 0 {
        lemma_verts_as_map_contains(s.drop_last(), id);
        if verts_have_id(s, id) && s.last().id@ != id {
            let i = choose|i: int| 0 <= i < s.len() && s[i].id@ == id;
            assert(s.drop_last()[i] == s[i]);
        }
        if verts_have_id(s.drop_last(), id) {
            let i = choose|i: int| 0 <= i < s.drop_last().len() && s.drop_last()[i].id@ == id;
            assert(s[i] == s.drop_last()[i]);
        }
    }
}

/// With distinct identifiers, the mapping sends each record's identifier
/// to that record's model.
pub proof fn lemma_verts_as_map_at(s: Seq<EncodedVertex>, i: int)
    requires
        verts_ids_distinct(s),
        0 <= i < s.len(),
    ensures
        verts_as_map(s).contains_key(s[i].id@),
        verts_as_map(s)[s[i].id@] == s[i]@,
    decreases s.len(),
{
    if i < s.len() - 1 {
        assert(s.drop_last()[i] == s[i]);
        lemma_verts_as_map_at(s.drop_last(), i);
    }
}

/// Replacing the record that holds an identifier updates the mapping there.
pub proof fn lemma_verts_as_map_update(s: Seq<EncodedVertex>, i: int, v: EncodedVertex)
    requires
        verts_ids_distinct(s),
        0 <= i < s.len(),
        s[i].id@ == v.id@,
    ensures
        verts_as_map(s.update(i, v)) == verts_as_map(s).insert(v.id@, v@),
        verts_ids_distinct(s.update(i, v)),
    decreases s.len(),
{
    let t = s.update(i, v);
    assert(forall|j: int| 0 <= j < s.len() && j != i ==> t[j] == s[j]);
    if i == s.len() - 1 {
        assert(t.drop_last() =~= s.drop_last());
        assert(verts_as_map(t) =~= verts_as_map(s).insert(v.id@, v@));
    } else {
        assert(t.drop_last() =~= s.drop_last().update(i, v));
        assert(s.drop_last()[i] == s[i]);
        lemma_verts_as_map_update(s.drop_last(), i, v);
        assert(s.last().id@ != v.id@);
        assert(t.last() == s.last());
        assert(verts_as_map(t) =~= verts_as_map(s).insert(v.id@, v@));
    }
}

/// Appending a record inserts its identifier into the mapping.
pub proof fn lemma_verts_as_map_push(s: Seq<EncodedVertex>, v: EncodedVertex)
    ensures
        verts_as_map(s.push(v)) == verts_as_map(s).insert(v.id@, v@),
    decreases s.len(),
{
    assert(s.push(v).drop_last() =~= s);
    assert(s.push(v).last() == v);
}

} // verus!
