//! The causal state vector: for each peer, the set of applied operation
//! counters, kept as a sorted list of inclusive, non-overlapping,
//! non-adjacent ranges.

use vstd::prelude::*;

use crate::types::Range;
use crate::types::self_str;
use crate::types::str_eq;

verus! {

// ---------------------------------------------------------------------------
// Coverage and normal form
// ---------------------------------------------------------------------------

/// A range covers a counter value.
pub open spec fn in_range(r: Range, c: u64) -> bool {
    r.start <= c <= r.end
}

/// Some range of the list covers the counter.
pub open spec fn ranges_cover(rs: Seq<Range>, c: u64) -> bool {
    exists|i: int| 0 <= i < rs.len() && in_range(rs[i], c)
}

/// Some range of the list carries this peer and covers the counter.
pub open spec fn list_covers(rs: Seq<Range>, p: Seq<char>, c: u64) -> bool {
    exists|i: int| 0 <= i < rs.len() && rs[i].peer_id@ == p && in_range(rs[i], c)
}

/// No two ranges of the list share a covered counter.
pub open spec fn ranges_disjoint(rs: Seq<Range>) -> bool {
    forall|i: int, j: int, c: u64|
        #![trigger in_range(rs[i], c), in_range(rs[j], c)]
        0 <= i < j < rs.len() ==> !(in_range(rs[i], c) && in_range(rs[j], c))
}

/// Normal form of one peer's range list: every range carries that peer and
/// is non-empty, and the list is sorted with a gap of at least one counter
/// between consecutive ranges.
pub open spec fn ranges_wf(rs: Seq<Range>, peer: Seq<char>) -> bool {
    &&& forall|i: int|
        0 <= i < rs.len() ==> (#[trigger] rs[i]).peer_id@ == peer && rs[i].start <= rs[i].end
    &&& forall|i: int| 0 <= i < rs.len() - 1 ==> (#[trigger] rs[i]).end + 1 < rs[i + 1].start
}

/// In a normal-form list the ranges are pairwise disjoint.
pub proof fn lemma_wf_disjoint(rs: Seq<Range>, peer: Seq<char>)
    requires
        ranges_wf(rs, peer),
    ensures
        ranges_disjoint(rs),
{
    assert forall|i: int, j: int, c: u64|
        0 <= i < j < rs.len() implies !(in_range(rs[i], c) && in_range(rs[j], c)) by {
        lemma_wf_ordered(rs, peer, i, j);
    }
}

/// In a normal-form list, an earlier range ends before a later one starts.
pub proof fn lemma_wf_ordered(rs: Seq<Range>, peer: Seq<char>, i: int, j: int)
    requires
        ranges_wf(rs, peer),
        0 <= i < j < rs.len(),
    ensures
        rs[i].end + 1 < rs[j].start,
    decreases j - i,
{
    if j > i + 1 {
        lemma_wf_ordered(rs, peer, i, j - 1);
    }
}

/// Well-formed entries: peer keys pairwise distinct, each list in normal
/// form for its peer.
pub open spec fn entries_wf(es: Seq<(String, Vec<Range>)>) -> bool {
    &&& forall|i: int, j: int| 0 <= i < j < es.len() ==> es[i].0@ != es[j].0@
    &&& forall|i: int| 0 <= i < es.len() ==> ranges_wf((#[trigger] es[i]).1@, es[i].0@)
}

/// Some entry carries this peer and covers the counter.
pub open spec fn entries_cover(es: Seq<(String, Vec<Range>)>, p: Seq<char>, c: u64) -> bool {
    exists|i: int| 0 <= i < es.len() && es[i].0@ == p && ranges_cover(es[i].1@, c)
}

/// Some entry among the first `n` carries this peer and covers the counter.
pub open spec fn entries_cover_upto(
    es: Seq<(String, Vec<Range>)>,
    n: int,
    p: Seq<char>,
    c: u64,
) -> bool {
    exists|i: int| 0 <= i < n && i < es.len() && es[i].0@ == p && ranges_cover(es[i].1@, c)
}

// ---------------------------------------------------------------------------
// The state vector
// ---------------------------------------------------------------------------

/// State vector of a replica: per peer, the union of the counters of every
/// applied operation, as merged ranges.
#[derive(Debug)]
pub struct StateVector {
    ranges: Vec<(String, Vec<Range>)>,
}

impl StateVector {
    /// The entries held, one per peer.
    pub closed spec fn entries(&self) -> Seq<(String, Vec<Range>)> {
        self.ranges@
    }

    /// The state vector is in normal form.
    pub open spec fn wf(&self) -> bool {
        entries_wf(self.entries())
    }

    /// The state vector covers counter `c` of peer `p`.
    pub open spec fn covers(&self, p: Seq<char>, c: u64) -> bool {
        entries_cover(self.entries(), p, c)
    }

    /// Create an empty state vector.
    pub fn new() -> (r: Self)
        ensures
            r.wf(),
            r.entries().len() == 0,
            forall|p: Seq<char>, c: u64| !r.covers(p, c),
    {
        StateVector { ranges: Vec::new() }
    }

    /// Create a state vector holding the given entries. The result is in
    /// normal form whenever the entries are.
    pub fn from_ranges(ranges: Vec<(String, Vec<Range>)>) -> (r: Self)
        ensures
            r.entries() == ranges@,
    {
        StateVector { ranges }
    }

    /// Copy the per-peer ranges out.
    #[verifier::rlimit(50)]
    pub fn get_ranges(&self) -> (r: Vec<(String, Vec<Range>)>)
        ensures
            r@.len() == self.entries().len(),
            forall|i: int| 0 <= i < r@.len() ==> (#[trigger] r@[i]).0 == self.entries()[i].0
                && r@[i].1@ == self.entries()[i].1@,
            forall|p: Seq<char>, c: u64| entries_cover(r@, p, c) == self.covers(p, c),
            self.wf() ==> entries_wf(r@),
    {
        let mut out: Vec<(String, Vec<Range>)> = Vec::new();
        let n = self.ranges.len();
        let mut i: usize = 0;
        while i < n
            invariant
                i <= n,
                n == self.ranges@.len(),
                out@.len() == i,
                forall|j: int| 0 <= j < i ==> (#[trigger] out@[j]).0 == self.ranges@[j].0
                    && out@[j].1@ == self.ranges@[j].1@,
            decreases n - i,
        {
            let name = self.ranges[i].0.clone();
            let list = copy_ranges(&self.ranges[i].1);
            out.push((name, list));
            i = i + 1;
        }
        proof {
            if self.wf() {
                assert forall|a: int, b: int| 0 <= a < b < out@.len() implies out@[a].0@
                    != out@[b].0@ by {
                    assert(out@[a].0 == self.ranges@[a].0);
                    assert(out@[b].0 == self.ranges@[b].0);
                }
                assert forall|k: int| 0 <= k < out@.len() implies ranges_wf(
                    (#[trigger] out@[k]).1@,
                    out@[k].0@,
                ) by {
                    assert(out@[k].1@ == self.ranges@[k].1@);
                    assert(out@[k].0 == self.ranges@[k].0);
                }
            }
            assert forall|p: Seq<char>, c: u64| entries_cover(out@, p, c)
                == entries_cover(self.ranges@, p, c) by {
                if entries_cover(out@, p, c) {
                    let k = choose|k: int| 0 <= k < out@.len() && out@[k].0@ == p && ranges_cover(
                        out@[k].1@,
                        c,
                    );
                    assert(ranges_cover(self.ranges@[k].1@, c));
                }
                if entries_cover(self.ranges@, p, c) {
                    let k = choose|k: int| 0 <= k < self.ranges@.len() && self.ranges@[k].0@ == p
                        && ranges_cover(self.ranges@[k].1@, c);
                    assert(ranges_cover(out@[k].1@, c));
                }
            }
        }
        out
    }
}

/// Copy a list of ranges.
fn copy_ranges(src: &Vec<Range>) -> (r: Vec<Range>)
    ensures
        r@ == src@,
{
    let mut out: Vec<Range> = Vec::new();
    let mut i: usize = 0;
    while i < src.len()
        invariant
            i <= src@.len(),
            out@.len() == i,
            forall|j: int| 0 <= j < i ==> out@[j] == src@[j],
        decreases src@.len() - i,
    {
        out.push(src[i].clone());
        i = i + 1;
    }
    proof {
        assert(out@ =~= src@);
    }
    out
}

// ---------------------------------------------------------------------------
// Normalization
// ---------------------------------------------------------------------------

/// Non-strict ordering of the range starts, in full transitive form.
pub open spec fn starts_sorted(rs: Seq<Range>) -> bool {
    forall|i: int, j: int| 0 <= i <= j < rs.len() ==> (#[trigger] rs[i]).start <= (#[trigger] rs[j]).start
}

/// Every range of the list carries the peer and is non-empty.
pub open spec fn ranges_shaped(rs: Seq<Range>, peer: Seq<char>) -> bool {
    forall|i: int| 0 <= i < rs.len() ==> (#[trigger] rs[i]).peer_id@ == peer && rs[i].start <= rs[i].end
}

/// Inserting a range adds exactly its coverage.
proof fn lemma_cover_insert(s: Seq<Range>, p: int, r: Range)
    requires
        0 <= p <= s.len(),
    ensures
        forall|c: u64| ranges_cover(s.insert(p, r), c) == (ranges_cover(s, c) || in_range(r, c)),
{
    let t = s.insert(p, r);
    assert forall|c: u64| ranges_cover(t, c) == (ranges_cover(s, c) || in_range(r, c)) by {
        if ranges_cover(t, c) {
            let i = choose|i: int| 0 <= i < t.len() && in_range(t[i], c);
            if i < p {
                assert(t[i] == s[i]);
            } else if i == p {
                assert(t[i] == r);
            } else {
                assert(t[i] == s[i - 1]);
            }
        }
        if ranges_cover(s, c) {
            let i = choose|i: int| 0 <= i < s.len() && in_range(s[i], c);
            if i < p {
                assert(t[i] == s[i]);
            } else {
                assert(t[i + 1] == s[i]);
            }
        }
        if in_range(r, c) {
            assert(t[p] == r);
        }
    }
}

/// Appending a range adds exactly its coverage.
proof fn lemma_cover_push(s: Seq<Range>, r: Range)
    ensures
        forall|c: u64| ranges_cover(s.push(r), c) == (ranges_cover(s, c) || in_range(r, c)),
{
    assert(s.push(r) =~= s.insert(s.len() as int, r));
    lemma_cover_insert(s, s.len() as int, r);
}

/// Sort a shaped list of ranges by start, preserving coverage.
fn sort_ranges(src: &Vec<Range>, peer: &str) -> (out: Vec<Range>)
    requires
        ranges_shaped(src@, peer@),
    ensures
        ranges_shaped(out@, peer@),
        starts_sorted(out@),
        forall|c: u64| ranges_cover(out@, c) == ranges_cover(src@, c),
{
    let mut out: Vec<Range> = Vec::new();
    let n = src.len();
    let mut i: usize = 0;
    while i < n
        invariant
            i <= n,
            n == src@.len(),
            ranges_shaped(src@, peer@),
            ranges_shaped(out@, peer@),
            starts_sorted(out@),
            forall|c: u64| ranges_cover(out@, c) == ranges_cover(src@.subrange(0, i as int), c),
        decreases n - i,
    {
        let v = src[i].clone();
        let mut p: usize = 0;
        while p < out.len() && out[p].start <= v.start
            invariant
                p <= out@.len(),
                forall|j: int| 0 <= j < p ==> (#[trigger] out@[j]).start <= v.start,
            decreases out@.len() - p,
        {
            p = p + 1;
        }
        proof {
            lemma_cover_insert(out@, p as int, v);
            assert(src@.subrange(0, i + 1 as int).drop_last() =~= src@.subrange(0, i as int));
            assert(src@.subrange(0, i + 1 as int).last() == src@[i as int]);
            lemma_cover_push(src@.subrange(0, i as int), src@[i as int]);
            assert(src@.subrange(0, i as int).push(src@[i as int]) =~= src@.subrange(
                0,
                i + 1 as int,
            ));
        }
        out.insert(p, v);
        i = i + 1;
    }
    proof {
        assert(src@.subrange(0, n as int) =~= src@);
    }
    out
}

/// Merge a sorted, shaped list into normal form, preserving coverage.
fn merge_ranges(src: &Vec<Range>, peer: &str) -> (out: Vec<Range>)
    requires
        ranges_shaped(src@, peer@),
        starts_sorted(src@),
    ensures
        ranges_wf(out@, peer@),
        forall|c: u64| ranges_cover(out@, c) == ranges_cover(src@, c),
{
    let mut out: Vec<Range> = Vec::new();
    let n = src.len();
    let mut i: usize = 0;
    while i < n
        invariant
            i <= n,
            n == src@.len(),
            ranges_shaped(src@, peer@),
            starts_sorted(src@),
            ranges_wf(out@, peer@),
            forall|c: u64| ranges_cover(out@, c) == ranges_cover(src@.subrange(0, i as int), c),
            out@.len() > 0 ==> exists|k: int| 0 <= k < i && out@.last().start == src@[k].start,
            forall|j: int| 0 <= j < out@.len() ==> (#[trigger] out@[j]).end <= out@.last().end,
        decreases n - i,
    {
        let ghost prev_out = out@;
        let ghost cur = src@[i as int];
        proof {
            assert(src@.subrange(0, (i + 1) as int).drop_last() =~= src@.subrange(0, i as int));
            lemma_cover_push(src@.subrange(0, i as int), cur);
            assert(src@.subrange(0, i as int).push(cur) =~= src@.subrange(0, (i + 1) as int));
        }
        let v_start = src[i].start;
        let v_end = src[i].end;
        if out.len() == 0 {
            out.push(src[i].clone());
            proof {
                lemma_cover_push(prev_out, cur);
                assert(out@.last().start == src@[i as int].start);
                assert(forall|j: int| 0 <= j < out@.len() ==> (#[trigger] out@[j]).end
                    <= out@.last().end);
            }
        } else {
            let last_idx = out.len() - 1;
            let last_start = out[last_idx].start;
            let last_end = out[last_idx].end;
            proof {
                let k0 = choose|k0: int| 0 <= k0 < i && out@.last().start == src@[k0].start;
                assert(src@[k0].start <= src@[i as int].start);
                assert(last_start <= v_start);
            }
            if last_end == u64::MAX || v_start <= last_end + 1 {
                let new_end = if v_end > last_end {
                    v_end
                } else {
                    last_end
                };
                let merged = Range {
                    peer_id: out[last_idx].peer_id.clone(),
                    start: last_start,
                    end: new_end,
                };
                out.set(last_idx, merged);
                proof {
                    assert(out@ == prev_out.update(last_idx as int, merged));
                    assert forall|c: u64| ranges_cover(out@, c) == (ranges_cover(prev_out, c)
                        || in_range(cur, c)) by {
                        if ranges_cover(out@, c) {
                            let k = choose|k: int| 0 <= k < out@.len() && in_range(out@[k], c);
                            if k < last_idx {
                                assert(out@[k] == prev_out[k]);
                                assert(ranges_cover(prev_out, c));
                            } else {
                                assert(out@[k] == merged);
                                if c <= last_end {
                                    assert(in_range(prev_out[last_idx as int], c));
                                    assert(ranges_cover(prev_out, c));
                                } else {
                                    assert(in_range(cur, c));
                                }
                            }
                        }
                        if ranges_cover(prev_out, c) {
                            let k = choose|k: int| 0 <= k < prev_out.len() && in_range(
                                prev_out[k],
                                c,
                            );
                            if k < last_idx {
                                assert(out@[k] == prev_out[k]);
                                assert(ranges_cover(out@, c));
                            } else {
                                assert(prev_out[k].end <= prev_out.last().end);
                                assert(in_range(out@[last_idx as int], c));
                                assert(ranges_cover(out@, c));
                            }
                        }
                        if in_range(cur, c) {
                            assert(in_range(out@[last_idx as int], c));
                            assert(ranges_cover(out@, c));
                        }
                    }
                    assert forall|c: u64| ranges_cover(out@, c) == ranges_cover(
                        src@.subrange(0, (i + 1) as int),
                        c,
                    ) by {
                        assert(ranges_cover(prev_out, c) == ranges_cover(
                            src@.subrange(0, i as int),
                            c,
                        ));
                    }
                    let k0 = choose|k0: int| 0 <= k0 < i && last_start == src@[k0].start;
                    assert(out@.last().start == src@[k0].start);
                    assert(forall|j: int| 0 <= j < out@.len() ==> (#[trigger] out@[j]).end
                        <= out@.last().end);
                }
            } else {
                out.push(src[i].clone());
                proof {
                    lemma_cover_push(prev_out, cur);
                    assert forall|c: u64| ranges_cover(out@, c) == ranges_cover(
                        src@.subrange(0, (i + 1) as int),
                        c,
                    ) by {
                        assert(ranges_cover(prev_out, c) == ranges_cover(
                            src@.subrange(0, i as int),
                            c,
                        ));
                    }
                    assert(out@.last().start == src@[i as int].start);
                    assert(out@.last() == out@[out@.len() - 1]);
                    assert forall|j: int| 0 <= j < out@.len() implies (#[trigger] out@[j]).end
                        <= out@.last().end by {
                        if j < out@.len() - 1 {
                            assert(out@[j] == prev_out[j]);
                            assert(prev_out[j].end <= prev_out.last().end);
                            assert(prev_out.last().end == last_end);
                            assert(last_end < v_start);
                        }
                    }
                    assert forall|a: int| 0 <= a < out@.len() - 1 implies (#[trigger] out@[a]).end
                        + 1 < out@[a + 1].start by {
                        if a < out@.len() - 2 {
                            assert(out@[a] == prev_out[a] && out@[a + 1] == prev_out[a + 1]);
                        } else {
                            assert(out@[a] == prev_out[a]);
                            assert(prev_out[a].end <= prev_out.last().end);
                        }
                    }
                }
            }
        }
        i = i + 1;
    }
    proof {
        assert(src@.subrange(0, n as int) =~= src@);
    }
    out
}

impl StateVector {
    /// Bring one peer's range list into normal form: sorted by start, with
    /// overlapping or adjacent ranges merged. Coverage is unchanged.
    pub fn normalize_ranges(&mut self, peer_id: &str)
        requires
            forall|i: int, j: int| 0 <= i < j < old(self).entries().len()
                ==> old(self).entries()[i].0@ != old(self).entries()[j].0@,
            forall|i: int| 0 <= i < old(self).entries().len() && old(self).entries()[i].0@
                == peer_id@ ==> ranges_shaped((#[trigger] old(self).entries()[i]).1@, peer_id@),
        ensures
            final(self).entries().len() == old(self).entries().len(),
            forall|i: int| 0 <= i < final(self).entries().len()
                ==> (#[trigger] final(self).entries()[i]).0 == old(self).entries()[i].0,
            forall|i: int| 0 <= i < final(self).entries().len() && old(self).entries()[i].0@
                != peer_id@ ==> (#[trigger] final(self).entries()[i]).1 == old(self).entries()[i].1,
            forall|i: int| 0 <= i < final(self).entries().len() && final(self).entries()[i].0@
                == peer_id@ ==> ranges_wf((#[trigger] final(self).entries()[i]).1@, peer_id@),
            forall|p: Seq<char>, c: u64| final(self).covers(p, c) == old(self).covers(p, c),
    {
        let n = self.ranges.len();
        let mut e: usize = 0;
        while e < n
            invariant
                e <= n,
                *self == *old(self),
                n == self.ranges@.len(),
                forall|i: int, j: int| 0 <= i < j < old(self).entries().len()
                    ==> old(self).entries()[i].0@ != old(self).entries()[j].0@,
                forall|i: int| 0 <= i < old(self).entries().len() && old(self).entries()[i].0@
                    == peer_id@ ==> ranges_shaped(
                    (#[trigger] old(self).entries()[i]).1@,
                    peer_id@,
                ),
                forall|j: int| 0 <= j < e ==> (#[trigger] self.ranges@[j]).0@ != peer_id@,
            decreases n - e,
        {
            if str_eq(self_str(&self.ranges[e].0), peer_id) {
                proof {
                    assert(old(self).entries()[e as int].0@ == peer_id@);
                    assert(ranges_shaped(old(self).entries()[e as int].1@, peer_id@));
                }
                let name = self.ranges[e].0.clone();
                let sorted = sort_ranges(&self.ranges[e].1, peer_id);
                let merged = merge_ranges(&sorted, peer_id);
                proof {
                    let prev = self.ranges@;
                    let next = prev.update(e as int, (name, merged));
                    assert forall|p: Seq<char>, c: u64| entries_cover(next, p, c) == entries_cover(
                        prev,
                        p,
                        c,
                    ) by {
                        if entries_cover(next, p, c) {
                            let k = choose|k: int| 0 <= k < next.len() && next[k].0@ == p
                                && ranges_cover(next[k].1@, c);
                            assert(prev[k].0@ == p);
                            assert(ranges_cover(prev[k].1@, c));
                        }
                        if entries_cover(prev, p, c) {
                            let k = choose|k: int| 0 <= k < prev.len() && prev[k].0@ == p
                                && ranges_cover(prev[k].1@, c);
                            assert(next[k].0@ == p);
                            assert(ranges_cover(next[k].1@, c));
                        }
                    }
                }
                self.ranges.set(e, (name, merged));
                proof {
                    assert forall|i: int| 0 <= i < self.ranges@.len() && self.ranges@[i].0@
                        == peer_id@ implies ranges_wf(
                        (#[trigger] self.ranges@[i]).1@,
                        peer_id@,
                    ) by {
                        if i != e {
                            assert(self.ranges@[i].0 == old(self).entries()[i].0);
                            assert(old(self).entries()[e as int].0@ == peer_id@);
                        }
                    }
                }
                return ;
            }
            e = e + 1;
        }
    }

    /// Whether the state vector covers the given counter of the given peer.
    pub fn contains_point(&self, peer_id: &str, counter: u64) -> (b: bool)
        ensures
            b == self.covers(peer_id@, counter),
    {
        let n = self.ranges.len();
        let mut e: usize = 0;
        while e < n
            invariant
                e <= n,
                n == self.ranges@.len(),
                forall|j: int| 0 <= j < e ==> !((#[trigger] self.ranges@[j]).0@ == peer_id@
                    && ranges_cover(self.ranges@[j].1@, counter)),
            decreases n - e,
        {
            if str_eq(self_str(&self.ranges[e].0), peer_id) {
                let list_len = self.ranges[e].1.len();
                let mut k: usize = 0;
                while k < list_len
                    invariant
                        k <= list_len,
                        e < self.ranges@.len(),
                        self.ranges@[e as int].0@ == peer_id@,
                        list_len == self.ranges@[e as int].1@.len(),
                        forall|j: int| 0 <= j < k ==> !in_range(
                            #[trigger] self.ranges@[e as int].1@[j],
                            counter,
                        ),
                    decreases list_len - k,
                {
                    let r_start = self.ranges[e].1[k].start;
                    let r_end = self.ranges[e].1[k].end;
                    if r_start <= counter && counter <= r_end {
                        proof {
                            assert(in_range(self.ranges@[e as int].1@[k as int], counter));
                            assert(ranges_cover(self.ranges@[e as int].1@, counter));
                            assert(0 <= e < self.ranges@.len() && self.ranges@[e as int].0@
                                == peer_id@ && ranges_cover(self.ranges@[e as int].1@, counter));
                        }
                        return true;
                    }
                    k = k + 1;
                }
                proof {
                    assert(!ranges_cover(self.ranges@[e as int].1@, counter));
                }
            }
            e = e + 1;
        }
        proof {
            if self.covers(peer_id@, counter) {
                let q = choose|q: int| 0 <= q < self.ranges@.len() && self.ranges@[q].0@
                    == peer_id@ && ranges_cover(self.ranges@[q].1@, counter);
            }
        }
        false
    }

    /// Record that the operation with the given peer and counter has been
    /// applied. Adding a counter already covered leaves the state vector
    /// unchanged; otherwise exactly that one point is added and the ranges
    /// re-merge into normal form. The range lists of every other peer are
    /// untouched: at most the given peer's entry changes, or one fresh
    /// entry for it is appended.
    pub fn add(&mut self, peer_id: &str, counter: u64)
        requires
            old(self).wf(),
        ensures
            final(self).wf(),
            forall|p: Seq<char>, c: u64| final(self).covers(p, c) == (old(self).covers(p, c) || (p
                == peer_id@ && c == counter)),
            old(self).covers(peer_id@, counter) ==> *final(self) == *old(self),
            old(self).entries().len() <= final(self).entries().len() <= old(self).entries().len()
                + 1,
            forall|i: int| 0 <= i < old(self).entries().len()
                ==> (#[trigger] final(self).entries()[i]).0@ == old(self).entries()[i].0@ && (old(
                self,
            ).entries()[i].0@ != peer_id@ ==> final(self).entries()[i].1 == old(
                self,
            ).entries()[i].1),
            forall|i: int| old(self).entries().len() <= i < final(self).entries().len() ==> (
            #[trigger] final(self).entries()[i]).0@ == peer_id@,
    {
        let n = self.ranges.len();
        let mut e: usize = 0;
        while e < n
            invariant
                e <= n,
                *self == *old(self),
                old(self).wf(),
                n == self.ranges@.len(),
                forall|j: int| 0 <= j < e ==> (#[trigger] self.ranges@[j]).0@ != peer_id@,
            decreases n - e,
        {
            if str_eq(self_str(&self.ranges[e].0), peer_id) {
                // Idempotence: a counter already covered is a no-op.
                let list_len = self.ranges[e].1.len();
                let mut k: usize = 0;
                while k < list_len
                    invariant
                        k <= list_len,
                        *self == *old(self),
                        old(self).wf(),
                        e < self.ranges@.len(),
                        self.ranges@[e as int].0@ == peer_id@,
                        list_len == self.ranges@[e as int].1@.len(),
                        forall|j: int| 0 <= j < k ==> !in_range(
                            #[trigger] self.ranges@[e as int].1@[j],
                            counter,
                        ),
                    decreases list_len - k,
                {
                    let r_start = self.ranges[e].1[k].start;
                    let r_end = self.ranges[e].1[k].end;
                    if r_start <= counter && counter <= r_end {
                        proof {
                            assert(in_range(self.ranges@[e as int].1@[k as int], counter));
                            assert(ranges_cover(self.ranges@[e as int].1@, counter));
                            assert(0 <= e < self.ranges@.len() && self.ranges@[e as int].0@
                                == peer_id@ && ranges_cover(self.ranges@[e as int].1@, counter));
                            assert(self.covers(peer_id@, counter));
                        }
                        return ;
                    }
                    k = k + 1;
                }
                // Not covered: insert the point and re-merge.
                proof {
                    assert(!ranges_cover(self.ranges@[e as int].1@, counter));
                    assert forall|c: u64| !entries_cover(self.ranges@, peer_id@, c)
                        || ranges_cover(self.ranges@[e as int].1@, c) by {
                        if entries_cover(self.ranges@, peer_id@, c) {
                            let q = choose|q: int| 0 <= q < self.ranges@.len()
                                && self.ranges@[q].0@ == peer_id@ && ranges_cover(
                                self.ranges@[q].1@,
                                c,
                            );
                            assert(q == e);
                        }
                    }
                }
                let name = self.ranges[e].0.clone();
                let mut list = copy_ranges(&self.ranges[e].1);
                let point = Range { peer_id: peer_id.to_owned(), start: counter, end: counter };
                proof {
                    lemma_cover_push(list@, point);
                }
                list.push(point);
                proof {
                    let prev = self.ranges@;
                    let next = prev.update(e as int, (name, list));
                    assert forall|p: Seq<char>, c: u64| entries_cover(next, p, c) == (
                    entries_cover(prev, p, c) || (p == peer_id@ && c == counter)) by {
                        if entries_cover(next, p, c) {
                            let q = choose|q: int| 0 <= q < next.len() && next[q].0@ == p
                                && ranges_cover(next[q].1@, c);
                            if q != e {
                                assert(prev[q].0@ == p && ranges_cover(prev[q].1@, c));
                            }
                        }
                        if entries_cover(prev, p, c) {
                            let q = choose|q: int| 0 <= q < prev.len() && prev[q].0@ == p
                                && ranges_cover(prev[q].1@, c);
                            if q != e {
                                assert(next[q].0@ == p && ranges_cover(next[q].1@, c));
                            } else {
                                assert(ranges_cover(next[e as int].1@, c));
                            }
                        }
                        if p == peer_id@ && c == counter {
                            assert(in_range(point, counter));
                            assert(ranges_cover(next[e as int].1@, c));
                        }
                    }
                }
                self.ranges.set(e, (name, list));
                let ghost mid = *self;
                self.normalize_ranges(peer_id);
                proof {
                    assert forall|i: int, j: int| 0 <= i < j < self.ranges@.len() implies self
                        .ranges@[i].0@ != self.ranges@[j].0@ by {
                        assert(self.ranges@[i].0 == old(self).entries()[i].0);
                        assert(self.ranges@[j].0 == old(self).entries()[j].0);
                    }
                    assert forall|i: int| 0 <= i < self.ranges@.len() implies ranges_wf(
                        (#[trigger] self.ranges@[i]).1@,
                        self.ranges@[i].0@,
                    ) by {
                        assert(self.ranges@[i].0 == old(self).entries()[i].0);
                        if old(self).entries()[i].0@ != peer_id@ {
                            assert(self.ranges@[i].1 == old(self).entries()[i].1);
                        }
                    }
                    assert forall|i: int| 0 <= i < old(self).entries().len() implies (#[trigger]
                    self.ranges@[i]).0@ == old(self).entries()[i].0@ && (old(self).entries()[i].0@
                        != peer_id@ ==> self.ranges@[i].1 == old(self).entries()[i].1) by {
                        assert(self.ranges@[i].0 == mid.entries()[i].0);
                        if i != e {
                            assert(mid.entries()[i] == old(self).entries()[i]);
                            if old(self).entries()[i].0@ != peer_id@ {
                                assert(self.ranges@[i].1 == mid.entries()[i].1);
                            }
                        }
                    }
                }
                return ;
            }
            e = e + 1;
        }
        // No entry for this peer yet: a fresh singleton entry, already in
        // normal form.
        let point = Range { peer_id: peer_id.to_owned(), start: counter, end: counter };
        let mut list: Vec<Range> = Vec::new();
        list.push(point);
        let name = peer_id.to_owned();
        self.ranges.push((name, list));
        proof {
            let prev = old(self).entries();
            let next = self.ranges@;
            assert(next.len() == prev.len() + 1);
            assert(forall|j: int| 0 <= j < prev.len() ==> next[j] == prev[j]);
            assert forall|p: Seq<char>, c: u64| entries_cover(next, p, c) == (entries_cover(
                prev,
                p,
                c,
            ) || (p == peer_id@ && c == counter)) by {
                if entries_cover(next, p, c) {
                    let q = choose|q: int| 0 <= q < next.len() && next[q].0@ == p && ranges_cover(
                        next[q].1@,
                        c,
                    );
                    if q < prev.len() {
                        assert(prev[q].0@ == p && ranges_cover(prev[q].1@, c));
                    } else {
                        let w = choose|w: int| 0 <= w < next[q].1@.len() && in_range(
                            next[q].1@[w],
                            c,
                        );
                        assert(next[q].1@[w] == point);
                    }
                }
                if entries_cover(prev, p, c) {
                    let q = choose|q: int| 0 <= q < prev.len() && prev[q].0@ == p && ranges_cover(
                        prev[q].1@,
                        c,
                    );
                    assert(next[q].0@ == p && ranges_cover(next[q].1@, c));
                }
                if p == peer_id@ && c == counter {
                    assert(in_range(point, counter));
                    assert(next[prev.len() as int].1@[0] == point);
                    assert(ranges_cover(next[prev.len() as int].1@, c));
                }
            }
        }
    }
}

// ---------------------------------------------------------------------------
// Difference
// ---------------------------------------------------------------------------

/// Ranges of the same peer never share a covered counter.
pub open spec fn per_peer_disjoint(rs: Seq<Range>) -> bool {
    forall|i: int, j: int, c: u64|
        #![trigger in_range(rs[i], c), in_range(rs[j], c)]
        0 <= i < j < rs.len() && rs[i].peer_id@ == rs[j].peer_id@ ==> !(in_range(rs[i], c)
            && in_range(rs[j], c))
}

/// The pieces of one range that lie outside another range.
fn subtract_one(piece: &Range, t: &Range) -> (r: Vec<Range>)
    requires
        piece.start <= piece.end,
    ensures
        forall|c: u64| ranges_cover(r@, c) == (in_range(*piece, c) && !in_range(*t, c)),
        forall|i: int| 0 <= i < r@.len() ==> (#[trigger] r@[i]).peer_id@ == piece.peer_id@
            && r@[i].start <= r@[i].end && piece.start <= r@[i].start && r@[i].end <= piece.end,
        ranges_disjoint(r@),
{
    let mut out: Vec<Range> = Vec::new();
    if t.start > t.end || piece.end < t.start || t.end < piece.start {
        // The subtrahend covers nothing of this piece.
        out.push(piece.clone());
        proof {
            assert forall|c: u64| ranges_cover(out@, c) == (in_range(*piece, c) && !in_range(
                *t,
                c,
            )) by {
                if ranges_cover(out@, c) {
                    let kk = choose|kk: int| 0 <= kk < out@.len() && in_range(out@[kk], c);
                    assert(kk == 0);
                }
                if in_range(*piece, c) && !in_range(*t, c) {
                    assert(in_range(out@[0], c));
                }
            }
        }
    } else {
        if piece.start < t.start {
            out.push(
                Range { peer_id: piece.peer_id.clone(), start: piece.start, end: t.start - 1 },
            );
        }
        if piece.end > t.end {
            out.push(Range { peer_id: piece.peer_id.clone(), start: t.end + 1, end: piece.end });
        }
        proof {
            assert forall|c: u64| ranges_cover(out@, c) == (in_range(*piece, c) && !in_range(
                *t,
                c,
            )) by {
                if ranges_cover(out@, c) {
                    let k = choose|k: int| 0 <= k < out@.len() && in_range(out@[k], c);
                }
                if in_range(*piece, c) && !in_range(*t, c) {
                    if c < t.start {
                        assert(in_range(out@[0], c));
                    } else {
                        assert(c > t.end);
                        assert(in_range(out@[out@.len() - 1], c));
                    }
                }
            }
        }
    }
    out
}

/// Remove one range's coverage from a list of disjoint pieces.
fn subtract_from_pieces(pieces: Vec<Range>, t: &Range, Ghost(peer): Ghost<Seq<char>>) -> (r: Vec<
    Range,
>)
    requires
        ranges_shaped(pieces@, peer),
        ranges_disjoint(pieces@),
    ensures
        ranges_shaped(r@, peer),
        ranges_disjoint(r@),
        forall|c: u64| #[trigger] ranges_cover(r@, c) == (ranges_cover(pieces@, c) && !in_range(
            *t,
            c,
        )),
{
    let mut out: Vec<Range> = Vec::new();
    let n = pieces.len();
    let mut k: usize = 0;
    while k < n
        invariant
            k <= n,
            n == pieces@.len(),
            ranges_shaped(pieces@, peer),
            ranges_disjoint(pieces@),
            ranges_shaped(out@, peer),
            ranges_disjoint(out@),
            forall|c: u64| ranges_cover(out@, c) == (ranges_cover(
                pieces@.subrange(0, k as int),
                c,
            ) && !in_range(*t, c)),
            forall|q: int, c: u64| 0 <= q < out@.len() && #[trigger] in_range(out@[q], c)
                ==> ranges_cover(pieces@.subrange(0, k as int), c),
        decreases n - k,
    {
        let ghost prev_out = out@;
        let mut fresh = subtract_one(&pieces[k], t);
        let ghost fresh_s = fresh@;
        out.append(&mut fresh);
        proof {
            let sub_k = pieces@.subrange(0, k as int);
            let sub_k1 = pieces@.subrange(0, (k + 1) as int);
            assert(out@ == prev_out + fresh_s);
            assert(forall|q: int| 0 <= q < prev_out.len() ==> out@[q] == prev_out[q]);
            assert(forall|q: int| 0 <= q < fresh_s.len() ==> out@[prev_out.len() + q]
                == fresh_s[q]);
            assert(forall|q: int| 0 <= q < sub_k.len() ==> sub_k[q] == pieces@[q]);
            assert(forall|q: int| 0 <= q < sub_k1.len() ==> sub_k1[q] == pieces@[q]);
            // Coverage of the concatenation.
            assert forall|c: u64| ranges_cover(out@, c) == (ranges_cover(sub_k1, c) && !in_range(
                *t,
                c,
            )) by {
                if ranges_cover(out@, c) {
                    let q = choose|q: int| 0 <= q < out@.len() && in_range(out@[q], c);
                    if q < prev_out.len() {
                        assert(in_range(prev_out[q], c));
                        assert(ranges_cover(prev_out, c));
                        let w = choose|w: int| 0 <= w < sub_k.len() && in_range(sub_k[w], c);
                        assert(in_range(sub_k1[w], c));
                    } else {
                        assert(in_range(fresh_s[q - prev_out.len()], c));
                        assert(ranges_cover(fresh_s, c));
                        assert(in_range(pieces@[k as int], c));
                        assert(in_range(sub_k1[k as int], c));
                    }
                }
                if ranges_cover(sub_k1, c) && !in_range(*t, c) {
                    let q = choose|q: int| 0 <= q < sub_k1.len() && in_range(sub_k1[q], c);
                    if q < k {
                        assert(in_range(sub_k[q], c));
                        assert(ranges_cover(prev_out, c));
                        let w = choose|w: int| 0 <= w < prev_out.len() && in_range(
                            prev_out[w],
                            c,
                        );
                        assert(in_range(out@[w], c));
                    } else {
                        assert(in_range(pieces@[k as int], c));
                        assert(ranges_cover(fresh_s, c));
                        let w = choose|w: int| 0 <= w < fresh_s.len() && in_range(fresh_s[w], c);
                        assert(in_range(out@[prev_out.len() + w], c));
                    }
                }
            }
            // Every piece still lies inside the processed prefix.
            assert forall|q: int, c: u64| 0 <= q < out@.len() && #[trigger] in_range(
                out@[q],
                c,
            ) implies ranges_cover(sub_k1, c) by {
                if q < prev_out.len() {
                    assert(in_range(prev_out[q], c));
                    let w = choose|w: int| 0 <= w < sub_k.len() && in_range(sub_k[w], c);
                    assert(in_range(sub_k1[w], c));
                } else {
                    assert(in_range(fresh_s[q - prev_out.len()], c));
                    assert(in_range(pieces@[k as int], c));
                    assert(in_range(sub_k1[k as int], c));
                }
            }
            // Disjointness of the concatenation.
            assert forall|a: int, b: int, c: u64|
                #![trigger in_range(out@[a], c), in_range(out@[b], c)]
                0 <= a < b < out@.len() implies !(in_range(out@[a], c) && in_range(
                out@[b],
                c,
            )) by {
                if in_range(out@[a], c) && in_range(out@[b], c) {
                    if b < prev_out.len() {
                        assert(in_range(prev_out[a], c) && in_range(prev_out[b], c));
                    } else if a >= prev_out.len() {
                        assert(in_range(fresh_s[a - prev_out.len()], c) && in_range(
                            fresh_s[b - prev_out.len()],
                            c,
                        ));
                    } else {
                        assert(in_range(prev_out[a], c));
                        assert(ranges_cover(sub_k, c));
                        let w = choose|w: int| 0 <= w < sub_k.len() && in_range(sub_k[w], c);
                        assert(in_range(pieces@[w], c));
                        assert(in_range(fresh_s[b - prev_out.len()], c));
                        assert(in_range(pieces@[k as int], c));
                    }
                }
            }
        }
        k = k + 1;
    }
    proof {
        assert(pieces@.subrange(0, n as int) =~= pieces@);
    }
    out
}

/// Every piece in the output carries the peer of one of the first `i`
/// entries.
pub open spec fn pieces_from_entries(
    out_s: Seq<Range>,
    es: Seq<(String, Vec<Range>)>,
    i: int,
) -> bool {
    forall|q: int| 0 <= q < out_s.len() ==> exists|m: int| 0 <= m < i && (#[trigger] out_s[q])
        .peer_id@ == es[m].0@
}

/// Extending the difference output with the pieces of one more peer keeps
/// the difference equation, validity and per-peer disjointness.
proof fn lemma_diff_extend(
    es: Seq<(String, Vec<Range>)>,
    oes: Seq<(String, Vec<Range>)>,
    prev_out: Seq<Range>,
    pieces_s: Seq<Range>,
    out_s: Seq<Range>,
    i: int,
)
    requires
        0 <= i < es.len(),
        forall|a: int, b: int| 0 <= a < b < es.len() ==> es[a].0@ != es[b].0@,
        out_s == prev_out + pieces_s,
        forall|p: Seq<char>, c: u64| #[trigger] list_covers(prev_out, p, c) == (
        entries_cover_upto(es, i, p, c) && !entries_cover(oes, p, c)),
        forall|q: int| 0 <= q < prev_out.len() ==> (#[trigger] prev_out[q]).start
            <= prev_out[q].end,
        per_peer_disjoint(prev_out),
        pieces_from_entries(prev_out, es, i),
        ranges_shaped(pieces_s, es[i].0@),
        ranges_disjoint(pieces_s),
        forall|c: u64| ranges_cover(pieces_s, c) == (ranges_cover(es[i].1@, c) && !entries_cover(
            oes,
            es[i].0@,
            c,
        )),
    ensures
        forall|p: Seq<char>, c: u64| #[trigger] list_covers(out_s, p, c) == (
        entries_cover_upto(es, i + 1, p, c) && !entries_cover(oes, p, c)),
        forall|q: int| 0 <= q < out_s.len() ==> (#[trigger] out_s[q]).start <= out_s[q].end,
        per_peer_disjoint(out_s),
        pieces_from_entries(out_s, es, i + 1),
{
    let peer = es[i].0@;
    assert(forall|q: int| 0 <= q < prev_out.len() ==> out_s[q] == prev_out[q]);
    assert(forall|q: int| 0 <= q < pieces_s.len() ==> out_s[prev_out.len() + q] == pieces_s[q]);
    assert forall|p: Seq<char>, c: u64| list_covers(out_s, p, c) == (entries_cover_upto(
        es,
        i + 1,
        p,
        c,
    ) && !entries_cover(oes, p, c)) by {
        if list_covers(out_s, p, c) {
            let q = choose|q: int| 0 <= q < out_s.len() && out_s[q].peer_id@ == p && in_range(
                out_s[q],
                c,
            );
            if q < prev_out.len() {
                assert(list_covers(prev_out, p, c));
                let z = choose|z: int| 0 <= z < i && z < es.len() && es[z].0@ == p
                    && ranges_cover(es[z].1@, c);
            } else {
                assert(in_range(pieces_s[q - prev_out.len()], c));
                assert(p == peer);
                assert(ranges_cover(pieces_s, c));
            }
        }
        if entries_cover_upto(es, i + 1, p, c) && !entries_cover(oes, p, c) {
            let z = choose|z: int| 0 <= z < i + 1 && z < es.len() && es[z].0@ == p
                && ranges_cover(es[z].1@, c);
            if z < i {
                assert(entries_cover_upto(es, i, p, c));
                assert(list_covers(prev_out, p, c));
                let w = choose|w: int| 0 <= w < prev_out.len() && prev_out[w].peer_id@ == p
                    && in_range(prev_out[w], c);
                assert(out_s[w].peer_id@ == p && in_range(out_s[w], c));
            } else {
                assert(p == peer);
                assert(ranges_cover(pieces_s, c));
                let w = choose|w: int| 0 <= w < pieces_s.len() && in_range(pieces_s[w], c);
                assert(out_s[prev_out.len() + w].peer_id@ == p && in_range(
                    out_s[prev_out.len() + w],
                    c,
                ));
            }
        }
    }
    assert forall|a: int, b: int, c: u64|
        #![trigger in_range(out_s[a], c), in_range(out_s[b], c)]
        0 <= a < b < out_s.len() && out_s[a].peer_id@ == out_s[b].peer_id@ implies !(in_range(
        out_s[a],
        c,
    ) && in_range(out_s[b], c)) by {
        if in_range(out_s[a], c) && in_range(out_s[b], c) {
            if b < prev_out.len() {
                assert(in_range(prev_out[a], c) && in_range(prev_out[b], c));
            } else if a >= prev_out.len() {
                assert(in_range(pieces_s[a - prev_out.len()], c) && in_range(
                    pieces_s[b - prev_out.len()],
                    c,
                ));
            } else {
                assert(in_range(prev_out[a], c));
                assert(prev_out[a].peer_id@ == peer);
                let mm = choose|mm: int| 0 <= mm < i && (#[trigger] prev_out[a]).peer_id@
                    == es[mm].0@;
                assert(es[mm].0@ == es[i].0@);
                assert(false);
            }
        }
    }
    assert forall|q: int| 0 <= q < out_s.len() implies exists|mm: int| 0 <= mm < i + 1 && (
    #[trigger] out_s[q]).peer_id@ == es[mm].0@ by {
        if q < prev_out.len() {
            let mm = choose|mm: int| 0 <= mm < i && (#[trigger] prev_out[q]).peer_id@
                == es[mm].0@;
            assert(out_s[q].peer_id@ == es[mm].0@);
        } else {
            assert(out_s[q].peer_id@ == es[i].0@);
        }
    }
}

impl StateVector {
    /// Everything this state vector covers that `other` does not: the
    /// directional difference, as valid ranges, pairwise disjoint within
    /// each peer.
    #[verifier::rlimit(100)]
    pub fn diff(&self, other: &StateVector) -> (out: Vec<Range>)
        requires
            self.wf(),
        ensures
            forall|p: Seq<char>, c: u64| #[trigger] list_covers(out@, p, c) == (self.covers(
                p,
                c,
            ) && !other.covers(p, c)),
            forall|i: int| 0 <= i < out@.len() ==> (#[trigger] out@[i]).start <= out@[i].end,
            per_peer_disjoint(out@),
    {
        let mut out: Vec<Range> = Vec::new();
        let n = self.ranges.len();
        let mut i: usize = 0;
        while i < n
            invariant
                i <= n,
                self.wf(),
                n == self.entries().len(),
                forall|p: Seq<char>, c: u64| #[trigger] list_covers(out@, p, c) == (
                entries_cover_upto(self.entries(), i as int, p, c) && !other.covers(p, c)),
                forall|q: int| 0 <= q < out@.len() ==> (#[trigger] out@[q]).start <= out@[q].end,
                per_peer_disjoint(out@),
                pieces_from_entries(out@, self.entries(), i as int),
            decreases n - i,
        {
            let ghost peer = self.entries()[i as int].0@;
            let peer_ref = self_str(&self.ranges[i].0);
            let mut pieces = copy_ranges(&self.ranges[i].1);
            proof {
                lemma_wf_disjoint(pieces@, peer);
            }
            let m = other.ranges.len();
            let mut j: usize = 0;
            while j < m
                invariant
                    j <= m,
                    m == other.entries().len(),
                    peer == self.entries()[i as int].0@,
                    i < self.entries().len(),
                    self.wf(),
                    peer_ref@ == peer,
                    ranges_shaped(pieces@, peer),
                    ranges_disjoint(pieces@),
                    forall|c: u64| ranges_cover(pieces@, c) == (ranges_cover(
                        self.entries()[i as int].1@,
                        c,
                    ) && !entries_cover_upto(other.entries(), j as int, peer, c)),
                decreases m - j,
            {
                let ghost upto_j = other.entries().subrange(0, j as int);
                if str_eq(self_str(&other.ranges[j].0), peer_ref) {
                    let their_list = &other.ranges[j].1;
                    let q = their_list.len();
                    let mut w: usize = 0;
                    while w < q
                        invariant
                            w <= q,
                            j < other.entries().len(),
                            m == other.entries().len(),
                            peer == self.entries()[i as int].0@,
                            i < self.entries().len(),
                            self.wf(),
                            other.entries()[j as int].0@ == peer,
                            q == other.entries()[j as int].1@.len(),
                            ranges_shaped(pieces@, peer),
                            ranges_disjoint(pieces@),
                            forall|c: u64| ranges_cover(pieces@, c) == (ranges_cover(
                                self.entries()[i as int].1@,
                                c,
                            ) && !entries_cover_upto(other.entries(), j as int, peer, c)
                                && !ranges_cover(
                                other.entries()[j as int].1@.subrange(0, w as int),
                                c,
                            )),
                        decreases q - w,
                    {
                        let ghost their = other.entries()[j as int].1@;
                        let ghost held = pieces@;
                        pieces = subtract_from_pieces(
                            pieces,
                            &other.ranges[j].1[w],
                            Ghost(peer),
                        );
                        proof {
                            lemma_cover_push(their.subrange(0, w as int), their[w as int]);
                            assert(their.subrange(0, w as int).push(their[w as int]) =~= their
                                .subrange(0, (w + 1) as int));
                            assert forall|c: u64| ranges_cover(pieces@, c) == (ranges_cover(
                                self.entries()[i as int].1@,
                                c,
                            ) && !entries_cover_upto(other.entries(), j as int, peer, c)
                                && !ranges_cover(their.subrange(0, (w + 1) as int), c)) by {
                                assert(ranges_cover(pieces@, c) == (ranges_cover(held, c)
                                    && !in_range(their[w as int], c)));
                                assert(ranges_cover(their.subrange(0, (w + 1) as int), c) == (
                                ranges_cover(their.subrange(0, w as int), c) || in_range(
                                    their[w as int],
                                    c,
                                )));
                            }
                        }
                        w = w + 1;
                    }
                    proof {
                        let their = other.entries()[j as int].1@;
                        assert(their.subrange(0, q as int) =~= their);
                        assert forall|c: u64| entries_cover_upto(
                            other.entries(),
                            (j + 1) as int,
                            peer,
                            c,
                        ) == (entries_cover_upto(other.entries(), j as int, peer, c)
                            || ranges_cover(their, c)) by {
                            if entries_cover_upto(other.entries(), (j + 1) as int, peer, c) {
                                let z = choose|z: int| 0 <= z < j + 1 && z
                                    < other.entries().len() && other.entries()[z].0@ == peer
                                    && ranges_cover(other.entries()[z].1@, c);
                                if z < j {
                                    assert(entries_cover_upto(
                                        other.entries(),
                                        j as int,
                                        peer,
                                        c,
                                    ));
                                }
                            }
                        }
                    }
                } else {
                    proof {
                        assert forall|c: u64| entries_cover_upto(
                            other.entries(),
                            (j + 1) as int,
                            peer,
                            c,
                        ) == entries_cover_upto(other.entries(), j as int, peer, c) by {
                            if entries_cover_upto(other.entries(), (j + 1) as int, peer, c) {
                                let z = choose|z: int| 0 <= z < j + 1 && z
                                    < other.entries().len() && other.entries()[z].0@ == peer
                                    && ranges_cover(other.entries()[z].1@, c);
                                assert(z != j);
                            }
                        }
                    }
                }
                j = j + 1;
            }
            let ghost prev_out = out@;
            let ghost pieces_s = pieces@;
            proof {
                assert forall|p: Seq<char>, c: u64| #[trigger] list_covers(prev_out, p, c) == (
                entries_cover_upto(self.entries(), i as int, p, c) && !entries_cover(
                    other.entries(),
                    p,
                    c,
                )) by {
                    assert(list_covers(out@, p, c) == (entries_cover_upto(
                        self.entries(),
                        i as int,
                        p,
                        c,
                    ) && !other.covers(p, c)));
                }
                assert forall|c: u64| ranges_cover(pieces_s, c) == (ranges_cover(
                    self.entries()[i as int].1@,
                    c,
                ) && !entries_cover(other.entries(), self.entries()[i as int].0@, c)) by {
                    assert(ranges_cover(pieces@, c) == (ranges_cover(
                        self.entries()[i as int].1@,
                        c,
                    ) && !entries_cover_upto(other.entries(), m as int, peer, c)));
                }
                assert(pieces_from_entries(prev_out, self.entries(), i as int));
            }
            out.append(&mut pieces);
            proof {
                lemma_diff_extend(
                    self.entries(),
                    other.entries(),
                    prev_out,
                    pieces_s,
                    out@,
                    i as int,
                );
            }
            i = i + 1;
        }
        proof {
            assert forall|p: Seq<char>, c: u64| entries_cover_upto(self.entries(), n as int, p, c)
                == self.covers(p, c) by {}
        }
        out
    }
}

} // verus!
