//! Properties of the membership table that relate several calls of `upsert`.

use vstd::prelude::*;

use crate::record::{is_newer, RecordView};
use crate::table::{bump, upsert_all, upsert_map, upsert_outcome, TableView, UpsertOutcome};

verus! {

/// The stored record of `id` after `rs`: either one of `rs`, or the record
/// that was already stored; never older than any of them.
pub open spec fn is_max_of(stored: RecordView, m: TableView, id: Seq<char>, rs: Seq<RecordView>) -> bool {
    &&& (exists|i: int| 0 <= i < rs.len() && stored == rs[i]) || (m.contains_key(id) && stored
        == m[id].record)
    &&& forall|i: int| 0 <= i < rs.len() ==> !is_newer(#[trigger] rs[i], stored)
    &&& m.contains_key(id) ==> !is_newer(m[id].record, stored)
}

/// Monotonic acceptance: whatever the order of a sequence of upserts for
/// one identity, afterwards the stored record carries the greatest
/// `(generation, version)` pair among those submitted (and the one stored
/// before, if any).
pub proof fn lemma_monotonic_acceptance(m: TableView, id: Seq<char>, rs: Seq<RecordView>)
    requires
        rs.len() > 0,
        forall|i: int| 0 <= i < rs.len() ==> (#[trigger] rs[i]).id == id,
    ensures
        upsert_all(m, rs).contains_key(id),
        is_max_of(upsert_all(m, rs)[id].record, m, id, rs),
    decreases rs.len(),
{
    let prefix = rs.drop_last();
    let r = rs.last();
    let before = upsert_all(m, prefix);
    assert(upsert_all(m, rs) == upsert_map(before, r));
    if prefix.len() == 0 {
        assert(before == m);
        if m.contains_key(id) && !is_newer(r, m[id].record) {
            assert(upsert_all(m, rs)[id].record == m[id].record);
        } else {
            assert(upsert_all(m, rs)[id].record == rs[rs.len() - 1]);
        }
    } else {
        lemma_monotonic_acceptance(m, id, prefix);
        let old_stored = before[id].record;
        let stored = upsert_all(m, rs)[id].record;
        assert forall|i: int| 0 <= i < prefix.len() implies #[trigger] rs[i] == prefix[i] by {}
        if is_newer(r, old_stored) {
            assert(stored == rs[rs.len() - 1]);
            assert forall|i: int| 0 <= i < rs.len() implies !is_newer(#[trigger] rs[i], stored) by {
                if i < prefix.len() {
                    assert(!is_newer(prefix[i], old_stored));
                }
            }
        } else {
            assert(stored == old_stored);
            assert forall|i: int| 0 <= i < rs.len() implies !is_newer(#[trigger] rs[i], stored) by {
                if i < prefix.len() {
                    assert(!is_newer(prefix[i], old_stored));
                }
            }
            if exists|i: int| 0 <= i < prefix.len() && old_stored == prefix[i] {
                let i = choose|i: int| 0 <= i < prefix.len() && old_stored == prefix[i];
                assert(stored == rs[i]);
            }
        }
    }
}

/// Out-of-order delivery tolerance: two sequences of upserts for one
/// identity that submit the same records in different orders leave the
/// same `(generation, version)` pair stored.
pub proof fn lemma_order_independent(
    m: TableView,
    id: Seq<char>,
    rs1: Seq<RecordView>,
    rs2: Seq<RecordView>,
)
    requires
        rs1.len() > 0,
        forall|i: int| 0 <= i < rs1.len() ==> (#[trigger] rs1[i]).id == id,
        rs1.to_multiset() == rs2.to_multiset(),
    ensures
        upsert_all(m, rs1)[id].record.generation == upsert_all(m, rs2)[id].record.generation,
        upsert_all(m, rs1)[id].record.version == upsert_all(m, rs2)[id].record.version,
{
    rs1.to_multiset_ensures();
    rs2.to_multiset_ensures();
    assert(rs2.len() == rs2.to_multiset().len());
    assert(rs2.len() == rs1.len());
    assert forall|i: int| 0 <= i < rs2.len() implies (#[trigger] rs2[i]).id == id by {
        assert(rs2.contains(rs2[i]));
        assert(rs2.to_multiset().count(rs2[i]) > 0);
        assert(rs1.contains(rs2[i]));
    }
    lemma_monotonic_acceptance(m, id, rs1);
    lemma_monotonic_acceptance(m, id, rs2);
    let s1 = upsert_all(m, rs1)[id].record;
    let s2 = upsert_all(m, rs2)[id].record;
    if exists|i: int| 0 <= i < rs1.len() && s1 == rs1[i] {
        let i = choose|i: int| 0 <= i < rs1.len() && s1 == rs1[i];
        assert(rs1.contains(rs1[i]));
        assert(rs1.to_multiset().count(s1) > 0);
        assert(rs2.contains(s1));
    }
    if exists|i: int| 0 <= i < rs2.len() && s2 == rs2[i] {
        let i = choose|i: int| 0 <= i < rs2.len() && s2 == rs2[i];
        assert(rs2.contains(rs2[i]));
        assert(rs2.to_multiset().count(s2) > 0);
        assert(rs1.contains(s2));
    }
    assert(!is_newer(s1, s2));
    assert(!is_newer(s2, s1));
}

/// Reject is a no-op: a record whose pair is not greater than the stored
/// one is rejected, leaves every stored record as it was, and raises the
/// received count of its identity by exactly one.
pub proof fn lemma_reject_is_noop(m: TableView, r: RecordView)
    requires
        m.contains_key(r.id),
        !is_newer(r, m[r.id].record),
        m[r.id].received_count < u64::MAX,
    ensures
        upsert_outcome(m, r) == UpsertOutcome::Rejected,
        upsert_map(m, r).dom() == m.dom(),
        forall|k: Seq<char>| #[trigger]
            m.contains_key(k) ==> upsert_map(m, r)[k].record == m[k].record,
        upsert_map(m, r)[r.id].received_count == m[r.id].received_count + 1,
        forall|k: Seq<char>|
            k != r.id && #[trigger] m.contains_key(k) ==> upsert_map(m, r)[k] == m[k],
{
    assert(upsert_map(m, r).dom() =~= m.dom());
    assert(bump(m[r.id].received_count) == m[r.id].received_count + 1);
}

/// Upserts of distinct identities do not disturb each other: after a
/// sequence of upserts with pairwise distinct identities, each identity's
/// entry is what its own upsert alone would have made of it, and every
/// other entry is unchanged.
pub proof fn lemma_distinct_ids_independent(m: TableView, rs: Seq<RecordView>)
    requires
        forall|i: int, j: int| 0 <= i < j < rs.len() ==> rs[i].id != rs[j].id,
    ensures
        forall|i: int|
            0 <= i < rs.len() ==> upsert_all(m, rs).contains_key(#[trigger] rs[i].id)
                && upsert_all(m, rs)[rs[i].id] == upsert_map(m, rs[i])[rs[i].id],
        forall|k: Seq<char>|
            (forall|i: int| 0 <= i < rs.len() ==> rs[i].id != k) ==> (#[trigger] upsert_all(
                m,
                rs,
            ).contains_key(k) == m.contains_key(k) && (m.contains_key(k) ==> upsert_all(m, rs)[k]
                == m[k])),
    decreases rs.len(),
{
    if rs.len() > 0 {
        let prefix = rs.drop_last();
        let r = rs.last();
        lemma_distinct_ids_independent(m, prefix);
        let before = upsert_all(m, prefix);
        assert(upsert_all(m, rs) == upsert_map(before, r));
        assert forall|i: int| 0 <= i < prefix.len() implies #[trigger] rs[i] == prefix[i] by {}
        assert(forall|i: int| 0 <= i < prefix.len() ==> prefix[i].id != r.id);
        assert(before.contains_key(r.id) == m.contains_key(r.id));
        assert(m.contains_key(r.id) ==> before[r.id] == m[r.id]);
        assert forall|i: int| 0 <= i < rs.len() implies upsert_all(m, rs).contains_key(
            #[trigger] rs[i].id,
        ) && upsert_all(m, rs)[rs[i].id] == upsert_map(m, rs[i])[rs[i].id] by {
            if i < prefix.len() {
                assert(prefix[i].id != r.id);
                assert(before.contains_key(prefix[i].id));
            }
        }
    }
}

} // verus!
