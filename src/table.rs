use vstd::prelude::*;

use crate::record::{is_newer, HeartBeat, RecordView};

verus! {

/// Mathematical model of one table entry: the freshest record known for an
/// identity, and how many receptions since then did not advance it.
pub ghost struct EntryView {
    pub record: RecordView,
    pub received_count: u64,
}

/// What `upsert` did with a candidate record.
#[derive(Debug, Clone, Copy, PartialEq, Eq, Structural)]
pub enum UpsertOutcome {
    /// The record was stored; `newly_seen` tells whether its identity was unknown before.
    Accepted { newly_seen: bool },
    /// The record was not newer than the stored one and was not stored.
    Rejected,
}

/// The model of a whole table: identity to entry.
pub type TableView = Map<Seq<char>, EntryView>;

/// The views of a sequence of strings.
pub open spec fn views_of(v: Seq<String>) -> Seq<Seq<char>> {
    v.map_values(|s: String| s@)
}

/// One more, unless the counter is already at its largest value.
pub open spec fn bump(c: u64) -> u64 {
    if c < u64::MAX {
        (c + 1) as u64
    } else {
        c
    }
}

/// The outcome of offering record `r` to a table with contents `m`.
pub open spec fn upsert_outcome(m: TableView, r: RecordView) -> UpsertOutcome {
    if !m.contains_key(r.id) {
        UpsertOutcome::Accepted { newly_seen: true }
    } else if is_newer(r, m[r.id].record) {
        UpsertOutcome::Accepted { newly_seen: false }
    } else {
        UpsertOutcome::Rejected
    }
}

/// The contents of the table after offering record `r` to contents `m`.
pub open spec fn upsert_map(m: TableView, r: RecordView) -> TableView {
    match upsert_outcome(m, r) {
        UpsertOutcome::Accepted { .. } => m.insert(r.id, EntryView { record: r, received_count: 0 }),
        UpsertOutcome::Rejected => m.insert(
            r.id,
            EntryView { record: m[r.id].record, received_count: bump(m[r.id].received_count) },
        ),
    }
}

/// The contents after offering each of `rs` in turn, starting from `m`.
pub open spec fn upsert_all(m: TableView, rs: Seq<RecordView>) -> TableView
    decreases rs.len(),
{
    if rs.len() == 0 {
        m
    } else {
        upsert_map(upsert_all(m, rs.drop_last()), rs.last())
    }
}

/// The set of addresses held by the entries of `m`.
pub open spec fn known_addresses(m: TableView) -> Set<Seq<char>> {
    Set::new(|a: Seq<char>| exists|k: Seq<char>| m.contains_key(k) && m[k].record.address == a)
}

/// The number of rejected receptions recorded for `id`, zero when it is unknown.
pub open spec fn received_count_of(m: TableView, id: Seq<char>) -> u64 {
    if m.contains_key(id) {
        m[id].received_count
    } else {
        0
    }
}

struct Entry {
    record: HeartBeat,
    received_count: u64,
}

impl Entry {
    spec fn view(&self) -> EntryView {
        EntryView { record: self.record@, received_count: self.received_count }
    }
}

/// The store of the latest known record per node identity, together with
/// the bootstrap addresses of peers that may not have been heard from yet.
pub struct MembershipTable {
    entries: Vec<Entry>,
    contents: Ghost<TableView>,
    bootstrap: Vec<String>,
}

impl View for MembershipTable {
    type V = TableView;

    closed spec fn view(&self) -> TableView {
        self.contents@
    }
}

impl MembershipTable {
    /// The bootstrap addresses.
    pub closed spec fn bootstrap_addresses(&self) -> Set<Seq<char>> {
        views_of(self.bootstrap@).to_set()
    }

    /// Every address the table knows: those of its entries and the bootstrap ones.
    pub open spec fn peer_addresses(&self) -> Set<Seq<char>> {
        known_addresses(self@).union(self.bootstrap_addresses())
    }

    /// Well-formedness: one entry per identity, each matching the model, and
    /// no bootstrap address twice.
    pub closed spec fn wf(&self) -> bool {
        &&& views_of(self.bootstrap@).no_duplicates()
        &&& forall|i: int, j: int|
            0 <= i < j < self.entries.len() ==> self.entries@[i].record.id@
                != self.entries@[j].record.id@
        &&& forall|i: int|
            0 <= i < self.entries.len() ==> self.contents@.contains_key(
                #[trigger] self.entries@[i].record.id@,
            ) && self.contents@[self.entries@[i].record.id@] == self.entries@[i].view()
        &&& forall|k: Seq<char>|
            #[trigger] self.contents@.contains_key(k) ==> exists|i: int|
                0 <= i < self.entries.len() && #[trigger] self.entries@[i].record.id@ == k
    }

    /// An empty table.
    pub fn new() -> (r: MembershipTable)
        ensures
            r.wf(),
            r@ == Map::<Seq<char>, EntryView>::empty(),
            r.bootstrap_addresses() == Set::<Seq<char>>::empty(),
    {
        let r = MembershipTable {
            entries: Vec::new(),
            contents: Ghost(Map::empty()),
            bootstrap: Vec::new(),
        };
        assert(views_of(r.bootstrap@).to_set() =~= Set::<Seq<char>>::empty());
        r
    }

    fn find(&self, id: &String) -> (r: Option<usize>)
        requires
            self.wf(),
        ensures
            match r {
                Some(i) => i < self.entries.len() && self.entries@[i as int].record.id@ == id@
                    && self@.contains_key(id@),
                None => !self@.contains_key(id@),
            },
    {
        let mut i: usize = 0;
        while i < self.entries.len()
            invariant
                self.wf(),
                i <= self.entries.len(),
                forall|j: int| 0 <= j < i ==> self.entries@[j].record.id@ != id@,
            decreases self.entries.len() - i,
        {
            if self.entries[i].record.id == *id {
                assert(self.contents@.contains_key(self.entries@[i as int].record.id@));
                return Some(i);
            }
            i = i + 1;
        }
        None
    }

    /// The stored record for `id`, if any.
    pub fn get(&self, id: &String) -> (r: Option<HeartBeat>)
        requires
            self.wf(),
        ensures
            r.is_some() == self@.contains_key(id@),
            r.is_some() ==> r.unwrap()@ == self@[id@].record,
    {
        match self.find(id) {
            Some(i) => Some(self.entries[i].record.clone()),
            None => None,
        }
    }

    /// How many receptions for `id` since its last accepted record did not
    /// advance it; zero for an unknown identity.
    pub fn get_received_count(&self, id: &String) -> (r: u64)
        requires
            self.wf(),
        ensures
            r == received_count_of(self@, id@),
    {
        match self.find(id) {
            Some(i) => self.entries[i].received_count,
            None => 0,
        }
    }

    /// Offers a record: it is stored when its identity is unknown or its
    /// `(generation, version)` is strictly greater than the stored one's;
    /// otherwise the stored record stays and its received count goes up.
    pub fn upsert(&mut self, candidate: HeartBeat) -> (r: UpsertOutcome)
        requires
            old(self).wf(),
        ensures
            final(self).wf(),
            final(self).bootstrap_addresses() == old(self).bootstrap_addresses(),
            r == upsert_outcome(old(self)@, candidate@),
            final(self)@ == upsert_map(old(self)@, candidate@),
            r == UpsertOutcome::Rejected ==> final(self)@[candidate@.id].record == old(
                self,
            )@[candidate@.id].record && final(self)@[candidate@.id].received_count == bump(
                old(self)@[candidate@.id].received_count,
            ),
    {
        let ghost id = candidate.id@;
        match self.find(&candidate.id) {
            None => {
                let ghost e = EntryView { record: candidate@, received_count: 0 };
                self.entries.push(Entry { record: candidate, received_count: 0 });
                self.contents = Ghost(self.contents@.insert(id, e));
                assert forall|k: Seq<char>| #[trigger] self.contents@.contains_key(k) implies exists|
                    i: int,
                | 0 <= i < self.entries.len() && #[trigger] self.entries@[i].record.id@ == k by {
                    if k != id {
                        assert(old(self).contents@.contains_key(k));
                        let i = choose|i: int|
                            0 <= i < old(self).entries.len() && #[trigger] old(
                                self,
                            ).entries@[i].record.id@ == k;
                        assert(self.entries@[i] == old(self).entries@[i]);
                    } else {
                        assert(self.entries@[self.entries.len() - 1].record.id@ == k);
                    }
                }
                UpsertOutcome::Accepted { newly_seen: true }
            },
            Some(i) => {
                if candidate.is_newer_than(&self.entries[i].record) {
                    let ghost e = EntryView { record: candidate@, received_count: 0 };
                    self.entries.set(i, Entry { record: candidate, received_count: 0 });
                    self.contents = Ghost(self.contents@.insert(id, e));
                    assert forall|k: Seq<char>| #[trigger] self.contents@.contains_key(k) implies exists|
                        j: int,
                    | 0 <= j < self.entries.len() && #[trigger] self.entries@[j].record.id@ == k by {
                        let j = choose|j: int|
                            0 <= j < old(self).entries.len() && #[trigger] old(
                                self,
                            ).entries@[j].record.id@ == k;
                        assert(self.entries@[j].record.id@ == k);
                    }
                    UpsertOutcome::Accepted { newly_seen: false }
                } else {
                    let count = self.entries[i].received_count;
                    let bumped = count.saturating_add(1);
                    let record = self.entries[i].record.clone();
                    let ghost e = EntryView { record: record@, received_count: bumped };
                    self.entries.set(i, Entry { record, received_count: bumped });
                    self.contents = Ghost(self.contents@.insert(id, e));
                    assert forall|k: Seq<char>| #[trigger] self.contents@.contains_key(k) implies exists|
                        j: int,
                    | 0 <= j < self.entries.len() && #[trigger] self.entries@[j].record.id@ == k by {
                        let j = choose|j: int|
                            0 <= j < old(self).entries.len() && #[trigger] old(
                                self,
                            ).entries@[j].record.id@ == k;
                        assert(self.entries@[j].record.id@ == k);
                    }
                    UpsertOutcome::Rejected
                }
            },
        }
    }
    /// The entry stored under an identity holds a record of that identity.
    pub proof fn lemma_key_is_id(&self, id: Seq<char>)
        requires
            self.wf(),
            self@.contains_key(id),
        ensures
            self@[id].record.id == id,
    {
        let i = choose|i: int| 0 <= i < self.entries.len() && #[trigger] self.entries@[i].record.id@ == id;
    }

    /// Adds a bootstrap address, unless the table already knows it.
    pub fn seed(&mut self, address: String)
        requires
            old(self).wf(),
        ensures
            final(self).wf(),
            final(self)@ == old(self)@,
            final(self).peer_addresses() == old(self).peer_addresses().insert(address@),
            final(self).bootstrap_addresses() == (if old(self).peer_addresses().contains(address@) {
                old(self).bootstrap_addresses()
            } else {
                old(self).bootstrap_addresses().insert(address@)
            }),
    {
        let known = self.snapshot_addresses();
        if !contains_string(&known, &address) {
            let ghost before = self.bootstrap@;
            assert(!views_of(before).contains(address@)) by {
                assert(!views_of(known@).to_set().contains(address@));
            }
            self.bootstrap.push(address);
            proof {
                lemma_push_view(before, self.bootstrap@);
            }
        } else {
            assert(views_of(known@).to_set().contains(address@));
        }
        assert(self.peer_addresses() =~= old(self).peer_addresses().insert(address@));
    }

    /// Every known address once: those of the entries, the local node's
    /// included, and the bootstrap ones.
    pub fn snapshot_addresses(&self) -> (r: Vec<String>)
        requires
            self.wf(),
        ensures
            views_of(r@).no_duplicates(),
            views_of(r@).to_set() == self.peer_addresses(),
    {
        let mut out = self.entry_addresses();
        let mut i: usize = 0;
        while i < self.bootstrap.len()
            invariant
                self.wf(),
                i <= self.bootstrap.len(),
                views_of(out@).no_duplicates(),
                views_of(out@).to_set() == known_addresses(self@).union(
                    views_of(self.bootstrap@).take(i as int).to_set(),
                ),
            decreases self.bootstrap.len() - i,
        {
            let ghost before = out@;
            let ghost taken = views_of(self.bootstrap@).take(i as int);
            let address = &self.bootstrap[i];
            assert(views_of(self.bootstrap@).take(i + 1) =~= taken.push(address@));
            proof {
                taken.lemma_push_to_set_commute(address@);
            }
            if !contains_string(&out, address) {
                out.push(address.clone());
                proof {
                    lemma_push_view(before, out@);
                }
            } else {
                assert(views_of(before).to_set().contains(address@));
            }
            assert(views_of(out@).to_set() =~= known_addresses(self@).union(
                views_of(self.bootstrap@).take(i + 1).to_set(),
            ));
            i = i + 1;
        }
        assert(views_of(self.bootstrap@).take(i as int) =~= views_of(self.bootstrap@));
        out
    }

    /// The distinct addresses of the entries.
    fn entry_addresses(&self) -> (r: Vec<String>)
        requires
            self.wf(),
        ensures
            views_of(r@).no_duplicates(),
            views_of(r@).to_set() == known_addresses(self@),
    {
        let mut out: Vec<String> = Vec::new();
        let mut i: usize = 0;
        while i < self.entries.len()
            invariant
                self.wf(),
                i <= self.entries.len(),
                views_of(out@).no_duplicates(),
                forall|j: int|
                    #![trigger out@[j]]
                    0 <= j < out.len() ==> exists|k: int|
                        0 <= k < i && #[trigger] self.entries@[k].record.address@ == out@[j]@,
                forall|k: int|
                    0 <= k < i ==> views_of(out@).contains(
                        #[trigger] self.entries@[k].record.address@,
                    ),
            decreases self.entries.len() - i,
        {
            let address = &self.entries[i].record.address;
            if !contains_string(&out, address) {
                let ghost before = out@;
                out.push(address.clone());
                assert(views_of(out@) == views_of(before).push(address@));
                assert(forall|j: int| 0 <= j < before.len() ==> out@[j] == before[j]);
                assert(views_of(out@)[before.len() as int] == address@);
                assert forall|x: Seq<char>| views_of(before).contains(x) implies views_of(
                    out@,
                ).contains(x) by {
                    let j = choose|j: int| 0 <= j < before.len() && views_of(before)[j] == x;
                    assert(views_of(out@)[j] == x);
                }
            }
            assert(views_of(out@).contains(self.entries@[i as int].record.address@));
            i = i + 1;
        }
        let ghost addrs = known_addresses(self@);
        assert forall|a: Seq<char>| views_of(out@).to_set().contains(a) <==> addrs.contains(a) by {
            if views_of(out@).contains(a) {
                let j = choose|j: int| 0 <= j < out.len() && views_of(out@)[j] == a;
                let k = choose|k: int|
                    0 <= k < self.entries.len() && #[trigger] self.entries@[k].record.address@
                        == out@[j]@;
                let id = self.entries@[k].record.id@;
                assert(self.contents@.contains_key(id));
            }
            if addrs.contains(a) {
                let id = choose|id: Seq<char>|
                    self.contents@.contains_key(id) && self.contents@[id].record.address == a;
                let k = choose|k: int|
                    0 <= k < self.entries.len() && #[trigger] self.entries@[k].record.id@ == id;
                assert(views_of(out@).contains(self.entries@[k].record.address@));
            }
        }
        assert(views_of(out@).to_set() =~= addrs);
        out
    }
}

/// Pushing one string that is not yet there keeps the views free of
/// duplicates and adds its view to their set.
proof fn lemma_push_view(before: Seq<String>, after: Seq<String>)
    requires
        after.len() == before.len() + 1,
        forall|j: int| 0 <= j < before.len() ==> after[j] == before[j],
        views_of(before).no_duplicates(),
        !views_of(before).contains(after[before.len() as int]@),
    ensures
        views_of(after).no_duplicates(),
        views_of(after).to_set() == views_of(before).to_set().insert(after[before.len() as int]@),
{
    let x = after[before.len() as int]@;
    assert(views_of(after) =~= views_of(before).push(x));
    views_of(before).lemma_push_to_set_commute(x);
}

/// Whether `v` holds a string equal to `s`.
fn contains_string(v: &Vec<String>, s: &String) -> (r: bool)
    ensures
        r == views_of(v@).contains(s@),
{
    let mut i: usize = 0;
    while i < v.len()
        invariant
            i <= v.len(),
            forall|j: int| 0 <= j < i ==> v@[j]@ != s@,
        decreases v.len() - i,
    {
        if v[i] == *s {
            assert(views_of(v@)[i as int] == s@);
            return true;
        }
        i = i + 1;
    }
    false
}

} // verus!
