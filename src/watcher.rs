use vstd::prelude::*;

use crate::record::{HeartBeat, RecordView};
use crate::selector::select_random_n_strings;
use crate::table::{
    known_addresses, received_count_of, upsert_map, upsert_outcome, views_of,
    EntryView, MembershipTable, TableView, UpsertOutcome,
};

verus! {

/// Mathematical model of a `Watcher`.
pub ghost struct WatcherView {
    pub node: RecordView,
    pub table: TableView,
    pub bootstrap: Set<Seq<char>>,
    pub gossip_interval: u64,
    pub fanout: usize,
}

/// Owns the local node's record, the membership table, the heartbeat
/// interval and the gossip fanout, and makes the decisions of the heartbeat
/// emitter and of the gossip receiver.
pub struct Watcher {
    node: HeartBeat,
    node_info_table: MembershipTable,
    gossip_interval: u64,
    gossip_to_n_nodes: usize,
}

impl View for Watcher {
    type V = WatcherView;

    closed spec fn view(&self) -> WatcherView {
        WatcherView {
            node: self.node@,
            table: self.node_info_table@,
            bootstrap: self.node_info_table.bootstrap_addresses(),
            gossip_interval: self.gossip_interval,
            fanout: self.gossip_to_n_nodes,
        }
    }
}

/// Every address a watcher knows: those of its table's entries and its
/// bootstrap addresses.
pub open spec fn peers(w: WatcherView) -> Set<Seq<char>> {
    known_addresses(w.table).union(w.bootstrap)
}

/// The record the emitter advances: the table's own entry for the local
/// node, or the configured record when the table has none.
pub open spec fn own_record(w: WatcherView) -> RecordView {
    if w.table.contains_key(w.node.id) {
        w.table[w.node.id].record
    } else {
        w.node
    }
}

/// The heartbeat that follows `base`: same identity, address and
/// generation, the next version, the given status and emission time.
pub open spec fn next_heartbeat(base: RecordView, status: Seq<char>, timestamp: u64) -> RecordView {
    RecordView {
        id: base.id,
        address: base.address,
        generation: base.generation,
        version: (base.version + 1) as u64,
        status: status,
        timestamp: timestamp,
    }
}

/// `targets` is a valid fanout drawn from the addresses `known`: at most
/// `fanout` of them, all distinct, as many as there are when fewer.
pub open spec fn valid_targets(targets: Seq<String>, known: Set<Seq<char>>, fanout: usize) -> bool {
    &&& targets.len() == (if fanout < known.len() {
        fanout as int
    } else {
        known.len() as int
    })
    &&& views_of(targets).no_duplicates()
    &&& forall|a: Seq<char>| views_of(targets).contains(a) ==> known.contains(a)
}

impl Watcher {
    /// Well-formedness of the table.
    pub closed spec fn wf(&self) -> bool {
        self.node_info_table.wf()
    }

    /// A watcher for `node`, whose table holds the node's own record and
    /// knows every seed address.
    pub fn new(
        node: HeartBeat,
        seed_node_addresses: Vec<String>,
        gossip_interval: u64,
        gossip_to_n_nodes: usize,
    ) -> (r: Watcher)
        ensures
            r.wf(),
            r@.node == node@,
            r@.table == map![node@.id => EntryView { record: node@, received_count: 0 }],
            peers(r@) == set![node@.address].union(views_of(seed_node_addresses@).to_set()),
            forall|i: int|
                0 <= i < seed_node_addresses@.len() ==> peers(r@).contains(
                    #[trigger] seed_node_addresses@[i]@,
                ),
            r@.gossip_interval == gossip_interval,
            r@.fanout == gossip_to_n_nodes,
    {
        let mut table = MembershipTable::new();
        let _ = table.upsert(node.clone());
        assert(table@ =~= map![node@.id => EntryView { record: node@, received_count: 0 }]);
        let ghost start = table@;
        assert(table.peer_addresses() =~= set![node@.address]) by {
            assert(table@.contains_key(node@.id));
            assert(known_addresses(table@).contains(node@.address));
            assert forall|a: Seq<char>| known_addresses(table@).contains(a) implies a == node@.address by {
                let k = choose|k: Seq<char>| table@.contains_key(k) && table@[k].record.address == a;
                assert(k == node@.id);
            }
        }
        let mut i: usize = 0;
        while i < seed_node_addresses.len()
            invariant
                table.wf(),
                i <= seed_node_addresses.len(),
                table@ == start,
                table.peer_addresses() == set![node@.address].union(
                    views_of(seed_node_addresses@).take(i as int).to_set(),
                ),
            decreases seed_node_addresses.len() - i,
        {
            let ghost taken = views_of(seed_node_addresses@).take(i as int);
            let ghost x = seed_node_addresses@[i as int]@;
            table.seed(seed_node_addresses[i].clone());
            assert(views_of(seed_node_addresses@).take(i + 1) =~= taken.push(x));
            proof {
                taken.lemma_push_to_set_commute(x);
            }
            assert(table.peer_addresses() =~= set![node@.address].union(
                views_of(seed_node_addresses@).take(i + 1).to_set(),
            ));
            i = i + 1;
        }
        assert(views_of(seed_node_addresses@).take(i as int) =~= views_of(seed_node_addresses@));
        assert forall|i: int| 0 <= i < seed_node_addresses@.len() implies table.peer_addresses().contains(
            #[trigger] seed_node_addresses@[i]@,
        ) by {
            assert(views_of(seed_node_addresses@)[i] == seed_node_addresses@[i]@);
        }
        Watcher { node, node_info_table: table, gossip_interval, gossip_to_n_nodes }
    }

    /// The local node's configured record.
    pub fn node(&self) -> (r: &HeartBeat)
        ensures
            r@ == self@.node,
    {
        &self.node
    }

    /// The membership table.
    pub fn table(&self) -> (r: &MembershipTable)
        requires
            self.wf(),
        ensures
            r.wf(),
            r@ == self@.table,
            r.bootstrap_addresses() == self@.bootstrap,
    {
        &self.node_info_table
    }

    /// Seconds between two heartbeats.
    pub fn gossip_interval(&self) -> (r: u64)
        ensures
            r == self@.gossip_interval,
    {
        self.gossip_interval
    }

    /// How many peers each heartbeat and each forward goes to.
    pub fn gossip_to_n_nodes(&self) -> (r: usize)
        ensures
            r == self@.fanout,
    {
        self.gossip_to_n_nodes
    }

    /// The received count of `id` in the table: what the forwarding
    /// probability of a record for `id` is computed from.
    pub fn received_count(&self, id: &String) -> (r: u64)
        requires
            self.wf(),
        ensures
            r == received_count_of(self@.table, id@),
    {
        self.node_info_table.get_received_count(id)
    }

    /// The local status is carried by the configured record; there is
    /// nothing to update beyond it.
    pub fn update_status() -> (r: Result<(), String>)
        ensures
            r.is_ok(),
    {
        Ok(())
    }

    fn pick_targets(&self) -> (r: Vec<String>)
        requires
            self.wf(),
        ensures
            valid_targets(r@, peers(self@), self@.fanout),
    {
        let addresses = self.node_info_table.snapshot_addresses();
        proof {
            views_of(addresses@).unique_seq_to_set();
        }
        select_random_n_strings(addresses, self.gossip_to_n_nodes)
    }

    /// One tick of the heartbeat emitter: reads the local node's record
    /// from the table, stores its successor (next version, the configured
    /// status, the given time), and returns it with the peers to send it
    /// to. Returns `None`, changing nothing, once the version is exhausted.
    pub fn heartbeat_tick(&mut self, timestamp: u64) -> (r: Option<(HeartBeat, Vec<String>)>)
        requires
            old(self).wf(),
        ensures
            final(self).wf(),
            final(self)@.node == old(self)@.node,
            final(self)@.bootstrap == old(self)@.bootstrap,
            final(self)@.gossip_interval == old(self)@.gossip_interval,
            final(self)@.fanout == old(self)@.fanout,
            own_record(old(self)@).version == u64::MAX ==> r.is_none() && final(self)@ == old(
                self,
            )@,
            own_record(old(self)@).version < u64::MAX ==> r.is_some(),
            r matches Some((h, t)) ==> {
                &&& h@ == next_heartbeat(
                    own_record(old(self)@),
                    old(self)@.node.status,
                    timestamp,
                )
                &&& upsert_outcome(old(self)@.table, h@) != UpsertOutcome::Rejected
                &&& final(self)@.table == upsert_map(old(self)@.table, h@)
                &&& final(self)@.table[h@.id].record == h@
                &&& final(self)@.table[h@.id].record.version == own_record(old(self)@).version
                    + 1
                &&& old(self)@.table.contains_key(old(self)@.node.id) ==> h@.version
                    == old(self)@.table[old(self)@.node.id].record.version + 1
                &&& valid_targets(t@, peers(final(self)@), final(self)@.fanout)
            },
    {
        let base = match self.node_info_table.get(&self.node.id) {
            Some(stored) => stored,
            None => self.node.clone(),
        };
        if base.version == u64::MAX {
            return None;
        }
        let heartbeat = HeartBeat {
            id: base.id,
            address: base.address,
            generation: base.generation,
            version: base.version + 1,
            status: self.node.status.clone(),
            timestamp,
        };
        proof {
            if self.node_info_table@.contains_key(self.node@.id) {
                self.node_info_table.lemma_key_is_id(self.node@.id);
            }
        }
        let _ = self.node_info_table.upsert(heartbeat.clone());
        let targets = self.pick_targets();
        Some((heartbeat, targets))
    }

    /// One step of the gossip receiver for a record that came in: offers it
    /// to the table and, when the table accepted it and `forward` holds,
    /// returns the peers to forward it to. `forward` is the draw against the
    /// decayed forwarding probability of the record's received count as it
    /// stood before this call.
    pub fn gossip_step(&mut self, heartbeat: HeartBeat, forward: bool) -> (r: Option<Vec<String>>)
        requires
            old(self).wf(),
        ensures
            final(self).wf(),
            final(self)@.node == old(self)@.node,
            final(self)@.bootstrap == old(self)@.bootstrap,
            final(self)@.gossip_interval == old(self)@.gossip_interval,
            final(self)@.fanout == old(self)@.fanout,
            final(self)@.table == upsert_map(old(self)@.table, heartbeat@),
            r.is_some() == (forward && upsert_outcome(old(self)@.table, heartbeat@)
                != UpsertOutcome::Rejected),
            r matches Some(t) ==> valid_targets(t@, peers(final(self)@), final(self)@.fanout),
    {
        let outcome = self.node_info_table.upsert(heartbeat);
        match outcome {
            UpsertOutcome::Rejected => None,
            UpsertOutcome::Accepted { .. } => {
                if forward {
                    Some(self.pick_targets())
                } else {
                    None
                }
            },
        }
    }
}

/// Configuration of a service wrapper.
pub struct MuckConfig {
    pub name: String,
}

/// A service: its configuration and the watcher it runs.
pub struct Muck {
    pub config: MuckConfig,
    pub watcher: Watcher,
}

} // verus!
