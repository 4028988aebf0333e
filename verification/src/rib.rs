//! A mutable routing table with attribute interning.

use crate::prefix::{
    host_net, key_covers, lists_keys, longest_cover, trie_exact, trie_insert, trie_iter, trie_longest, trie_new,
    trie_remove, trie_slots, Address, Net, Prefix, PrefixKey,
};
use crate::rpki::RpkiState;
use crate::time::Instant;
use indexmap::IndexSet;
use ipnet_trie::IpnetTrie;
use std::collections::hash_map::RandomState;
use std::collections::HashMap;
use vstd::prelude::*;

verus! {

broadcast use vstd::std_specs::hash::group_hash_axioms;

/// Interned identifier of an AS path or a community list.
pub type AttrId = u32;

// ---- interning ----

/// `indexmap::IndexSet`.
#[verifier::external_type_specification]
#[verifier::external_body]
#[verifier::reject_recursive_types(T)]
#[verifier::reject_recursive_types(S)]
pub struct ExIndexSet<T, S>(IndexSet<T, S>);

/// The lists that an index set holds, each at its index.
pub uninterp spec fn interned(s: IndexSet<Vec<u32>, RandomState>) -> Seq<Seq<u32>>;

/// `IndexSet::new`: a set without entries.
#[verifier::external_body]
fn index_set_new() -> (r: IndexSet<Vec<u32>, RandomState>)
    ensures
        interned(r).len() == 0,
{
    IndexSet::new()
}

/// `IndexSet::get_index_of`: the index of an equal list, where the set holds one.
#[verifier::external_body]
fn index_set_find(s: &IndexSet<Vec<u32>, RandomState>, values: &[u32]) -> (r: Option<usize>)
    ensures
        match r {
            Some(i) => i < interned(*s).len() && interned(*s)[i as int] == values@,
            None => !interned(*s).contains(values@),
        },
{
    s.get_index_of(values)
}

/// `IndexSet::insert_full`: a list that the set does not hold goes behind the others; one that
/// it holds changes nothing. The result is the list's index.
#[verifier::external_body]
fn index_set_insert(s: &mut IndexSet<Vec<u32>, RandomState>, values: Vec<u32>) -> (r: usize)
    ensures
        interned(*old(s)).contains(values@) ==> interned(*final(s)) == interned(*old(s)),
        !interned(*old(s)).contains(values@) ==> interned(*final(s)) == interned(*old(s)).push(
            values@,
        ),
        r < interned(*final(s)).len(),
        interned(*final(s))[r as int] == values@,
{
    s.insert_full(values).0
}

/// `IndexSet::get_index`: the list at an index, where there is one.
#[verifier::external_body]
fn index_set_get(s: &IndexSet<Vec<u32>, RandomState>, i: usize) -> (r: Option<&Vec<u32>>)
    ensures
        match r {
            Some(v) => i < interned(*s).len() && v@ == interned(*s)[i as int],
            None => i >= interned(*s).len(),
        },
{
    s.get_index(i)
}

/// `IndexSet::len`: the number of lists.
#[verifier::external_body]
fn index_set_len(s: &IndexSet<Vec<u32>, RandomState>) -> (r: usize)
    ensures
        r == interned(*s).len(),
{
    s.len()
}

/// Keeps equal AS paths, and equal community lists, once each under a number.
pub struct AttributeInterner {
    as_paths: IndexSet<Vec<u32>, RandomState>,
    communities: IndexSet<Vec<u32>, RandomState>,
}

/// The number that a list gets in `known`: its index there, or the next one.
pub open spec fn intern_index(known: Seq<Seq<u32>>, values: Seq<u32>) -> int {
    if known.contains(values) {
        known.index_of(values)
    } else {
        known.len() as int
    }
}

/// `known` with `values` behind it, unless it holds `values`.
pub open spec fn intern_into(known: Seq<Seq<u32>>, values: Seq<u32>) -> Seq<Seq<u32>> {
    if known.contains(values) {
        known
    } else {
        known.push(values)
    }
}

fn intern(set: &mut IndexSet<Vec<u32>, RandomState>, values: &[u32]) -> (r: AttrId)
    requires
        interned(*old(set)).no_duplicates(),
    ensures
        interned(*final(set)) == intern_into(interned(*old(set)), values@),
        interned(*final(set)).no_duplicates(),
        r == intern_index(interned(*old(set)), values@) as u32,
{
    let ghost known = interned(*set);
    match index_set_find(set, values) {
        Some(idx) => {
            proof {
                let j = known.index_of(values@);
                assert(known[idx as int] == values@);
                assert(known.contains(values@));
                assert(known[j] == values@ && 0 <= j < known.len());
                assert(j == idx);
            }
            #[verifier::truncate]
            (idx as AttrId)
        },
        None => {
            let copy = crate::rib::copy_u32(values);
            let idx: usize = index_set_insert(set, copy);
            proof {
                let now = interned(*set);
                assert(now == known.push(values@));
                if idx < known.len() {
                    assert(known[idx as int] == values@);
                    assert(known.contains(values@));
                }
                assert forall|i: int, j: int| 0 <= i < now.len() && 0 <= j < now.len() && i
                    != j implies now[i] != now[j] by {
                    if i == known.len() {
                        assert(known.contains(known[j]));
                    }
                    if j == known.len() {
                        assert(known.contains(known[i]));
                    }
                }
            }
            #[verifier::truncate]
            (idx as AttrId)
        },
    }
}

/// A copy of a list of numbers.
pub fn copy_u32(values: &[u32]) -> (r: Vec<u32>)
    ensures
        r@ == values@,
{
    let mut out: Vec<u32> = Vec::new();
    let mut i: usize = 0;
    while i < values.len()
        invariant
            i <= values.len(),
            out@ == values@.subrange(0, i as int),
        decreases values.len() - i,
    {
        out.push(values[i]);
        i += 1;
        assert(out@ =~= values@.subrange(0, i as int));
    }
    assert(out@ =~= values@);
    out
}

impl AttributeInterner {
    /// The AS paths, each at its number.
    pub closed spec fn paths(&self) -> Seq<Seq<u32>> {
        interned(self.as_paths)
    }

    /// The community lists, each at its number.
    pub closed spec fn community_lists(&self) -> Seq<Seq<u32>> {
        interned(self.communities)
    }

    /// No list is held twice.
    pub open spec fn wf(&self) -> bool {
        self.paths().no_duplicates() && self.community_lists().no_duplicates()
    }

    /// An interner without lists.
    pub fn new() -> (r: Self)
        ensures
            r.wf(),
            r.paths() == Seq::<Seq<u32>>::empty(),
            r.community_lists() == Seq::<Seq<u32>>::empty(),
    {
        AttributeInterner { as_paths: index_set_new(), communities: index_set_new() }
    }

    /// Gives the number of an AS path, a new one where the path is new.
    pub fn intern_as_path(&mut self, path: &[u32]) -> (r: AttrId)
        requires
            old(self).wf(),
        ensures
            final(self).wf(),
            final(self).paths() == intern_into(old(self).paths(), path@),
            final(self).community_lists() == old(self).community_lists(),
            r == intern_index(old(self).paths(), path@) as u32,
    {
        intern(&mut self.as_paths, path)
    }

    /// Gives the number of a community list, a new one where the list is new.
    pub fn intern_communities(&mut self, communities: &[u32]) -> (r: AttrId)
        requires
            old(self).wf(),
        ensures
            final(self).wf(),
            final(self).community_lists() == intern_into(
                old(self).community_lists(),
                communities@,
            ),
            final(self).paths() == old(self).paths(),
            r == intern_index(old(self).community_lists(), communities@) as u32,
    {
        intern(&mut self.communities, communities)
    }

    /// The AS path with a number.
    pub fn as_path(&self, id: AttrId) -> (r: Option<&[u32]>)
        ensures
            match r {
                Some(p) => id < self.paths().len() && p@ == self.paths()[id as int],
                None => id >= self.paths().len(),
            },
    {
        match index_set_get(&self.as_paths, id as usize) {
            Some(v) => Some(v.as_slice()),
            None => None,
        }
    }

    /// The community list with a number.
    pub fn communities(&self, id: AttrId) -> (r: Option<&[u32]>)
        ensures
            match r {
                Some(p) => id < self.community_lists().len() && p@
                    == self.community_lists()[id as int],
                None => id >= self.community_lists().len(),
            },
    {
        match index_set_get(&self.communities, id as usize) {
            Some(v) => Some(v.as_slice()),
            None => None,
        }
    }

    /// The number of AS paths.
    pub fn as_path_count(&self) -> (r: usize)
        ensures
            r == self.paths().len(),
    {
        index_set_len(&self.as_paths)
    }

    /// The number of community lists.
    pub fn community_count(&self) -> (r: usize)
        ensures
            r == self.community_lists().len(),
    {
        index_set_len(&self.communities)
    }
}

/// Interning keeps every number: what stood under a number before stands there after, and the
/// list just interned stands under the number it got.
pub proof fn interning_keeps_numbers(known: Seq<Seq<u32>>, values: Seq<u32>)
    ensures
        known.is_prefix_of(intern_into(known, values)),
        0 <= intern_index(known, values) < intern_into(known, values).len(),
        intern_into(known, values)[intern_index(known, values)] == values,
{
    if known.contains(values) {
        assert(known.is_prefix_of(known)) by {
            assert(known =~= known.subrange(0, known.len() as int));
        }
        let j = known.index_of(values);
        assert(known[j] == values);
    } else {
        assert(known =~= known.push(values).subrange(0, known.len() as int));
    }
}

/// Two lists get one number just where they are equal.
pub proof fn interning_separates(known: Seq<Seq<u32>>, a: Seq<u32>, b: Seq<u32>)
    requires
        known.no_duplicates(),
    ensures
        intern_index(known, a) == intern_index(intern_into(known, a), b) <==> a == b,
{
    interning_keeps_numbers(known, a);
    let then = intern_into(known, a);
    assert(then.no_duplicates()) by {
        if !known.contains(a) {
            assert forall|i: int, j: int| 0 <= i < then.len() && 0 <= j < then.len() && i
                != j implies then[i] != then[j] by {
                if i == known.len() {
                    assert(known.contains(known[j]));
                }
                if j == known.len() {
                    assert(known.contains(known[i]));
                }
            }
        }
    }
    assert(then.contains(a)) by {
        assert(then[intern_index(known, a)] == a);
    }
    if then.contains(b) {
        let j = then.index_of(b);
        assert(then[j] == b);
    } else {
        assert(a != b);
    }
}

// ---- routes ----

/// One peer's route to a prefix.
#[derive(Clone, Copy, Debug, PartialEq, Eq)]
pub struct RouteEntry {
    pub origin_asn: Option<u32>,
    pub as_path_id: AttrId,
    pub peer_asn: u32,
    pub communities_id: Option<AttrId>,
    pub rpki: RpkiState,
    pub timestamp: Instant,
}

/// The routes to one prefix, by peer.
pub struct RibSlot {
    pub prefix: Prefix,
    pub peers: HashMap<u32, RouteEntry>,
}

/// Routes keyed by IP prefix, kept per prefix and peer, so that peers do not overwrite each
/// other.
pub struct RouteTable {
    trie: IpnetTrie<usize>,
    slots: Vec<RibSlot>,
    prefix_count: usize,
    route_count: usize,
}

/// A routing table: the routes, and the attributes that they name by number.
pub struct Rib {
    pub table: RouteTable,
    pub interner: AttributeInterner,
}

/// The pairs of prefix and peer that a table has a route for.
pub open spec fn route_pairs(routes: Map<PrefixKey, Map<u32, RouteEntry>>) -> Set<(PrefixKey, u32)> {
    Set::new(|kp: (PrefixKey, u32)| routes.contains_key(kp.0) && routes[kp.0].contains_key(kp.1))
}

/// The routes of one prefix; none where the table has none.
pub open spec fn peers_at(
    routes: Map<PrefixKey, Map<u32, RouteEntry>>,
    key: PrefixKey,
) -> Map<u32, RouteEntry> {
    if routes.contains_key(key) {
        routes[key]
    } else {
        Map::empty()
    }
}

/// The table after a peer announced a route.
pub open spec fn announced(
    routes: Map<PrefixKey, Map<u32, RouteEntry>>,
    key: PrefixKey,
    entry: RouteEntry,
) -> Map<PrefixKey, Map<u32, RouteEntry>> {
    routes.insert(key, peers_at(routes, key).insert(entry.peer_asn, entry))
}

/// The table after a peer withdrew its route; a prefix without routes leaves it.
pub open spec fn withdrawn(
    routes: Map<PrefixKey, Map<u32, RouteEntry>>,
    key: PrefixKey,
    peer: u32,
) -> Map<PrefixKey, Map<u32, RouteEntry>> {
    let rest = peers_at(routes, key).remove(peer);
    if !route_pairs(routes).contains((key, peer)) {
        routes
    } else if rest == Map::<u32, RouteEntry>::empty() {
        routes.remove(key)
    } else {
        routes.insert(key, rest)
    }
}

impl RouteTable {
    /// The routes by prefix and peer.
    pub closed spec fn routes(&self) -> Map<PrefixKey, Map<u32, RouteEntry>> {
        Map::new(
            |k: PrefixKey| trie_slots(self.trie).contains_key(k),
            |k: PrefixKey| self.slots@[trie_slots(self.trie)[k] as int].peers@,
        )
    }

    /// Each prefix as it was announced first.
    pub closed spec fn nets(&self) -> Map<PrefixKey, Net> {
        Map::new(
            |k: PrefixKey| trie_slots(self.trie).contains_key(k),
            |k: PrefixKey| self.slots@[trie_slots(self.trie)[k] as int].prefix.net(),
        )
    }

    /// The trie numbers the slots, every slot holds a route, every route stands under its peer,
    /// and the two counts are right.
    pub closed spec fn wf(&self) -> bool {
        &&& forall|k: PrefixKey| #[trigger]
            trie_slots(self.trie).contains_key(k) ==> trie_slots(self.trie)[k] < self.slots@.len()
                && self.slots@[trie_slots(self.trie)[k] as int].prefix.key() == k
        &&& forall|i: int|
            0 <= i < self.slots@.len() ==> trie_slots(self.trie).contains_key(
                (#[trigger] self.slots@[i]).prefix.key(),
            ) && trie_slots(self.trie)[self.slots@[i].prefix.key()] == i
        &&& forall|i: int|
            0 <= i < self.slots@.len() ==> (#[trigger] self.slots@[i]).peers@ != Map::<
                u32,
                RouteEntry,
            >::empty() && self.slots@[i].prefix.net().wf()
        &&& forall|i: int, p: u32|
            0 <= i < self.slots@.len() && #[trigger] self.slots@[i].peers@.contains_key(p)
                ==> self.slots@[i].peers@[p].peer_asn == p
        &&& trie_slots(self.trie).dom().finite()
        &&& self.prefix_count == trie_slots(self.trie).dom().len()
        &&& route_pairs(self.routes()).finite()
        &&& self.route_count == route_pairs(self.routes()).len()
    }

    /// What well-formedness says of the routes.
    pub proof fn lemma_wf(&self)
        requires
            self.wf(),
        ensures
            self.nets().dom() == self.routes().dom(),
            self.routes().dom().finite(),
            route_pairs(self.routes()).finite(),
            forall|k: PrefixKey| #[trigger]
                self.routes().contains_key(k) ==> self.routes()[k] != Map::<
                    u32,
                    RouteEntry,
                >::empty() && self.nets()[k].wf() && self.nets()[k].key_at(
                    self.nets()[k].length(),
                ) == k,
            forall|k: PrefixKey, p: u32| #[trigger]
                self.routes()[k].contains_key(p) && self.routes().contains_key(k)
                    ==> self.routes()[k][p].peer_asn == p,
    {
        assert(self.nets().dom() =~= self.routes().dom());
        assert(self.routes().dom() =~= trie_slots(self.trie).dom());
    }

    /// An empty table.
    pub fn new() -> (r: Self)
        ensures
            r.wf(),
            r.routes() == Map::<PrefixKey, Map<u32, RouteEntry>>::empty(),
            r.nets() == Map::<PrefixKey, Net>::empty(),
    {
        let r = RouteTable {
            trie: trie_new(),
            slots: Vec::new(),
            prefix_count: 0,
            route_count: 0,
        };
        proof {
            assert(r.routes() =~= Map::<PrefixKey, Map<u32, RouteEntry>>::empty());
            assert(r.nets() =~= Map::<PrefixKey, Net>::empty());
            assert(route_pairs(r.routes()) =~= Set::<(PrefixKey, u32)>::empty());
        }
        r
    }

    /// The number of prefixes with a route.
    pub fn prefix_count(&self) -> (r: usize)
        requires
            self.wf(),
        ensures
            r == self.routes().dom().len(),
    {
        assert(self.routes().dom() =~= trie_slots(self.trie).dom());
        self.prefix_count
    }

    /// The number of routes.
    pub fn route_count(&self) -> (r: usize)
        requires
            self.wf(),
        ensures
            r == route_pairs(self.routes()).len(),
    {
        self.route_count
    }

    /// Stores a peer's route to a prefix, in place of one it had.
    pub fn announce(&mut self, prefix: Prefix, entry: RouteEntry)
        requires
            old(self).wf(),
            route_pairs(old(self).routes()).len() < usize::MAX,
            old(self).routes().dom().len() < usize::MAX,
        ensures
            final(self).wf(),
            final(self).routes() == announced(old(self).routes(), prefix.key(), entry),
            final(self).nets() == (if old(self).nets().contains_key(prefix.key()) {
                old(self).nets()
            } else {
                old(self).nets().insert(prefix.key(), prefix.net())
            }),
    {
        let ghost before = *self;
        let ghost key = prefix.key();
        let peer: u32 = entry.peer_asn;
        let net = prefix.parts();
        assert(self.routes().dom() =~= trie_slots(self.trie).dom());
        match trie_exact(&self.trie, net) {
            Some(i) => {
                assert(self.slots@[i as int].prefix.key() == key);
                let ghost peers0 = self.slots@[i as int].peers@;
                let prev = self.slots[i].peers.insert(peer, entry);
                proof {
                    assert(self.slots@[i as int].peers@ == peers0.insert(peer, entry));
                    assert(self.slots@[i as int].peers@.contains_key(peer));
                    assert(self.slots@[i as int].prefix == before.slots@[i as int].prefix);
                    assert(forall|j: int|
                        0 <= j < self.slots@.len() && j != i ==> #[trigger] self.slots@[j]
                            == before.slots@[j]);
                    assert(self.trie == before.trie);
                    assert(self.routes() =~= announced(before.routes(), key, entry)) by {
                        lemma_slot_update(before, *self, i as int, key);
                    }
                    assert(self.nets() =~= before.nets());
                }
                if prev.is_none() {
                    proof {
                        assert(route_pairs(self.routes()) =~= route_pairs(before.routes()).insert(
                            (key, peer),
                        ));
                        assert(!route_pairs(before.routes()).contains((key, peer)));
                    }
                    self.route_count = self.route_count + 1;
                } else {
                    proof {
                        assert(route_pairs(self.routes()) =~= route_pairs(before.routes()));
                    }
                }
                proof {
                    assert forall|j: int, p: u32|
                        0 <= j < self.slots@.len() && #[trigger] self.slots@[j].peers@.contains_key(
                            p,
                        ) implies self.slots@[j].peers@[p].peer_asn == p by {
                        if j == i {
                            if p != peer {
                                assert(before.slots@[j].peers@.contains_key(p));
                            }
                        } else {
                            assert(before.slots@[j].peers@.contains_key(p));
                        }
                    }
                }
            },
            None => {
                let mut peers: HashMap<u32, RouteEntry> = HashMap::new();
                peers.insert(peer, entry);
                let n: usize = self.slots.len();
                self.slots.push(RibSlot { prefix, peers });
                trie_insert(&mut self.trie, net, n);
                self.prefix_count = self.prefix_count + 1;
                self.route_count = self.route_count + 1;
                proof {
                    assert(peers@ == Map::<u32, RouteEntry>::empty().insert(peer, entry));
                    assert(peers@.contains_key(peer));
                    assert(trie_slots(self.trie) == trie_slots(before.trie).insert(key, n));
                    assert(forall|j: int|
                        0 <= j < n ==> #[trigger] self.slots@[j] == before.slots@[j]);
                    assert forall|k: PrefixKey| #[trigger]
                        trie_slots(self.trie).contains_key(k) implies trie_slots(self.trie)[k]
                        < self.slots@.len() && self.slots@[trie_slots(
                        self.trie,
                    )[k] as int].prefix.key() == k by {
                        if k != key {
                            assert(trie_slots(before.trie).contains_key(k));
                        }
                    }
                    assert forall|j: int|
                        0 <= j < self.slots@.len() implies trie_slots(self.trie).contains_key(
                        (#[trigger] self.slots@[j]).prefix.key(),
                    ) && trie_slots(self.trie)[self.slots@[j].prefix.key()] == j by {
                        if j < n {
                            assert(self.slots@[j] == before.slots@[j]);
                            assert(trie_slots(before.trie).contains_key(
                                before.slots@[j].prefix.key(),
                            ));
                        }
                    }
                    assert forall|j: int, p: u32|
                        0 <= j < self.slots@.len() && #[trigger] self.slots@[j].peers@.contains_key(
                            p,
                        ) implies self.slots@[j].peers@[p].peer_asn == p by {
                        if j < n {
                            assert(before.slots@[j].peers@.contains_key(p));
                        }
                    }
                    assert(self.routes() =~= announced(before.routes(), key, entry)) by {
                        assert forall|k: PrefixKey| #[trigger]
                            self.routes().contains_key(k) implies self.routes()[k] == announced(
                            before.routes(),
                            key,
                            entry,
                        )[k] by {
                            if k != key {
                                assert(trie_slots(before.trie).contains_key(k));
                            }
                        }
                    }
                    assert(self.nets() =~= before.nets().insert(key, prefix.net()));
                    assert(route_pairs(self.routes()) =~= route_pairs(before.routes()).insert(
                        (key, peer),
                    ));
                    assert(!route_pairs(before.routes()).contains((key, peer)));
                    assert(trie_slots(self.trie).dom() =~= trie_slots(before.trie).dom().insert(
                        key,
                    ));
                }
            },
        }
    }

    /// Takes a peer's route to a prefix out; tells whether it was there. A prefix whose last
    /// route leaves is forgotten.
    pub fn withdraw(&mut self, prefix: Prefix, peer_asn: u32) -> (r: bool)
        requires
            old(self).wf(),
        ensures
            final(self).wf(),
            r == route_pairs(old(self).routes()).contains((prefix.key(), peer_asn)),
            final(self).routes() == withdrawn(old(self).routes(), prefix.key(), peer_asn),
            final(self).nets() == old(self).nets().restrict(final(self).routes().dom()),
    {
        let ghost before = *self;
        let ghost key = prefix.key();
        let net = prefix.parts();
        match trie_exact(&self.trie, net) {
            None => {
                assert(!route_pairs(before.routes()).contains((key, peer_asn)));
                assert(self.nets() =~= before.nets().restrict(self.routes().dom()));
                false
            },
            Some(i) => {
                assert(self.slots@[i as int].prefix.key() == key);
                let ghost peers0 = self.slots@[i as int].peers@;
                assert(before.routes()[key] == peers0);
                if !self.slots[i].peers.contains_key(&peer_asn) {
                    assert(!route_pairs(before.routes()).contains((key, peer_asn)));
                    assert(self.nets() =~= before.nets().restrict(self.routes().dom()));
                    return false;
                }
                assert(route_pairs(before.routes()).contains((key, peer_asn)));
                self.slots[i].peers.remove(&peer_asn);
                let ghost cut = *self;
                proof {
                    assert(self.slots@[i as int].peers@ == peers0.remove(peer_asn));
                    assert(self.slots@[i as int].prefix == before.slots@[i as int].prefix);
                    assert(forall|j: int|
                        0 <= j < self.slots@.len() && j != i ==> #[trigger] self.slots@[j]
                            == before.slots@[j]);
                    lemma_slot_update(before, cut, i as int, key);
                    lemma_pairs_after_removal(before.routes(), key, peer_asn);
                }
                self.route_count = self.route_count - 1;
                if self.slots[i].peers.is_empty() {
                    let ghost last = self.slots@.len() - 1;
                    assert(peers0.remove(peer_asn) =~= Map::<u32, RouteEntry>::empty());
                    trie_remove(&mut self.trie, net);
                    self.slots.swap_remove(i);
                    if i < self.slots.len() {
                        let moved = self.slots[i].prefix.parts();
                        trie_insert(&mut self.trie, moved, i);
                    }
                    self.prefix_count = self.prefix_count - 1;
                    proof {
                        lemma_slot_removed(before, cut, *self, i as int, key);
                        assert(self.routes() =~= before.routes().remove(key));
                        assert(trie_slots(self.trie).dom() =~= trie_slots(
                            before.trie,
                        ).dom().remove(key));
                        assert(self.nets() =~= before.nets().restrict(self.routes().dom()));
                    }
                } else {
                    proof {
                        assert(self.slots@ == cut.slots@ && self.trie == cut.trie);
                        assert(self.routes() == cut.routes());
                        assert forall|j: int, p: u32|
                            0 <= j < self.slots@.len() && #[trigger] self.slots@[j].peers@.contains_key(
                                p,
                            ) implies self.slots@[j].peers@[p].peer_asn == p by {
                            assert(before.slots@[j].peers@.contains_key(p));
                        }
                        assert(peers0.remove(peer_asn) != Map::<u32, RouteEntry>::empty());
                        assert(self.nets() =~= before.nets().restrict(self.routes().dom()));
                    }
                }
                true
            },
        }
    }

    /// The routes to a prefix.
    pub fn exact_match(&self, prefix: Prefix) -> (r: Option<&HashMap<u32, RouteEntry>>)
        requires
            self.wf(),
        ensures
            match r {
                Some(m) => self.routes().contains_key(prefix.key()) && m@
                    == self.routes()[prefix.key()],
                None => !self.routes().contains_key(prefix.key()),
            },
    {
        let net = prefix.parts();
        match trie_exact(&self.trie, net) {
            Some(i) => Some(&self.slots[i].peers),
            None => None,
        }
    }

    /// The longest prefix with routes that covers an address, and its routes.
    pub fn longest_match(&self, addr: Address) -> (r: Option<(Prefix, &HashMap<u32, RouteEntry>)>)
        requires
            self.wf(),
        ensures
            match r {
                Some((p, m)) => is_longest_match(self.routes(), addr, p.key()) && p.net()
                    == self.nets()[p.key()] && m@ == self.routes()[p.key()],
                None => forall|k: PrefixKey| #[trigger]
                    self.routes().contains_key(k) ==> !key_covers(k, host_net(addr)),
            },
    {
        let host = Prefix::host(addr);
        let net = host.parts();
        match trie_longest(&self.trie, net) {
            Some(i) => {
                proof {
                    let k = choose|k: PrefixKey| #[trigger]
                        longest_cover(trie_slots(self.trie), net, k) && trie_slots(self.trie)[k]
                            == i;
                    assert(self.slots@[i as int].prefix.key() == k);
                    assert(self.routes().contains_key(k));
                    assert forall|o: PrefixKey| #[trigger]
                        self.routes().contains_key(o) && key_covers(o, host_net(addr)) implies o.2
                        <= k.2 by {
                        assert(trie_slots(self.trie).contains_key(o));
                    }
                }
                Some((self.slots[i].prefix, &self.slots[i].peers))
            },
            None => {
                proof {
                    assert forall|k: PrefixKey| #[trigger]
                        self.routes().contains_key(k) implies !key_covers(k, host_net(addr)) by {
                        assert(trie_slots(self.trie).contains_key(k));
                    }
                }
                None
            },
        }
    }

    /// Every prefix with its routes.
    pub fn iter(&self) -> (r: Vec<(Prefix, &HashMap<u32, RouteEntry>)>)
        requires
            self.wf(),
        ensures
            forall|i: int|
                #![trigger r@[i]]
                0 <= i < r@.len() ==> self.routes().contains_key(r@[i].0.key()) && r@[i].0.net()
                    == self.nets()[r@[i].0.key()] && r@[i].1@ == self.routes()[r@[i].0.key()],
            forall|i: int, j: int|
                #![trigger r@[i], r@[j]]
                0 <= i < j < r@.len() ==> r@[i].0.key() != r@[j].0.key(),
            forall|k: PrefixKey| #[trigger]
                self.routes().contains_key(k) ==> exists|i: int|
                    #![trigger r@[i]]
                    0 <= i < r@.len() && r@[i].0.key() == k,
    {
        let order = trie_iter(&self.trie);
        let ghost ks = choose|ks: Seq<PrefixKey>| #[trigger]
            lists_keys(trie_slots(self.trie), ks) && order@ == ks.map_values(
                |k: PrefixKey| trie_slots(self.trie)[k],
            );
        let mut out: Vec<(Prefix, &HashMap<u32, RouteEntry>)> = Vec::new();
        let mut i: usize = 0;
        while i < order.len()
            invariant
                self.wf(),
                i <= order.len(),
                out@.len() == i,
                lists_keys(trie_slots(self.trie), ks),
                order@ == ks.map_values(|k: PrefixKey| trie_slots(self.trie)[k]),
                forall|j: int|
                    #![trigger out@[j]]
                    0 <= j < i ==> out@[j].0.key() == ks[j] && out@[j].0.net()
                        == self.nets()[ks[j]] && out@[j].1@ == self.routes()[ks[j]],
            decreases order.len() - i,
        {
            let slot: usize = order[i];
            proof {
                let k = ks[i as int];
                assert(ks.contains(k));
                assert(trie_slots(self.trie).contains_key(k));
                assert(slot == trie_slots(self.trie)[k]);
                assert(self.slots@[slot as int].prefix.key() == k);
            }
            out.push((self.slots[slot].prefix, &self.slots[slot].peers));
            i += 1;
        }
        proof {
            assert forall|j: int| #![trigger out@[j]] 0 <= j < out@.len() implies self.routes().contains_key(out@[j].0.key()) by {
                assert(ks.contains(ks[j]));
            }
            assert forall|k: PrefixKey| #[trigger] self.routes().contains_key(k) implies exists|j: int|
                #![trigger out@[j]]
                0 <= j < out@.len() && out@[j].0.key() == k by {
                assert(trie_slots(self.trie).contains_key(k));
                assert(ks.contains(k));
                let j = choose|j: int| 0 <= j < ks.len() && ks[j] == k;
                assert(out@[j].0.key() == k);
            }
        }
        out
    }
}

/// `key` is the longest of the prefixes with routes that cover an address.
pub open spec fn is_longest_match(
    routes: Map<PrefixKey, Map<u32, RouteEntry>>,
    addr: Address,
    key: PrefixKey,
) -> bool {
    &&& routes.contains_key(key)
    &&& key_covers(key, host_net(addr))
    &&& forall|k: PrefixKey| #[trigger]
        routes.contains_key(k) && key_covers(k, host_net(addr)) ==> k.2 <= key.2
}

impl Rib {
    /// The table and the interner are well formed.
    pub open spec fn wf(&self) -> bool {
        self.table.wf() && self.interner.wf()
    }

    /// The routes by prefix and peer.
    pub open spec fn routes(&self) -> Map<PrefixKey, Map<u32, RouteEntry>> {
        self.table.routes()
    }

    /// Each prefix as it was announced first.
    pub open spec fn nets(&self) -> Map<PrefixKey, Net> {
        self.table.nets()
    }

    /// An empty table.
    pub fn new() -> (r: Self)
        ensures
            r.wf(),
            r.routes() == Map::<PrefixKey, Map<u32, RouteEntry>>::empty(),
            r.nets() == Map::<PrefixKey, Net>::empty(),
            r.interner.paths() == Seq::<Seq<u32>>::empty(),
            r.interner.community_lists() == Seq::<Seq<u32>>::empty(),
    {
        Rib { table: RouteTable::new(), interner: AttributeInterner::new() }
    }

    /// The number of prefixes with a route.
    pub fn prefix_count(&self) -> (r: usize)
        requires
            self.wf(),
        ensures
            r == self.routes().dom().len(),
    {
        self.table.prefix_count()
    }

    /// The number of routes.
    pub fn route_count(&self) -> (r: usize)
        requires
            self.wf(),
        ensures
            r == route_pairs(self.routes()).len(),
    {
        self.table.route_count()
    }

    /// Stores a peer's route to a prefix, in place of one it had.
    pub fn announce(&mut self, prefix: Prefix, entry: RouteEntry)
        requires
            old(self).wf(),
            route_pairs(old(self).routes()).len() < usize::MAX,
            old(self).routes().dom().len() < usize::MAX,
        ensures
            final(self).wf(),
            final(self).routes() == announced(old(self).routes(), prefix.key(), entry),
            final(self).nets() == (if old(self).nets().contains_key(prefix.key()) {
                old(self).nets()
            } else {
                old(self).nets().insert(prefix.key(), prefix.net())
            }),
            final(self).interner == old(self).interner,
    {
        self.table.announce(prefix, entry);
    }

    /// Takes a peer's route to a prefix out; tells whether it was there.
    pub fn withdraw(&mut self, prefix: Prefix, peer_asn: u32) -> (r: bool)
        requires
            old(self).wf(),
        ensures
            final(self).wf(),
            r == route_pairs(old(self).routes()).contains((prefix.key(), peer_asn)),
            final(self).routes() == withdrawn(old(self).routes(), prefix.key(), peer_asn),
            final(self).nets() == old(self).nets().restrict(final(self).routes().dom()),
            final(self).interner == old(self).interner,
    {
        self.table.withdraw(prefix, peer_asn)
    }

    /// The routes to a prefix.
    pub fn exact_match(&self, prefix: Prefix) -> (r: Option<&HashMap<u32, RouteEntry>>)
        requires
            self.wf(),
        ensures
            match r {
                Some(m) => self.routes().contains_key(prefix.key()) && m@
                    == self.routes()[prefix.key()],
                None => !self.routes().contains_key(prefix.key()),
            },
    {
        self.table.exact_match(prefix)
    }

    /// The longest prefix with routes that covers an address, and its routes.
    pub fn longest_match(&self, addr: Address) -> (r: Option<(Prefix, &HashMap<u32, RouteEntry>)>)
        requires
            self.wf(),
        ensures
            match r {
                Some((p, m)) => is_longest_match(self.routes(), addr, p.key()) && p.net()
                    == self.nets()[p.key()] && m@ == self.routes()[p.key()],
                None => forall|k: PrefixKey| #[trigger]
                    self.routes().contains_key(k) ==> !key_covers(k, host_net(addr)),
            },
    {
        self.table.longest_match(addr)
    }

    /// Every prefix with its routes.
    pub fn iter(&self) -> (r: Vec<(Prefix, &HashMap<u32, RouteEntry>)>)
        requires
            self.wf(),
        ensures
            forall|i: int|
                #![trigger r@[i]]
                0 <= i < r@.len() ==> self.routes().contains_key(r@[i].0.key()) && r@[i].0.net()
                    == self.nets()[r@[i].0.key()] && r@[i].1@ == self.routes()[r@[i].0.key()],
            forall|i: int, j: int|
                #![trigger r@[i], r@[j]]
                0 <= i < j < r@.len() ==> r@[i].0.key() != r@[j].0.key(),
            forall|k: PrefixKey| #[trigger]
                self.routes().contains_key(k) ==> exists|i: int|
                    #![trigger r@[i]]
                    0 <= i < r@.len() && r@[i].0.key() == k,
    {
        self.table.iter()
    }
}

/// Withdrawing a route that its announcement added gives the table before it back.
pub proof fn withdraw_undoes_announce(
    routes: Map<PrefixKey, Map<u32, RouteEntry>>,
    key: PrefixKey,
    entry: RouteEntry,
)
    requires
        !route_pairs(routes).contains((key, entry.peer_asn)),
        routes.contains_key(key) ==> routes[key] != Map::<u32, RouteEntry>::empty(),
    ensures
        withdrawn(announced(routes, key, entry), key, entry.peer_asn) == routes,
{
    let there = announced(routes, key, entry);
    let peer = entry.peer_asn;
    assert(there[key].contains_key(peer));
    assert(route_pairs(there).contains((key, peer)));
    assert(there[key].remove(peer) =~= peers_at(routes, key));
    assert(withdrawn(there, key, peer) =~= routes);
}

/// Announcing a route leaves the routes of other prefixes, and of other peers, as they are.
pub proof fn announce_touches_one_route(
    routes: Map<PrefixKey, Map<u32, RouteEntry>>,
    key: PrefixKey,
    entry: RouteEntry,
    other_key: PrefixKey,
    other_peer: u32,
)
    requires
        other_key != key || other_peer != entry.peer_asn,
    ensures
        route_pairs(announced(routes, key, entry)).contains((other_key, other_peer))
            <==> route_pairs(routes).contains((other_key, other_peer)),
        route_pairs(routes).contains((other_key, other_peer)) ==> announced(
            routes,
            key,
            entry,
        )[other_key][other_peer] == routes[other_key][other_peer],
{
}

/// What a removed pair changes in the set of pairs.
proof fn lemma_pairs_after_removal(
    routes: Map<PrefixKey, Map<u32, RouteEntry>>,
    key: PrefixKey,
    peer: u32,
)
    requires
        route_pairs(routes).finite(),
        route_pairs(routes).contains((key, peer)),
    ensures
        route_pairs(withdrawn(routes, key, peer)) == route_pairs(routes).remove((key, peer)),
        route_pairs(withdrawn(routes, key, peer)).finite(),
        route_pairs(withdrawn(routes, key, peer)).len() == route_pairs(routes).len() - 1,
{
    let rest = routes[key].remove(peer);
    let out = withdrawn(routes, key, peer);
    assert(route_pairs(out) =~= route_pairs(routes).remove((key, peer))) by {
        assert forall|kp: (PrefixKey, u32)|
            route_pairs(out).contains(kp) <==> route_pairs(routes).remove((key, peer)).contains(
                kp,
            ) by {
            if rest == Map::<u32, RouteEntry>::empty() {
                if kp.0 == key && routes[key].contains_key(kp.1) && kp.1 != peer {
                    assert(rest.contains_key(kp.1));
                }
            }
        }
    }
}

/// The table after slot `i` gave its place to the last slot.
proof fn lemma_slot_removed(before: RouteTable, cut: RouteTable, after: RouteTable, i: int, key: PrefixKey)
    requires
        before.wf(),
        0 <= i < before.slots@.len(),
        before.slots@[i].prefix.key() == key,
        cut.slots@.len() == before.slots@.len(),
        forall|j: int| 0 <= j < cut.slots@.len() && j != i ==> #[trigger] cut.slots@[j] == before.slots@[j],
        after.slots@ == cut.slots@.update(i, cut.slots@.last()).drop_last(),
        i < after.slots@.len() ==> trie_slots(after.trie) == trie_slots(before.trie).remove(key).insert(
            after.slots@[i].prefix.key(),
            i as usize,
        ),
        i >= after.slots@.len() ==> trie_slots(after.trie) == trie_slots(before.trie).remove(key),
    ensures
        after.routes() == before.routes().remove(key),
        forall|k: PrefixKey| #[trigger] after.routes().contains_key(k) ==> after.nets()[k] == before.nets()[k],
        trie_slots(after.trie).dom() == trie_slots(before.trie).dom().remove(key),
        forall|k: PrefixKey| #[trigger]
            trie_slots(after.trie).contains_key(k) ==> trie_slots(after.trie)[k] < after.slots@.len()
                && after.slots@[trie_slots(after.trie)[k] as int].prefix.key() == k,
        forall|j: int|
            0 <= j < after.slots@.len() ==> trie_slots(after.trie).contains_key(
                (#[trigger] after.slots@[j]).prefix.key(),
            ) && trie_slots(after.trie)[after.slots@[j].prefix.key()] == j,
        forall|j: int|
            0 <= j < after.slots@.len() ==> (#[trigger] after.slots@[j]).peers@ != Map::<u32, RouteEntry>::empty()
                && after.slots@[j].prefix.net().wf(),
        forall|j: int, p: u32|
            0 <= j < after.slots@.len() && #[trigger] after.slots@[j].peers@.contains_key(p)
                ==> after.slots@[j].peers@[p].peer_asn == p,
{
    let n = before.slots@.len() as int;
    let last = n - 1;
    assert(trie_slots(before.trie).contains_key(before.slots@[i].prefix.key()));
    assert(trie_slots(before.trie)[key] == i);
    assert forall|j: int| 0 <= j < after.slots@.len() implies #[trigger] after.slots@[j] == (if j == i {
        before.slots@[last]
    } else {
        before.slots@[j]
    }) by {
        if j == i {
            assert(cut.slots@[last] == before.slots@[last]);
        } else {
            assert(cut.slots@[j] == before.slots@[j]);
        }
    }
    let mk = before.slots@[last].prefix.key();
    assert(trie_slots(before.trie).contains_key(before.slots@[last].prefix.key()));
    assert(trie_slots(before.trie)[mk] == last);
    if i < last {
        assert(after.slots@[i] == before.slots@[last]);
        assert(mk != key);
    }
    assert(trie_slots(after.trie).dom() =~= trie_slots(before.trie).dom().remove(key));
    assert forall|j: int|
        0 <= j < after.slots@.len() implies trie_slots(after.trie).contains_key(
        (#[trigger] after.slots@[j]).prefix.key(),
    ) && trie_slots(after.trie)[after.slots@[j].prefix.key()] == j by {
        if j != i {
            assert(after.slots@[j] == before.slots@[j]);
            let jk = before.slots@[j].prefix.key();
            assert(trie_slots(before.trie).contains_key(jk) && trie_slots(before.trie)[jk] == j);
            assert(jk != key && jk != mk);
        }
    }
    assert forall|k: PrefixKey| #[trigger]
        trie_slots(after.trie).contains_key(k) implies trie_slots(after.trie)[k] < after.slots@.len()
        && after.slots@[trie_slots(after.trie)[k] as int].prefix.key() == k
        && after.slots@[trie_slots(after.trie)[k] as int] == before.slots@[trie_slots(before.trie)[k] as int]
        && trie_slots(before.trie).contains_key(k) && k != key by {
        assert(trie_slots(before.trie).contains_key(k));
        let j = trie_slots(before.trie)[k] as int;
        assert(before.slots@[j].prefix.key() == k);
        if i < last && k == mk {
            assert(trie_slots(after.trie)[k] == i);
        } else {
            assert(trie_slots(after.trie)[k] == j);
            assert(j != i);
            if j == last {
                assert(k == mk);
                assert(i == last);
            }
            assert(after.slots@[j] == before.slots@[j]);
        }
    }
    assert(after.routes() =~= before.routes().remove(key)) by {
        assert forall|k: PrefixKey| #[trigger] after.routes().contains_key(k) implies after.routes()[k]
            == before.routes().remove(key)[k] by {
            assert(trie_slots(after.trie).contains_key(k));
        }
    }
    assert forall|k: PrefixKey| #[trigger] after.routes().contains_key(k) implies after.nets()[k]
        == before.nets()[k] by {
        assert(trie_slots(after.trie).contains_key(k));
    }
    assert forall|j: int, p: u32|
        0 <= j < after.slots@.len() && #[trigger] after.slots@[j].peers@.contains_key(p) implies
        after.slots@[j].peers@[p].peer_asn == p by {
        if j == i {
            assert(before.slots@[last].peers@.contains_key(p));
        } else {
            assert(before.slots@[j].peers@.contains_key(p));
        }
    }
}

proof fn lemma_slot_update(before: RouteTable, after: RouteTable, i: int, key: PrefixKey)
    requires
        before.wf(),
        after.trie == before.trie,
        after.slots@.len() == before.slots@.len(),
        0 <= i < before.slots@.len(),
        before.slots@[i].prefix.key() == key,
        forall|j: int| 0 <= j < after.slots@.len() && j != i ==> #[trigger] after.slots@[j] == before.slots@[j],
    ensures
        after.routes() == before.routes().insert(key, after.slots@[i].peers@),
{
    assert(trie_slots(before.trie).contains_key(before.slots@[i].prefix.key()));
    assert(after.routes() =~= before.routes().insert(key, after.slots@[i].peers@)) by {
        assert forall|k: PrefixKey| #[trigger] after.routes().contains_key(k) implies after.routes()[k]
            == before.routes().insert(key, after.slots@[i].peers@)[k] by {
            assert(trie_slots(before.trie).contains_key(k));
            let j = trie_slots(before.trie)[k] as int;
            assert(before.slots@[j].prefix.key() == k);
            if k != key {
                assert(j != i);
                assert(after.slots@[j] == before.slots@[j]);
            }
        }
    }
}

/// After a peer announced a route, this is its route to the prefix; every other route is as it was.
pub proof fn announcing_sets_one_route(
    routes: Map<PrefixKey, Map<u32, RouteEntry>>,
    key: PrefixKey,
    entry: RouteEntry,
    k: PrefixKey,
    peer: u32,
)
    ensures
        ({
            let after = announced(routes, key, entry);
            let has = |m: Map<PrefixKey, Map<u32, RouteEntry>>|
                m.contains_key(k) && m[k].contains_key(peer);
            &&& after.contains_key(key) && after[key].contains_key(entry.peer_asn)
                && after[key][entry.peer_asn] == entry
            &&& (k, peer) != (key, entry.peer_asn) ==> (has(after) <==> has(routes)) && (has(routes)
                ==> after[k][peer] == routes[k][peer])
            &&& k != key ==> (after.contains_key(k) <==> routes.contains_key(k))
        }),
{
}

/// After a peer withdrew its route, it has none to the prefix; every other route is as it was. A
/// prefix stays just where another peer has a route to it.
pub proof fn withdrawing_takes_one_route(
    routes: Map<PrefixKey, Map<u32, RouteEntry>>,
    key: PrefixKey,
    gone: u32,
    k: PrefixKey,
    peer: u32,
)
    requires
        routes.contains_key(key) ==> routes[key] != Map::<u32, RouteEntry>::empty(),
    ensures
        ({
            let after = withdrawn(routes, key, gone);
            let has = |m: Map<PrefixKey, Map<u32, RouteEntry>>|
                m.contains_key(k) && m[k].contains_key(peer);
            &&& !(after.contains_key(key) && after[key].contains_key(gone))
            &&& (k, peer) != (key, gone) ==> (has(after) <==> has(routes)) && (has(routes)
                ==> after[k][peer] == routes[k][peer])
            &&& after.contains_key(key) <==> exists|p: u32|
                p != gone && routes.contains_key(key) && #[trigger] routes[key].contains_key(p)
            &&& k != key ==> (after.contains_key(k) <==> routes.contains_key(k))
        }),
{
    let none = Map::<u32, RouteEntry>::empty();
    let rest = peers_at(routes, key).remove(gone);
    if routes.contains_key(key) {
        if rest == none {
            assert forall|p: u32| p != gone implies !(#[trigger] routes[key].contains_key(p)) by {
                assert(!rest.contains_key(p));
            }
            if k == key && peer != gone {
                assert(!rest.contains_key(peer));
            }
        } else {
            if forall|p: u32| !rest.contains_key(p) {
                assert(rest =~= none);
            }
            let p = choose|p: u32| rest.contains_key(p);
            assert(p != gone && routes[key].contains_key(p));
        }
        if !routes[key].contains_key(gone) {
            assert(rest =~= routes[key]);
        }
    }
}

/// An address has one longest match at most: no two prefixes of one length cover it. The match
/// covers the address, and no longer prefix with routes does.
pub proof fn longest_matches_are_unique(
    routes: Map<PrefixKey, Map<u32, RouteEntry>>,
    addr: Address,
    a: PrefixKey,
    b: PrefixKey,
)
    requires
        is_longest_match(routes, addr, a),
        is_longest_match(routes, addr, b),
    ensures
        a == b,
        routes.contains_key(a),
        key_covers(a, host_net(addr)),
        forall|k: PrefixKey| #[trigger]
            routes.contains_key(k) && k.2 > a.2 ==> !key_covers(k, host_net(addr)),
        a.2 <= (match addr {
            Address::V4(_) => 32u8,
            Address::V6(_) => 128u8,
        }),
{
}

} // verus!
