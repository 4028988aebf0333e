//! Origin views of a routing table at a point in time.

use crate::detect::{collapse, collapsed};
use crate::orgs::count_of;
use crate::prefix::{parsed_prefix, prefix_text, PrefixKey};
use crate::rib::{copy_u32, AttributeInterner, Rib, RouteEntry};
use crate::textmap::TextMap;
use crate::time::Instant;
use std::collections::{HashMap, HashSet};
use vstd::prelude::*;

verus! {

broadcast use vstd::std_specs::hash::group_hash_axioms;

/// What was seen of a prefix: its origin, the network before the origin, and the AS path.
#[derive(Debug)]
pub struct PrefixObs {
    pub origin_asn: u32,
    pub upstream_asn: Option<u32>,
    pub as_path: Vec<u32>,
}

/// What an observation says.
#[verifier::ext_equal]
pub struct ObsView {
    pub origin_asn: u32,
    pub upstream_asn: Option<u32>,
    pub as_path: Seq<u32>,
}

impl View for PrefixObs {
    type V = ObsView;

    open spec fn view(&self) -> ObsView {
        ObsView {
            origin_asn: self.origin_asn,
            upstream_asn: self.upstream_asn,
            as_path: self.as_path@,
        }
    }
}

impl PrefixObs {
    /// A copy of the observation.
    pub fn copy(&self) -> (r: PrefixObs)
        ensures
            r@ == self@,
    {
        PrefixObs {
            origin_asn: self.origin_asn,
            upstream_asn: self.upstream_asn,
            as_path: copy_u32(self.as_path.as_slice()),
        }
    }
}

/// Origins at a point in time, by prefix.
pub struct RibSnapshot {
    /// End of the window, not the time of building.
    pub as_of: Instant,
    /// Start of the window.
    pub ts_start: Option<Instant>,
    pub collector: Option<String>,
    /// `rib` or `updates`.
    pub source: Option<String>,
    /// Observations by prefix text.
    pub prefixes: TextMap<PrefixObs>,
}

impl RibSnapshot {
    /// The prefixes do not repeat.
    pub open spec fn wf(&self) -> bool {
        self.prefixes.wf()
    }

    /// The prefixes in order.
    pub open spec fn keys(&self) -> Seq<Seq<char>> {
        self.prefixes.keys()
    }

    /// The observations, each at its prefix's position.
    pub open spec fn seen(&self) -> Seq<ObsView> {
        Seq::new(self.prefixes.values().len(), |i: int| self.prefixes.values()[i]@)
    }

    /// The observation of each prefix.
    pub open spec fn obs(&self) -> Map<Seq<char>, ObsView> {
        self.prefixes.map().map_values(|o: PrefixObs| o@)
    }

    /// A snapshot without observations.
    pub fn new(as_of: Instant) -> (r: Self)
        ensures
            r.wf(),
            r.as_of == as_of,
            r.ts_start is None,
            r.collector is None,
            r.source is None,
            r.keys() == Seq::<Seq<char>>::empty(),
            r.seen() == Seq::<ObsView>::empty(),
            r.obs() == Map::<Seq<char>, ObsView>::empty(),
    {
        let r = RibSnapshot {
            as_of,
            ts_start: None,
            collector: None,
            source: None,
            prefixes: TextMap::new(),
        };
        assert(r.obs() =~= Map::empty());
        r
    }

    /// What well-formedness says of prefixes and observations.
    pub proof fn lemma_wf(&self)
        requires
            self.wf(),
        ensures
            self.keys().len() == self.seen().len(),
            self.keys().no_duplicates(),
            forall|i: int|
                0 <= i < self.keys().len() ==> self.obs().contains_key(#[trigger] self.keys()[i])
                    && self.obs()[self.keys()[i]] == self.seen()[i],
            forall|k: Seq<char>| #[trigger]
                self.obs().contains_key(k) ==> self.keys().contains(k),
    {
        self.prefixes.lemma_wf();
        assert forall|i: int| 0 <= i < self.keys().len() implies self.obs().contains_key(
            #[trigger] self.keys()[i],
        ) && self.obs()[self.keys()[i]] == self.seen()[i] by {
            assert(self.prefixes.map().contains_key(self.prefixes.keys()[i]));
        }
        assert forall|k: Seq<char>| #[trigger] self.obs().contains_key(k) implies self.keys().contains(
            k,
        ) by {
            assert(self.prefixes.map().contains_key(k));
        }
    }
}

// ---- upstreams ----

/// The last position of a network on a path, from `n` down.
pub open spec fn last_position(path: Seq<u32>, asn: u32, n: int) -> Option<int>
    decreases n,
{
    if n <= 0 {
        None
    } else if path[n - 1] == asn {
        Some(n - 1)
    } else {
        last_position(path, asn, n - 1)
    }
}

/// The network before the last place of the origin on a path, prepending aside.
pub open spec fn upstream(as_path: Seq<u32>, origin: u32) -> Option<u32> {
    let p = collapsed(as_path);
    match last_position(p, origin, p.len() as int) {
        Some(i) => if i > 0 {
            Some(p[i - 1])
        } else {
            None
        },
        None => None,
    }
}

/// Finds the network before the origin on a path.
pub fn upstream_of_origin(as_path: &[u32], origin: u32) -> (r: Option<u32>)
    ensures
        r == upstream(as_path@, origin),
{
    let path = collapse(as_path);
    let mut n: usize = path.len();
    while n > 0
        invariant
            n <= path@.len(),
            path@ == collapsed(as_path@),
            last_position(path@, origin, n as int) == last_position(
                path@,
                origin,
                path@.len() as int,
            ),
        decreases n,
    {
        if path[n - 1] == origin {
            return if n > 1 {
                Some(path[n - 2])
            } else {
                None
            };
        }
        n -= 1;
    }
    None
}

// ---- collapsing a routing table ----

/// The path of a route; empty where the interner has none under its number.
pub open spec fn path_of(paths: Seq<Seq<u32>>, e: RouteEntry) -> Seq<u32> {
    if e.as_path_id < paths.len() {
        paths[e.as_path_id as int]
    } else {
        Seq::empty()
    }
}

/// The route of peer `p` is the one to keep: none has a longer path, and of those with one as
/// long it is the lowest peer's.
pub open spec fn is_best(peers: Map<u32, RouteEntry>, paths: Seq<Seq<u32>>, p: u32) -> bool {
    &&& peers.contains_key(p)
    &&& forall|q: u32| #[trigger]
        peers.contains_key(q) ==> path_of(paths, peers[q]).len() < path_of(paths, peers[p]).len()
            || (path_of(paths, peers[q]).len() == path_of(paths, peers[p]).len() && p <= q)
}

/// The peer whose route is kept.
pub open spec fn best_peer(peers: Map<u32, RouteEntry>, paths: Seq<Seq<u32>>) -> u32 {
    choose|p: u32| is_best(peers, paths, p)
}

/// The route that is kept of a prefix.
pub open spec fn best_route(peers: Map<u32, RouteEntry>, paths: Seq<Seq<u32>>) -> RouteEntry {
    peers[best_peer(peers, paths)]
}

/// Only one route is the one to keep.
pub proof fn best_is_unique(peers: Map<u32, RouteEntry>, paths: Seq<Seq<u32>>, p: u32, q: u32)
    requires
        is_best(peers, paths, p),
        is_best(peers, paths, q),
    ensures
        p == q,
{
}

/// What a route says of its prefix; nothing where it has no origin.
pub open spec fn observed(paths: Seq<Seq<u32>>, e: RouteEntry) -> Option<ObsView> {
    match e.origin_asn {
        Some(o) => Some(
            ObsView {
                origin_asn: o,
                upstream_asn: upstream(path_of(paths, e), o),
                as_path: path_of(paths, e),
            },
        ),
        None => None,
    }
}

/// The snapshot holds, for each prefix, what the kept route says, and nothing else.
pub open spec fn collapses(rib: Rib, obs: Map<Seq<char>, ObsView>) -> bool {
    &&& forall|k: PrefixKey| #[trigger]
        rib.routes().contains_key(k) ==> match observed(
            rib.interner.paths(),
            best_route(rib.routes()[k], rib.interner.paths()),
        ) {
            Some(o) => obs.contains_key(prefix_text(rib.nets()[k])) && obs[prefix_text(
                rib.nets()[k],
            )] == o,
            None => !obs.contains_key(prefix_text(rib.nets()[k])),
        }
    &&& forall|t: Seq<char>| #[trigger]
        obs.contains_key(t) ==> exists|k: PrefixKey| #[trigger]
            rib.routes().contains_key(k) && prefix_text(rib.nets()[k]) == t
}

fn path_len(interner: &AttributeInterner, e: &RouteEntry) -> (r: usize)
    ensures
        r == path_of(interner.paths(), *e).len(),
{
    match interner.as_path(e.as_path_id) {
        Some(p) => p.len(),
        None => 0,
    }
}

fn pick_best(peers: &HashMap<u32, RouteEntry>, interner: &AttributeInterner) -> (r: RouteEntry)
    requires
        peers@ != Map::<u32, RouteEntry>::empty(),
        forall|p: u32| #[trigger] peers@.contains_key(p) ==> peers@[p].peer_asn == p,
    ensures
        r == best_route(peers@, interner.paths()),
        exists|p: u32| is_best(peers@, interner.paths(), p),
{
    let ghost paths = interner.paths();
    let mut best: Option<RouteEntry> = None;
    let it = peers.iter();
    let ghost all = vstd::std_specs::iter::IteratorSpec::remaining(&it);
    for x in iter: it
        invariant
            iter.seq() == all,
            paths == interner.paths(),
            forall|p: u32| #[trigger] peers@.contains_key(p) ==> peers@[p].peer_asn == p,
            forall|i: int|
                0 <= i < all.len() ==> peers@.contains_key(*(#[trigger] all[i]).0)
                    && peers@[*all[i].0] == *all[i].1,
            match best {
                None => iter.index() == 0,
                Some(e) => {
                    &&& iter.index() > 0
                    &&& peers@.contains_key(e.peer_asn)
                    &&& peers@[e.peer_asn] == e
                    &&& forall|i: int|
                        #![trigger all[i]]
                        0 <= i < iter.index() ==> path_of(paths, *all[i].1).len() < path_of(
                            paths,
                            e,
                        ).len() || (path_of(paths, *all[i].1).len() == path_of(paths, e).len()
                            && e.peer_asn <= *all[i].0)
                },
            },
    {
        let e: RouteEntry = *x.1;
        assert(*all[iter.index() as int].0 == *x.0 && *all[iter.index() as int].1 == *x.1);
        match best {
            None => {
                best = Some(e);
            },
            Some(cur) => {
                let cur_len: usize = path_len(interner, &cur);
                let new_len: usize = path_len(interner, &e);
                if new_len > cur_len || (new_len == cur_len && e.peer_asn < cur.peer_asn) {
                    best = Some(e);
                }
            },
        }
    }
    proof {
        assert(exists|k: u32| peers@.contains_key(k)) by {
            if forall|k: u32| !peers@.contains_key(k) {
                assert(peers@ =~= Map::empty());
            }
        }
        let k = choose|k: u32| peers@.contains_key(k);
        assert(all.contains((&k, &peers@[k])));
    }
    match best {
        Some(e) => {
            proof {
                assert forall|q: u32| #[trigger] peers@.contains_key(q) implies path_of(
                    paths,
                    peers@[q],
                ).len() < path_of(paths, e).len() || (path_of(paths, peers@[q]).len() == path_of(
                    paths,
                    e,
                ).len() && e.peer_asn <= q) by {
                    assert(all.contains((&q, &peers@[q])));
                    let i = choose|i: int| 0 <= i < all.len() && all[i] == (&q, &peers@[q]);
                    assert(*all[i].0 == q);
                }
                assert(is_best(peers@, paths, e.peer_asn));
                best_is_unique(peers@, paths, e.peer_asn, best_peer(peers@, paths));
            }
            e
        },
        None => {
            proof {
                assert(false);
            }
            RouteEntry {
                origin_asn: None,
                as_path_id: 0,
                peer_asn: 0,
                communities_id: None,
                rpki: crate::rpki::RpkiState::Unknown,
                timestamp: Instant { secs: 0, nanos: 0 },
            }
        },
    }
}

impl RibSnapshot {
    /// The snapshot of a routing table: of each prefix the route with the longest path.
    pub fn from_rib(rib: &Rib, as_of: Instant) -> (r: Self)
        requires
            rib.wf(),
        ensures
            r.wf(),
            r.as_of == as_of,
            r.ts_start is None,
            r.collector is None,
            r.source is None,
            collapses(*rib, r.obs()),
    {
        proof {
            rib.table.lemma_wf();
        }
        let rows = rib.iter();
        let ghost paths = rib.interner.paths();
        let mut snap = RibSnapshot::new(as_of);
        let mut i: usize = 0;
        while i < rows.len()
            invariant
                rib.wf(),
                i <= rows@.len(),
                paths == rib.interner.paths(),
                snap.wf(),
                snap.as_of == as_of,
                snap.ts_start is None,
                snap.collector is None,
                snap.source is None,
                forall|j: int|
                    #![trigger rows@[j]]
                    0 <= j < rows@.len() ==> rib.routes().contains_key(rows@[j].0.key())
                        && rows@[j].0.net() == rib.nets()[rows@[j].0.key()] && rows@[j].1@
                        == rib.routes()[rows@[j].0.key()],
                forall|j: int, k: int|
                    #![trigger rows@[j], rows@[k]]
                    0 <= j < k < rows@.len() ==> rows@[j].0.key() != rows@[k].0.key(),
                forall|k: PrefixKey| #[trigger]
                    rib.routes().contains_key(k) ==> rib.routes()[k] != Map::<
                        u32,
                        RouteEntry,
                    >::empty(),
                forall|k: PrefixKey, p: u32| #[trigger]
                    rib.routes()[k].contains_key(p) && rib.routes().contains_key(k)
                        ==> rib.routes()[k][p].peer_asn == p,
                forall|j: int|
                    #![trigger rows@[j]]
                    0 <= j < i ==> parsed_prefix(prefix_text(rows@[j].0.net())) == Some(
                        rows@[j].0.net(),
                    ),
                forall|j: int|
                    #![trigger rows@[j]]
                    0 <= j < i ==> match observed(paths, best_route(rows@[j].1@, paths)) {
                        Some(o) => snap.obs().contains_key(prefix_text(rows@[j].0.net()))
                            && snap.obs()[prefix_text(rows@[j].0.net())] == o,
                        None => !snap.obs().contains_key(prefix_text(rows@[j].0.net())),
                    },
                forall|t: Seq<char>| #[trigger]
                    snap.obs().contains_key(t) ==> exists|j: int|
                        #![trigger rows@[j]]
                        0 <= j < i && prefix_text(rows@[j].0.net()) == t,
            decreases rows@.len() - i,
        {
            let prefix = rows[i].0;
            let peers = rows[i].1;
            let ghost key = prefix.key();
            let ghost before = snap.obs();
            proof {
                assert(rows@[i as int].0 == prefix);
                assert(peers@ == rib.routes()[key]);
                assert forall|p: u32| #[trigger] peers@.contains_key(p) implies peers@[p].peer_asn
                    == p by {
                    assert(rib.routes()[key].contains_key(p));
                }
            }
            let e = pick_best(peers, &rib.interner);
            let text = prefix.text();
            proof {
                // A text names one prefix only, so this one is new.
                assert forall|j: int| 0 <= j < i implies prefix_text(
                    (#[trigger] rows@[j]).0.net(),
                ) != text@ by {
                    if prefix_text(rows@[j].0.net()) == text@ {
                        assert(rows@[j].0.net() == prefix.net());
                        assert(rows@[j].0.key() == rows@[i as int].0.key());
                    }
                }
                assert(!before.contains_key(text@));
            }
            if let Some(origin) = e.origin_asn {
                let path: Vec<u32> = match rib.interner.as_path(e.as_path_id) {
                    Some(p) => copy_u32(p),
                    None => Vec::new(),
                };
                assert(path@ =~= path_of(paths, e));
                let up = upstream_of_origin(path.as_slice(), origin);
                let o = PrefixObs { origin_asn: origin, upstream_asn: up, as_path: path };
                let ghost ov = o@;
                snap.prefixes.insert(text, o);
                assert(snap.obs() =~= before.insert(text@, ov));
            }
            i += 1;
            proof {
                assert forall|t: Seq<char>| #[trigger] snap.obs().contains_key(t) implies exists|
                    j: int,
                |
                    #![trigger rows@[j]]
                    0 <= j < i && prefix_text(rows@[j].0.net()) == t by {
                    if before.contains_key(t) {
                        let j = choose|j: int|
                            #![trigger rows@[j]]
                            0 <= j < i - 1 && prefix_text(rows@[j].0.net()) == t;
                        assert(prefix_text(rows@[j].0.net()) == t);
                    } else {
                        assert(prefix_text(rows@[i - 1].0.net()) == t);
                    }
                }
            }
        }
        proof {
            assert forall|k: PrefixKey| #[trigger] rib.routes().contains_key(k) implies match observed(
                rib.interner.paths(),
                best_route(rib.routes()[k], rib.interner.paths()),
            ) {
                Some(o) => snap.obs().contains_key(prefix_text(rib.nets()[k]))
                    && snap.obs()[prefix_text(rib.nets()[k])] == o,
                None => !snap.obs().contains_key(prefix_text(rib.nets()[k])),
            } by {
                let j = choose|j: int|
                    #![trigger rows@[j]]
                    0 <= j < rows@.len() && rows@[j].0.key() == k;
                assert(rows@[j].0.key() == k);
            }
            assert forall|t: Seq<char>| #[trigger] snap.obs().contains_key(t) implies exists|
                k: PrefixKey,
            | #[trigger] rib.routes().contains_key(k) && prefix_text(rib.nets()[k]) == t by {
                let j = choose|j: int|
                    #![trigger rows@[j]]
                    0 <= j < rows@.len() && prefix_text(rows@[j].0.net()) == t;
                assert(rib.routes().contains_key(rows@[j].0.key()));
            }
        }
        snap
    }

    /// The number of prefixes that each origin announces.
    pub fn prefix_count_by_origin(&self) -> (r: HashMap<u32, u32>)
        requires
            self.wf(),
            counts_fit(self.seen()),
        ensures
            forall|o: u32| #[trigger] count_of(r@, o) == origin_count(self.seen(), o),
            forall|o: u32| #[trigger]
                r@.contains_key(o) <==> origin_count(self.seen(), o) > 0,
    {
        let mut counts: HashMap<u32, u32> = HashMap::new();
        let ghost seen = self.seen();
        proof {
            self.lemma_wf();
        }
        let n: usize = self.prefixes.len();
        let mut i: usize = 0;
        assert(seen.subrange(0, 0) =~= Seq::empty());
        while i < n
            invariant
                self.wf(),
                seen == self.seen(),
                n == seen.len(),
                n == self.keys().len(),
                counts_fit(seen),
                i <= n,
                forall|o: u32| #[trigger]
                    count_of(counts@, o) == origin_count(seen.subrange(0, i as int), o),
                forall|o: u32| #[trigger]
                    counts@.contains_key(o) <==> origin_count(seen.subrange(0, i as int), o) > 0,
            decreases n - i,
        {
            let origin: u32 = self.prefixes.value_at(i).origin_asn;
            let ghost done = seen.subrange(0, i as int);
            let ghost next = seen.subrange(0, i as int + 1);
            proof {
                assert(next.drop_last() =~= done);
                assert(next.last() == seen[i as int]);
                assert(seen[i as int].origin_asn == origin);
                lemma_origin_count_grows(seen, origin, i + 1);
                assert(origin_count(seen, origin) <= u32::MAX);
                assert(count_of(counts@, origin) == origin_count(done, origin));
            }
            let c: u32 = match counts.get(&origin) {
                Some(c) => *c,
                None => 0,
            };
            let ghost before = counts@;
            counts.insert(origin, c + 1);
            proof {
                assert forall|o: u32| #[trigger] count_of(counts@, o) == origin_count(next, o) by {
                    assert(count_of(before, o) == origin_count(done, o));
                }
                assert forall|o: u32| #[trigger] counts@.contains_key(o) <==> origin_count(
                    next,
                    o,
                ) > 0 by {
                    assert(before.contains_key(o) <==> origin_count(done, o) > 0);
                }
            }
            i += 1;
        }
        assert(seen.subrange(0, n as int) =~= seen);
        counts
    }
}

/// How many observations have this origin.
pub open spec fn origin_count(seen: Seq<ObsView>, origin: u32) -> nat
    decreases seen.len(),
{
    if seen.len() == 0 {
        0
    } else {
        origin_count(seen.drop_last(), origin) + (if seen.last().origin_asn == origin {
            1nat
        } else {
            0
        })
    }
}

/// No origin announces more prefixes than 32 bits count.
pub open spec fn counts_fit(seen: Seq<ObsView>) -> bool {
    forall|o: u32| #[trigger] origin_count(seen, o) <= u32::MAX
}

proof fn lemma_origin_count_grows(seen: Seq<ObsView>, origin: u32, n: int)
    requires
        0 <= n <= seen.len(),
    ensures
        origin_count(seen.subrange(0, n), origin) <= origin_count(seen, origin),
    decreases seen.len() - n,
{
    if n == seen.len() {
        assert(seen.subrange(0, n) =~= seen);
    } else {
        lemma_origin_count_grows(seen, origin, n + 1);
        assert(seen.subrange(0, n + 1).drop_last() =~= seen.subrange(0, n));
    }
}

/// The number of prefixes of an origin is at most the number of prefixes; so 32 bits count them
/// wherever they count all prefixes.
pub proof fn few_prefixes_fit(seen: Seq<ObsView>)
    requires
        seen.len() <= u32::MAX,
    ensures
        counts_fit(seen),
{
    assert forall|o: u32| #[trigger] origin_count(seen, o) <= u32::MAX by {
        lemma_origin_count_bound(seen, o);
    }
}

proof fn lemma_origin_count_bound(seen: Seq<ObsView>, origin: u32)
    ensures
        origin_count(seen, origin) <= seen.len(),
    decreases seen.len(),
{
    if seen.len() > 0 {
        lemma_origin_count_bound(seen.drop_last(), origin);
    }
}

// ---- focus ----

/// The positions of the observations with an origin in focus, before `n`.
pub open spec fn focus_positions(seen: Seq<ObsView>, focus: Set<u32>, n: int) -> Seq<int>
    decreases n,
{
    if n <= 0 {
        Seq::empty()
    } else {
        let head = focus_positions(seen, focus, n - 1);
        if focus.contains(seen[n - 1].origin_asn) {
            head.push(n - 1)
        } else {
            head
        }
    }
}

/// The observations that an origin in focus announces.
pub open spec fn focused(obs: Map<Seq<char>, ObsView>, focus: Set<u32>) -> Map<Seq<char>, ObsView> {
    obs.restrict(
        Set::new(|k: Seq<char>| obs.contains_key(k) && focus.contains(obs[k].origin_asn)),
    )
}

/// Keeps the prefixes whose origin is in focus. The networks on the way do not count.
pub fn filter_snapshot_focus(snap: &mut RibSnapshot, focus: &HashSet<u32>)
    requires
        old(snap).wf(),
    ensures
        final(snap).wf(),
        final(snap).obs() == focused(old(snap).obs(), focus@),
        final(snap).seen() == focus_positions(
            old(snap).seen(),
            focus@,
            old(snap).seen().len() as int,
        ).map_values(|i: int| old(snap).seen()[i]),
        final(snap).keys() == focus_positions(
            old(snap).seen(),
            focus@,
            old(snap).seen().len() as int,
        ).map_values(|i: int| old(snap).keys()[i]),
        final(snap).as_of == old(snap).as_of,
        final(snap).ts_start == old(snap).ts_start,
        final(snap).collector == old(snap).collector,
        final(snap).source == old(snap).source,
{
    let ghost was = *snap;
    let ghost seen = was.seen();
    let ghost keys = was.keys();
    proof {
        was.lemma_wf();
    }
    let n: usize = snap.prefixes.len();
    let mut kept: TextMap<PrefixObs> = TextMap::new();
    let ghost empty_obs = kept.map().map_values(|o: PrefixObs| o@);
    let mut i: usize = 0;
    proof {
        assert(kept.keys() =~= focus_positions(seen, focus@, 0).map_values(|j: int| keys[j]));
        assert(Seq::new(kept.values().len(), |j: int| kept.values()[j]@) =~= focus_positions(
            seen,
            focus@,
            0,
        ).map_values(|j: int| seen[j]));
        assert(empty_obs =~= focused_upto(was, focus@, 0));
    }
    while i < n
        invariant
            *snap == was,
            was.wf(),
            seen == was.seen(),
            keys == was.keys(),
            n == keys.len(),
            n == seen.len(),
            keys.no_duplicates(),
            forall|j: int|
                0 <= j < keys.len() ==> was.obs().contains_key(#[trigger] keys[j])
                    && was.obs()[keys[j]] == seen[j],
            i <= n,
            kept.wf(),
            kept.keys() == focus_positions(seen, focus@, i as int).map_values(|j: int| keys[j]),
            Seq::new(kept.values().len(), |j: int| kept.values()[j]@) == focus_positions(
                seen,
                focus@,
                i as int,
            ).map_values(|j: int| seen[j]),
            kept.map().map_values(|o: PrefixObs| o@) == focused_upto(was, focus@, i as int),
        decreases n - i,
    {
        let o = snap.prefixes.value_at(i);
        assert(o@ == seen[i as int]);
        let ghost vals0 = kept.values();
        let ghost map0 = kept.map();
        let ghost keys0 = kept.keys();
        let ghost pos0 = focus_positions(seen, focus@, i as int);
        proof {
            let views = Seq::new(kept.values().len(), |j: int| kept.values()[j]@);
            assert(views.len() == vals0.len());
            assert(pos0.map_values(|j: int| seen[j]).len() == pos0.len());
            assert forall|j: int| 0 <= j < vals0.len() implies (#[trigger] vals0[j])@
                == seen[pos0[j]] by {
                assert(views[j] == vals0[j]@);
            }
        }
        if focus.contains(&o.origin_asn) {
            let c = o.copy();
            let ghost cv = c;
            let k = snap.prefixes.key_at(i).clone();
            proof {
                assert(k@ == keys[i as int]);
                assert(!map0.contains_key(k@)) by {
                    if map0.contains_key(k@) {
                        assert(map0.map_values(|o: PrefixObs| o@).contains_key(k@));
                        let j = choose|j: int|
                            0 <= j < i && keys[j] == k@ && focus@.contains(
                                (#[trigger] seen[j]).origin_asn,
                            );
                        assert(keys[j] != keys[i as int]);
                    }
                }
            }
            kept.insert(k, c);
            proof {
                let pos1 = focus_positions(seen, focus@, i + 1);
                assert(pos1 == pos0.push(i as int));
                assert(kept.keys() =~= pos1.map_values(|j: int| keys[j]));
                assert(Seq::new(kept.values().len(), |j: int| kept.values()[j]@)
                    =~= pos1.map_values(|j: int| seen[j])) by {
                    assert(kept.values() == vals0.push(cv));
                    assert forall|j: int| 0 <= j < kept.values().len() implies (
                    #[trigger] kept.values()[j])@ == seen[pos1[j]] by {
                        if j < vals0.len() {
                            assert(kept.values()[j] == vals0[j]);
                        }
                    }
                }
                assert(kept.map().map_values(|o: PrefixObs| o@) =~= focused_upto(
                    was,
                    focus@,
                    i + 1,
                )) by {
                    lemma_focused_step(was, focus@, i as int);
                }
            }
        } else {
            proof {
                lemma_focused_step(was, focus@, i as int);
                assert(kept.map().map_values(|o: PrefixObs| o@) =~= focused_upto(
                    was,
                    focus@,
                    i + 1,
                ));
            }
        }
        i += 1;
    }
    snap.prefixes = kept;
    proof {
        assert(snap.obs() =~= focused(was.obs(), focus@)) by {
            assert forall|k: Seq<char>|
                focused_upto(was, focus@, n as int).contains_key(k) <==> focused(
                    was.obs(),
                    focus@,
                ).contains_key(k) by {
                if focused(was.obs(), focus@).contains_key(k) {
                    assert(was.obs().contains_key(k));
                    assert(keys.contains(k));
                    let j = choose|j: int| 0 <= j < keys.len() && keys[j] == k;
                    assert(focus@.contains(seen[j].origin_asn));
                }
                if focused_upto(was, focus@, n as int).contains_key(k) {
                    let j = choose|j: int|
                        0 <= j < n && keys[j] == k && focus@.contains(
                            (#[trigger] seen[j]).origin_asn,
                        );
                    assert(was.obs().contains_key(keys[j]));
                }
            }
        }
        assert(snap.seen() =~= focus_positions(seen, focus@, n as int).map_values(
            |j: int| seen[j],
        ));
    }
}

/// The observations at the first `n` positions that an origin in focus announces.
spec fn focused_upto(was: RibSnapshot, focus: Set<u32>, n: int) -> Map<Seq<char>, ObsView> {
    Map::new(
        |k: Seq<char>|
            exists|j: int|
                0 <= j < n && was.keys()[j] == k && focus.contains(
                    (#[trigger] was.seen()[j]).origin_asn,
                ),
        |k: Seq<char>| was.obs()[k],
    )
}

proof fn lemma_focused_step(was: RibSnapshot, focus: Set<u32>, i: int)
    requires
        was.wf(),
        0 <= i < was.keys().len(),
    ensures
        focused_upto(was, focus, i + 1) == (if focus.contains(was.seen()[i].origin_asn) {
            focused_upto(was, focus, i).insert(was.keys()[i], was.seen()[i])
        } else {
            focused_upto(was, focus, i)
        }),
{
    was.lemma_wf();
    let keys = was.keys();
    let seen = was.seen();
    let expect = if focus.contains(seen[i].origin_asn) {
        focused_upto(was, focus, i).insert(keys[i], seen[i])
    } else {
        focused_upto(was, focus, i)
    };
    assert(was.obs()[keys[i]] == seen[i]);
    assert forall|k: Seq<char>|
        focused_upto(was, focus, i + 1).contains_key(k) <==> expect.contains_key(k) by {
        if focused_upto(was, focus, i + 1).contains_key(k) {
            let j = choose|j: int|
                0 <= j < i + 1 && keys[j] == k && focus.contains((#[trigger] seen[j]).origin_asn);
            if j < i {
                assert(focused_upto(was, focus, i).contains_key(k));
            }
        }
        if focused_upto(was, focus, i).contains_key(k) {
            let j = choose|j: int|
                0 <= j < i && keys[j] == k && focus.contains((#[trigger] seen[j]).origin_asn);
            assert(focused_upto(was, focus, i + 1).contains_key(k));
        }
        if k == keys[i] && focus.contains(seen[i].origin_asn) {
            assert(focused_upto(was, focus, i + 1).contains_key(k));
        }
    }
    assert(focused_upto(was, focus, i + 1) =~= expect);
}

/// Focusing twice is focusing once, and on two sets is focusing on what they share.
pub proof fn focusing_twice(obs: Map<Seq<char>, ObsView>, f: Set<u32>, g: Set<u32>)
    ensures
        focused(focused(obs, f), g) == focused(obs, f.intersect(g)),
        focused(focused(obs, f), f) == focused(obs, f),
{
    assert(focused(focused(obs, f), g) =~= focused(obs, f.intersect(g)));
    assert(focused(focused(obs, f), f) =~= focused(obs, f));
}

/// The prefixes that an origin announces are counted: as many as there are observations with it.
pub proof fn origin_counts_are_counts(seen: Seq<ObsView>, origin: u32)
    ensures
        origin_count(seen, origin) == seen.filter(|o: ObsView| o.origin_asn == origin).len(),
        origin_count(seen, origin) > 0 <==> exists|i: int|
            0 <= i < seen.len() && (#[trigger] seen[i]).origin_asn == origin,
    decreases seen.len(),
{
    reveal(Seq::filter);
    if seen.len() > 0 {
        let head = seen.drop_last();
        origin_counts_are_counts(head, origin);
        if seen.last().origin_asn == origin {
            assert(seen[seen.len() - 1].origin_asn == origin);
        }
        if exists|i: int| 0 <= i < head.len() && (#[trigger] head[i]).origin_asn == origin {
            let i = choose|i: int| 0 <= i < head.len() && (#[trigger] head[i]).origin_asn == origin;
            assert(seen[i].origin_asn == origin);
        }
        if exists|i: int| 0 <= i < seen.len() && (#[trigger] seen[i]).origin_asn == origin {
            let i = choose|i: int| 0 <= i < seen.len() && (#[trigger] seen[i]).origin_asn == origin;
            if i < head.len() {
                assert(head[i].origin_asn == origin);
            }
        }
    }
}

proof fn lemma_position_push(p: Seq<u32>, x: u32, asn: u32, n: int)
    requires
        n <= p.len(),
    ensures
        last_position(p.push(x), asn, n) == last_position(p, asn, n),
    decreases n,
{
    if n > 0 {
        lemma_position_push(p, x, asn, n - 1);
    }
}

proof fn lemma_position_bound(p: Seq<u32>, asn: u32, n: int)
    ensures
        last_position(p, asn, n) matches Some(i) ==> 0 <= i < n,
    decreases n,
{
    if n > 0 {
        lemma_position_bound(p, asn, n - 1);
    }
}

/// The upstream of an origin is the network before the last run of the origin on the path, however
/// often the origin is repeated there. Where the path begins with that run there is none.
pub proof fn upstreams_stand_before_the_origin(path: Seq<u32>, origin: u32, i: int, j: int)
    requires
        0 <= i <= j < path.len(),
        forall|k: int| i <= k <= j ==> #[trigger] path[k] == origin,
        forall|k: int| j < k < path.len() ==> #[trigger] path[k] != origin,
        i > 0 ==> path[i - 1] != origin,
    ensures
        upstream(path, origin) == (if i > 0 {
            Some(path[i - 1])
        } else {
            None
        }),
    decreases path.len(),
{
    let n = path.len() as int;
    let rest = path.drop_last();
    let x = path.last();
    let c = collapsed(rest);
    crate::detect::lemma_collapsed(rest);
    assert(path[j] == origin);
    if j < n - 1 {
        assert(path[n - 1] != origin);
        assert forall|k: int| i <= k <= j implies #[trigger] rest[k] == origin by {
            assert(rest[k] == path[k]);
        }
        assert forall|k: int| j < k < rest.len() implies #[trigger] rest[k] != origin by {
            assert(rest[k] == path[k]);
        }
        upstreams_stand_before_the_origin(rest, origin, i, j);
        lemma_position_push(c, x, origin, c.len() as int);
        lemma_position_bound(c, origin, c.len() as int);
    } else if i < j {
        assert(path[n - 2] == origin);
        assert forall|k: int| i <= k <= j - 1 implies #[trigger] rest[k] == origin by {
            assert(rest[k] == path[k]);
        }
        upstreams_stand_before_the_origin(rest, origin, i, j - 1);
    } else if n > 1 {
        assert(rest.last() == path[n - 2]);
        assert(collapsed(path) == c.push(x));
    } else {
        assert(collapsed(path) == path);
    }
}

/// A path without the origin gives it no upstream.
pub proof fn origins_off_the_path_have_no_upstream(path: Seq<u32>, origin: u32)
    requires
        forall|k: int| 0 <= k < path.len() ==> #[trigger] path[k] != origin,
    ensures
        upstream(path, origin) is None,
{
    lemma_off_path(path, origin);
}

proof fn lemma_off_path(path: Seq<u32>, origin: u32)
    requires
        forall|k: int| 0 <= k < path.len() ==> #[trigger] path[k] != origin,
    ensures
        last_position(collapsed(path), origin, collapsed(path).len() as int) is None,
    decreases path.len(),
{
    if path.len() > 1 {
        let rest = path.drop_last();
        assert forall|k: int| 0 <= k < rest.len() implies #[trigger] rest[k] != origin by {
            assert(rest[k] == path[k]);
        }
        lemma_off_path(rest, origin);
        let c = collapsed(rest);
        lemma_position_push(c, path.last(), origin, c.len() as int);
        assert(path[path.len() - 1] != origin);
    } else if path.len() == 1 {
        assert(path[0] != origin);
        assert(last_position(path, origin, 0) is None);
    }
}

/// A snapshot says of a prefix what the route of the peer with the longest path says, and of peers
/// with paths of the same length that of the lowest; it says nothing of a prefix whose route has no
/// origin, and nothing of what the table does not hold.
pub proof fn snapshots_keep_the_longest_path(
    rib: Rib,
    obs: Map<Seq<char>, ObsView>,
    key: PrefixKey,
    peer: u32,
)
    requires
        collapses(rib, obs),
        rib.routes().contains_key(key),
        rib.routes()[key].contains_key(peer),
        forall|q: u32| #[trigger]
            rib.routes()[key].contains_key(q) && q != peer ==> path_of(
                rib.interner.paths(),
                rib.routes()[key][q],
            ).len() < path_of(rib.interner.paths(), rib.routes()[key][peer]).len() || (path_of(
                rib.interner.paths(),
                rib.routes()[key][q],
            ).len() == path_of(rib.interner.paths(), rib.routes()[key][peer]).len() && peer < q),
    ensures
        ({
            let e = rib.routes()[key][peer];
            let t = prefix_text(rib.nets()[key]);
            let path = path_of(rib.interner.paths(), e);
            &&& e.origin_asn is None ==> !obs.contains_key(t)
            &&& e.origin_asn matches Some(o) ==> obs.contains_key(t) && obs[t] == (ObsView {
                origin_asn: o,
                upstream_asn: upstream(path, o),
                as_path: path,
            })
        }),
{
    let peers = rib.routes()[key];
    let paths = rib.interner.paths();
    assert(is_best(peers, paths, peer));
    best_is_unique(peers, paths, peer, best_peer(peers, paths));
}

/// The path of a route is the one that the interner has under the route's number.
pub proof fn paths_are_found_by_number(paths: Seq<Seq<u32>>, e: RouteEntry)
    ensures
        e.as_path_id < paths.len() ==> path_of(paths, e) == paths[e.as_path_id as int],
        e.as_path_id >= paths.len() ==> path_of(paths, e).len() == 0,
{
}

/// Focusing keeps a prefix just where its origin is in focus, with all that was observed of it; the
/// networks on the way make no difference.
pub proof fn focusing_is_by_origin(obs: Map<Seq<char>, ObsView>, focus: Set<u32>, k: Seq<char>)
    ensures
        focused(obs, focus).contains_key(k) <==> obs.contains_key(k) && focus.contains(
            obs[k].origin_asn,
        ),
        focused(obs, focus).contains_key(k) ==> focused(obs, focus)[k] == obs[k],
{
}

/// What is in focus keeps its order: its positions rise, and are just those with an origin in focus.
pub proof fn focusing_keeps_the_order(seen: Seq<ObsView>, focus: Set<u32>, n: int, i: int)
    requires
        0 <= n <= seen.len(),
    ensures
        focus_positions(seen, focus, n).contains(i) <==> 0 <= i < n && focus.contains(
            seen[i].origin_asn,
        ),
        forall|a: int, b: int|
            0 <= a < b < focus_positions(seen, focus, n).len() ==> (#[trigger] focus_positions(
                seen,
                focus,
                n,
            )[a]) < (#[trigger] focus_positions(seen, focus, n)[b]),
        forall|a: int|
            0 <= a < focus_positions(seen, focus, n).len() ==> (#[trigger] focus_positions(
                seen,
                focus,
                n,
            )[a]) < n,
    decreases n,
{
    if n > 0 {
        focusing_keeps_the_order(seen, focus, n - 1, i);
        vstd::seq_lib::lemma_seq_contains_after_push(
            focus_positions(seen, focus, n - 1),
            n - 1,
            i,
        );
    }
}

/// A snapshot of a table says something only of prefixes that the table holds.
pub proof fn snapshots_hold_prefixes_of_the_table(
    rib: Rib,
    obs: Map<Seq<char>, ObsView>,
    t: Seq<char>,
)
    requires
        collapses(rib, obs),
        obs.contains_key(t),
    ensures
        exists|k: PrefixKey| #[trigger]
            rib.routes().contains_key(k) && prefix_text(rib.nets()[k]) == t,
{
}

} // verus!
