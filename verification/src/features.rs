//! Contact features of pairs of networks, and the sparse daily filter.

use crate::diff::fresh;
use crate::events::{
    canon_pair, event_views, pack, packed, packed_injective, pair_of, AsnPair, EventView, MaEvent,
    MaEventKind,
};
use crate::order::{in_rank_order, rank, ranked, Ranked};
use crate::orgs::{copy_opt_text, opt_text};
use crate::text::texts;
use crate::time::{earlier, instant_day, whole_days, Instant};
use std::collections::{HashMap, HashSet};
use vstd::hash_set::StringHashSet;
use vstd::prelude::*;
use vstd::seq_lib::lemma_seq_contains_after_push;

verus! {

broadcast use vstd::std_specs::hash::group_hash_axioms;

/// What the events of a pair of networks come to.
#[derive(Debug)]
pub struct AsnPairFeature {
    pub asn_lo: u32,
    pub asn_hi: u32,
    pub org_lo: Option<String>,
    pub org_hi: Option<String>,
    /// Days with a prefix move between the two.
    pub prefix_move_days: u32,
    /// Prefixes that moved between the two.
    pub prefixes_moved: u32,
    pub new_adj_days: u32,
    pub upstream_converge_days: u32,
    pub first_seen: Instant,
    pub last_seen: Instant,
    /// Whole days from the first to the last event.
    pub persistence_days: i64,
    /// Rank for triage; no probability.
    pub score: i64,
}

/// What a feature says.
#[verifier::ext_equal]
pub struct FeatureView {
    pub asn_lo: u32,
    pub asn_hi: u32,
    pub org_lo: Option<Seq<char>>,
    pub org_hi: Option<Seq<char>>,
    pub prefix_move_days: u32,
    pub prefixes_moved: u32,
    pub new_adj_days: u32,
    pub upstream_converge_days: u32,
    pub first_seen: Instant,
    pub last_seen: Instant,
    pub persistence_days: i64,
    pub score: i64,
}

impl View for AsnPairFeature {
    type V = FeatureView;

    open spec fn view(&self) -> FeatureView {
        FeatureView {
            asn_lo: self.asn_lo,
            asn_hi: self.asn_hi,
            org_lo: opt_text(self.org_lo),
            org_hi: opt_text(self.org_hi),
            prefix_move_days: self.prefix_move_days,
            prefixes_moved: self.prefixes_moved,
            new_adj_days: self.new_adj_days,
            upstream_converge_days: self.upstream_converge_days,
            first_seen: self.first_seen,
            last_seen: self.last_seen,
            persistence_days: self.persistence_days,
            score: self.score,
        }
    }
}

/// What features say.
pub open spec fn feature_views(v: Seq<AsnPairFeature>) -> Seq<FeatureView> {
    Seq::new(v.len(), |i: int| v[i]@)
}

impl AsnPairFeature {
    /// A copy of the feature.
    pub fn copy(&self) -> (r: AsnPairFeature)
        ensures
            r@ == self@,
    {
        AsnPairFeature {
            asn_lo: self.asn_lo,
            asn_hi: self.asn_hi,
            org_lo: copy_opt_text(&self.org_lo),
            org_hi: copy_opt_text(&self.org_hi),
            prefix_move_days: self.prefix_move_days,
            prefixes_moved: self.prefixes_moved,
            new_adj_days: self.new_adj_days,
            upstream_converge_days: self.upstream_converge_days,
            first_seen: self.first_seen,
            last_seen: self.last_seen,
            persistence_days: self.persistence_days,
            score: self.score,
        }
    }
}

/// Features rank by score, the highest first, then by the lower network.
impl Ranked for AsnPairFeature {
    open spec fn before(&self, other: &Self) -> bool {
        self.score > other.score || (self.score == other.score && self.asn_lo < other.asn_lo)
    }

    proof fn before_asymmetric(a: &Self, b: &Self) {
    }

    proof fn not_before_transitive(a: &Self, b: &Self, c: &Self) {
    }

    fn is_before(&self, other: &Self) -> (r: bool) {
        self.score > other.score || (self.score == other.score && self.asn_lo < other.asn_lo)
    }
}

// ---- gathering ----

/// The pair of two different networks that an event names.
pub open spec fn contact_pair(e: EventView) -> Option<AsnPair> {
    match (e.asn_a, e.asn_b) {
        (Some(a), Some(b)) => if a != b {
            Some(pair_of(a, b))
        } else {
            None
        },
        _ => None,
    }
}

/// The pairs of events, in order.
pub open spec fn contact_pairs(events: Seq<EventView>) -> Seq<AsnPair>
    decreases events.len(),
{
    if events.len() == 0 {
        Seq::empty()
    } else {
        let head = contact_pairs(events.drop_last());
        match contact_pair(events.last()) {
            Some(p) => head.push(p),
            None => head,
        }
    }
}

/// What has been gathered of a pair.
#[verifier::ext_equal]
pub struct Gathered {
    pub org_lo: Option<Seq<char>>,
    pub org_hi: Option<Seq<char>>,
    /// The day of each prefix move.
    pub move_days: Seq<i64>,
    /// The prefix of each prefix move.
    pub prefixes: Seq<Seq<char>>,
    pub adj_days: Seq<i64>,
    pub upstream_days: Seq<i64>,
    /// The time of the first and the last event, where there is one.
    pub span: Option<(Instant, Instant)>,
}

/// Nothing gathered.
pub open spec fn nothing_gathered() -> Gathered {
    Gathered {
        org_lo: None,
        org_hi: None,
        move_days: Seq::empty(),
        prefixes: Seq::empty(),
        adj_days: Seq::empty(),
        upstream_days: Seq::empty(),
        span: None,
    }
}

/// The first of two optional values that is there.
pub open spec fn or_else<A>(a: Option<A>, b: Option<A>) -> Option<A> {
    if a is Some {
        a
    } else {
        b
    }
}

/// A span stretched to hold another time.
pub open spec fn stretched(span: Option<(Instant, Instant)>, t: Instant) -> (Instant, Instant) {
    match span {
        None => (t, t),
        Some((f, l)) => (
            if earlier(t, f) {
                t
            } else {
                f
            },
            if earlier(l, t) {
                t
            } else {
                l
            },
        ),
    }
}

/// The calendar day of an event.
pub open spec fn event_day(e: EventView) -> i64 {
    instant_day(e.timestamp) as i64
}

/// What is gathered with one more event of the pair.
pub open spec fn gather_one(g: Gathered, p: AsnPair, e: EventView) -> Gathered {
    let straight = e.asn_a == Some(p.0);
    Gathered {
        org_lo: or_else(
            g.org_lo,
            if straight {
                e.org_a
            } else {
                e.org_b
            },
        ),
        org_hi: or_else(
            g.org_hi,
            if straight {
                e.org_b
            } else {
                e.org_a
            },
        ),
        move_days: if e.kind == MaEventKind::PrefixMove {
            g.move_days.push(event_day(e))
        } else {
            g.move_days
        },
        prefixes: if e.kind == MaEventKind::PrefixMove && e.prefix is Some {
            g.prefixes.push(e.prefix->0)
        } else {
            g.prefixes
        },
        adj_days: if e.kind == MaEventKind::NewAdj {
            g.adj_days.push(event_day(e))
        } else {
            g.adj_days
        },
        upstream_days: if e.kind == MaEventKind::UpstreamConverge {
            g.upstream_days.push(event_day(e))
        } else {
            g.upstream_days
        },
        span: Some(stretched(g.span, e.timestamp)),
    }
}

/// What is gathered of a pair from events.
pub open spec fn gathered(events: Seq<EventView>, p: AsnPair) -> Gathered
    decreases events.len(),
{
    if events.len() == 0 {
        nothing_gathered()
    } else {
        let g = gathered(events.drop_last(), p);
        if contact_pair(events.last()) == Some(p) {
            gather_one(g, p, events.last())
        } else {
            g
        }
    }
}

/// How many different items a list has, in 32 bits.
pub open spec fn distinct_count<A>(s: Seq<A>) -> u32 {
    fresh(Seq::empty(), s).len() as u32
}

/// The score of a pair: ten for each prefix, five for each day with a move, one for each other
/// day of contact and for each day of persistence.
pub open spec fn score_of(
    prefixes: u32,
    move_days: u32,
    adj_days: u32,
    upstream_days: u32,
    persistence: int,
) -> int {
    prefixes * 10 + move_days * 5 + adj_days + upstream_days + (if persistence > 0 {
        persistence
    } else {
        0
    })
}

/// The feature of what was gathered of a pair.
pub open spec fn feature_from(p: AsnPair, g: Gathered) -> FeatureView {
    let (first, last) = g.span->0;
    let prefixes = distinct_count(g.prefixes);
    let move_days = distinct_count(g.move_days);
    let adj_days = distinct_count(g.adj_days);
    let upstream_days = distinct_count(g.upstream_days);
    let persistence = whole_days(last, first);
    FeatureView {
        asn_lo: p.0,
        asn_hi: p.1,
        org_lo: g.org_lo,
        org_hi: g.org_hi,
        prefix_move_days: move_days,
        prefixes_moved: prefixes,
        new_adj_days: adj_days,
        upstream_converge_days: upstream_days,
        first_seen: first,
        last_seen: last,
        persistence_days: persistence as i64,
        score: score_of(prefixes, move_days, adj_days, upstream_days, persistence) as i64,
    }
}

/// The feature of a pair.
pub open spec fn feature_of(events: Seq<EventView>, p: AsnPair) -> FeatureView {
    feature_from(p, gathered(events, p))
}

/// The features of all pairs, in the order in which the pairs appear.
pub open spec fn pair_features(events: Seq<EventView>) -> Seq<FeatureView> {
    let pairs = fresh(Seq::empty(), contact_pairs(events));
    Seq::new(pairs.len(), |i: int| feature_of(events, pairs[i]))
}

/// What is being gathered of a pair.
struct Acc {
    lo: u32,
    hi: u32,
    org_lo: Option<String>,
    org_hi: Option<String>,
    move_days: Vec<i64>,
    prefixes: Vec<String>,
    adj_days: Vec<i64>,
    upstream_days: Vec<i64>,
    first: Instant,
    last: Instant,
    any: bool,
}

impl Acc {
    spec fn got(&self) -> Gathered {
        Gathered {
            org_lo: opt_text(self.org_lo),
            org_hi: opt_text(self.org_hi),
            move_days: self.move_days@,
            prefixes: texts(self.prefixes@),
            adj_days: self.adj_days@,
            upstream_days: self.upstream_days@,
            span: if self.any {
                Some((self.first, self.last))
            } else {
                None
            },
        }
    }

    fn new(p: AsnPair, t: Instant) -> (r: Acc)
        ensures
            (r.lo, r.hi) == p,
            r.got() == nothing_gathered(),
    {
        let r = Acc {
            lo: p.0,
            hi: p.1,
            org_lo: None,
            org_hi: None,
            move_days: Vec::new(),
            prefixes: Vec::new(),
            adj_days: Vec::new(),
            upstream_days: Vec::new(),
            first: t,
            last: t,
            any: false,
        };
        assert(texts(r.prefixes@) =~= Seq::empty());
        r
    }

    fn touch(&mut self, t: Instant)
        ensures
            final(self).lo == old(self).lo,
            final(self).hi == old(self).hi,
            final(self).got() == (Gathered {
                span: Some(stretched(old(self).got().span, t)),
                ..old(self).got()
            }),
    {
        if !self.any {
            self.first = t;
            self.last = t;
            self.any = true;
        } else {
            if t.is_earlier(&self.first) {
                self.first = t;
            }
            if self.last.is_earlier(&t) {
                self.last = t;
            }
        }
    }

    fn assign_orgs(&mut self, lo: &Option<String>, hi: &Option<String>)
        ensures
            final(self).lo == old(self).lo,
            final(self).hi == old(self).hi,
            final(self).got() == (Gathered {
                org_lo: or_else(old(self).got().org_lo, opt_text(*lo)),
                org_hi: or_else(old(self).got().org_hi, opt_text(*hi)),
                ..old(self).got()
            }),
    {
        if self.org_lo.is_none() {
            self.org_lo = copy_opt_text(lo);
        }
        if self.org_hi.is_none() {
            self.org_hi = copy_opt_text(hi);
        }
    }

    fn absorb(&mut self, ev: &MaEvent)
        requires
            contact_pair(ev@) == Some((old(self).lo, old(self).hi)),
        ensures
            final(self).lo == old(self).lo,
            final(self).hi == old(self).hi,
            final(self).got() == gather_one(
                old(self).got(),
                (old(self).lo, old(self).hi),
                ev@,
            ),
    {
        let ghost g = self.got();
        if ev.asn_a == Some(self.lo) {
            self.assign_orgs(&ev.org_a, &ev.org_b);
        } else {
            self.assign_orgs(&ev.org_b, &ev.org_a);
        }
        self.touch(ev.timestamp);
        let day: i64 = ev.timestamp.date().day;
        let ghost texts0 = texts(self.prefixes@);
        match ev.kind {
            MaEventKind::PrefixMove => {
                self.move_days.push(day);
                if let Some(p) = &ev.prefix {
                    self.prefixes.push(p.clone());
                    assert(texts(self.prefixes@) =~= texts0.push(p@));
                }
            },
            MaEventKind::NewAdj => {
                self.adj_days.push(day);
            },
            MaEventKind::UpstreamConverge => {
                self.upstream_days.push(day);
            },
            MaEventKind::FootprintStep => {},
        }
        assert(self.got() =~= gather_one(g, (self.lo, self.hi), ev@));
    }

    fn feature(&self) -> (r: AsnPairFeature)
        requires
            self.any,
        ensures
            r@ == feature_from((self.lo, self.hi), self.got()),
    {
        let prefixes: usize = distinct_texts(&self.prefixes);
        let prefixes_moved: u32 = #[verifier::truncate]
        (prefixes as u32);
        let prefix_move_days: u32 = distinct_days(&self.move_days);
        let new_adj_days: u32 = distinct_days(&self.adj_days);
        let upstream_converge_days: u32 = distinct_days(&self.upstream_days);
        let persistence_days: i64 = self.last.days_since(&self.first);
        let lasting: i64 = if persistence_days > 0 {
            persistence_days
        } else {
            0
        };
        let score: i64 = prefixes_moved as i64 * 10 + prefix_move_days as i64 * 5
            + new_adj_days as i64 + upstream_converge_days as i64 + lasting;
        AsnPairFeature {
            asn_lo: self.lo,
            asn_hi: self.hi,
            org_lo: copy_opt_text(&self.org_lo),
            org_hi: copy_opt_text(&self.org_hi),
            prefix_move_days,
            prefixes_moved,
            new_adj_days,
            upstream_converge_days,
            first_seen: self.first,
            last_seen: self.last,
            persistence_days,
            score,
        }
    }
}

fn distinct_days(days: &[i64]) -> (r: u32)
    ensures
        r == distinct_count(days@),
{
    let mut known: HashSet<i64> = HashSet::new();
    let mut n: usize = 0;
    let mut i: usize = 0;
    while i < days.len()
        invariant
            i <= days@.len(),
            n <= i,
            forall|x: i64| #[trigger]
                known@.contains(x) <==> days@.subrange(0, i as int).contains(x),
            n == fresh(Seq::empty(), days@.subrange(0, i as int)).len(),
        decreases days@.len() - i,
    {
        let d: i64 = days[i];
        let ghost done = days@.subrange(0, i as int);
        let ghost next = days@.subrange(0, i as int + 1);
        let ghost was = known@;
        assert(next.drop_last() =~= done);
        assert(next =~= done.push(d));
        if known.insert(d) {
            n += 1;
        }
        proof {
            assert forall|x: i64| #[trigger] known@.contains(x) <==> next.contains(x) by {
                lemma_seq_contains_after_push(done, d, x);
                assert(was.contains(x) <==> done.contains(x));
            }
        }
        i += 1;
    }
    assert(days@.subrange(0, days@.len() as int) =~= days@);
    #[verifier::truncate]
    (n as u32)
}

fn distinct_texts(list: &[String]) -> (r: usize)
    ensures
        r == fresh(Seq::empty(), texts(list@)).len(),
{
    let mut known = StringHashSet::new();
    let ghost all = texts(list@);
    let mut n: usize = 0;
    let mut i: usize = 0;
    while i < list.len()
        invariant
            i <= list@.len(),
            all == texts(list@),
            n <= i,
            forall|x: Seq<char>| #[trigger]
                known@.contains(x) <==> all.subrange(0, i as int).contains(x),
            n == fresh(Seq::empty(), all.subrange(0, i as int)).len(),
        decreases list@.len() - i,
    {
        let ghost d = all[i as int];
        let ghost done = all.subrange(0, i as int);
        let ghost next = all.subrange(0, i as int + 1);
        let ghost was = known@;
        assert(next.drop_last() =~= done);
        assert(next =~= done.push(d));
        if known.insert(list[i].clone()) {
            n += 1;
        }
        proof {
            assert forall|x: Seq<char>| #[trigger] known@.contains(x) <==> next.contains(x) by {
                lemma_seq_contains_after_push(done, d, x);
                assert(was.contains(x) <==> done.contains(x));
            }
        }
        i += 1;
    }
    assert(all.subrange(0, all.len() as int) =~= all);
    n
}

/// The accumulators hold what events say of their pairs.
spec fn accs_fit(accs: Seq<Acc>, index: Map<u64, usize>, events: Seq<EventView>) -> bool {
    let pairs = fresh(Seq::empty(), contact_pairs(events));
    &&& accs.len() == pairs.len()
    &&& forall|i: int|
        0 <= i < accs.len() ==> ((#[trigger] accs[i]).lo, accs[i].hi) == pairs[i]
            && accs[i].got() == gathered(events, pairs[i]) && accs[i].any
    &&& forall|i: int|
        0 <= i < accs.len() ==> index.contains_key(packed(#[trigger] pairs[i]))
            && index[packed(pairs[i])] == i
    &&& forall|p: AsnPair| #[trigger]
        index.contains_key(packed(p)) ==> contact_pairs(events).contains(p)
}

proof fn lemma_pairs_in_events(events: Seq<EventView>, p: AsnPair)
    ensures
        !contact_pairs(events).contains(p) ==> gathered(events, p) == nothing_gathered(),
    decreases events.len(),
{
    if events.len() > 0 {
        let rest = events.drop_last();
        lemma_pairs_in_events(rest, p);
        if contact_pair(events.last()) is Some {
            lemma_seq_contains_after_push(contact_pairs(rest), contact_pair(events.last())->0, p);
        }
    }
}

/// Aggregates events into features of pairs of networks, the highest score first.
pub fn aggregate_pair_features(events: &[MaEvent]) -> (r: Vec<AsnPairFeature>)
    ensures
        exists|u: Seq<AsnPairFeature>|
            feature_views(u) == pair_features(event_views(events@)) && r@ == #[trigger] ranked(u),
        in_rank_order(r@),
{
    let ghost evs = event_views(events@);
    let mut accs: Vec<Acc> = Vec::new();
    let mut index: HashMap<u64, usize> = HashMap::new();
    let mut i: usize = 0;
    assert(evs.subrange(0, 0) =~= Seq::empty());
    assert(accs_fit(accs@, index@, evs.subrange(0, 0)));
    while i < events.len()
        invariant
            i <= events@.len(),
            evs == event_views(events@),
            accs_fit(accs@, index@, evs.subrange(0, i as int)),
        decreases events@.len() - i,
    {
        let ev = &events[i];
        let ghost done = evs.subrange(0, i as int);
        let ghost next = evs.subrange(0, i as int + 1);
        let ghost pairs0 = fresh(Seq::empty(), contact_pairs(done));
        let ghost pairs1 = fresh(Seq::empty(), contact_pairs(next));
        let ghost accs0 = accs@;
        let ghost index0 = index@;
        proof {
            assert(next.drop_last() =~= done);
            assert(next.last() == ev@);
            crate::diff::fresh_items(Seq::empty(), contact_pairs(done));
            crate::diff::fresh_items(Seq::empty(), contact_pairs(next));
            assert(forall|p: AsnPair| !Seq::<AsnPair>::empty().contains(p));
        }
        if let (Some(a), Some(b)) = (ev.asn_a, ev.asn_b) {
            if a != b {
                let p = canon_pair(a, b);
                let key: u64 = pack(p.0, p.1);
                proof {
                    assert(contact_pairs(next) == contact_pairs(done).push(p));
                    assert(contact_pairs(next).drop_last() =~= contact_pairs(done));
                }
                let slot: usize = match index.get(&key) {
                    Some(s) => *s,
                    None => {
                        let n: usize = accs.len();
                        accs.push(Acc::new(p, ev.timestamp));
                        index.insert(key, n);
                        n
                    },
                };
                let ghost accs1 = accs@;
                proof {
                    if index0.contains_key(key) {
                        assert(contact_pairs(done).contains(p));
                        assert(pairs0.contains(p));
                        let k = choose|k: int| 0 <= k < pairs0.len() && pairs0[k] == p;
                        assert(index0[packed(pairs0[k])] == k);
                        assert(pairs1 == pairs0);
                        assert(accs1[slot as int].got() == gathered(done, p));
                    } else {
                        assert(!contact_pairs(done).contains(p)) by {
                            if contact_pairs(done).contains(p) {
                                assert(pairs0.contains(p));
                                let k = choose|k: int| 0 <= k < pairs0.len() && pairs0[k] == p;
                                assert(index0.contains_key(packed(pairs0[k])));
                            }
                        }
                        lemma_pairs_in_events(done, p);
                        assert(pairs1 == pairs0.push(p));
                    }
                    assert((accs1[slot as int].lo, accs1[slot as int].hi) == p);
                    assert(pairs1[slot as int] == p);
                }
                accs[slot].absorb(ev);
                proof {
                    assert(accs@.len() == accs1.len());
                    assert forall|k: int| 0 <= k < accs@.len() && k != slot implies
                        #[trigger] accs@[k] == accs1[k] by {}
                    assert forall|k: int| 0 <= k < accs@.len() implies (
                        (#[trigger] accs@[k]).lo,
                        accs@[k].hi,
                    ) == pairs1[k] && accs@[k].got() == gathered(next, pairs1[k])
                        && accs@[k].any by {
                        if k != slot {
                            assert(accs@[k] == accs1[k]);
                            assert(accs1[k] == accs0[k]);
                            assert(pairs1[k] == pairs0[k]);
                            assert(pairs1[k] != pairs1[slot as int]);
                        } else {
                            assert(accs@[k].got().span is Some);
                        }
                    }
                    assert forall|k: int| 0 <= k < accs@.len() implies index@.contains_key(
                        packed(#[trigger] pairs1[k]),
                    ) && index@[packed(pairs1[k])] == k by {
                        if k < accs0.len() {
                            assert(pairs1[k] == pairs0[k]);
                            assert(index0.contains_key(packed(pairs0[k])));
                            packed_injective(pairs0[k], p);
                        }
                    }
                    assert forall|q: AsnPair| #[trigger] index@.contains_key(packed(q)) implies
                        contact_pairs(next).contains(q) by {
                        lemma_seq_contains_after_push(contact_pairs(done), p, q);
                        packed_injective(p, q);
                        if q != p {
                            assert(index0.contains_key(packed(q)));
                        }
                    }
                    assert(accs_fit(accs@, index@, next));
                }
            } else {
                assert(accs_fit(accs@, index@, next));
            }
        } else {
            assert(accs_fit(accs@, index@, next));
        }
        i += 1;
    }
    assert(evs.subrange(0, evs.len() as int) =~= evs);
    let mut out: Vec<AsnPairFeature> = Vec::new();
    let mut k: usize = 0;
    while k < accs.len()
        invariant
            k <= accs@.len(),
            accs_fit(accs@, index@, evs),
            out@.len() == k,
            forall|j: int| 0 <= j < k ==> (#[trigger] out@[j])@ == pair_features(evs)[j],
        decreases accs@.len() - k,
    {
        let f = accs[k].feature();
        out.push(f);
        k += 1;
    }
    let ghost u = out@;
    assert(feature_views(u) =~= pair_features(evs));
    proof {
        crate::order::ranked_is_ordered_permutation(u);
    }
    rank(out)
}

// ---- the sparse filter ----

/// Which events of a day are kept.
#[derive(Clone, Copy, Debug, PartialEq, Eq, Structural)]
pub struct SparseConfig {
    /// A move is kept where the pair moves at least this many prefixes that day.
    pub min_prefix_moves_per_pair_day: u32,
    pub keep_new_adj: bool,
    pub keep_upstream_converge: bool,
    pub keep_footprint_step: bool,
}

impl Default for SparseConfig {
    fn default() -> (r: Self)
        ensures
            r == (SparseConfig {
                min_prefix_moves_per_pair_day: 2,
                keep_new_adj: false,
                keep_upstream_converge: false,
                keep_footprint_step: false,
            }),
    {
        SparseConfig {
            min_prefix_moves_per_pair_day: 2,
            keep_new_adj: false,
            keep_upstream_converge: false,
            keep_footprint_step: false,
        }
    }
}

/// The pair and the day of a move that names both networks.
pub open spec fn move_key(e: EventView) -> Option<(AsnPair, i64)> {
    match (e.kind, e.asn_a, e.asn_b) {
        (MaEventKind::PrefixMove, Some(a), Some(b)) => Some((pair_of(a, b), event_day(e))),
        _ => None,
    }
}

/// The prefixes that a pair moves on a day, one for each move that names its prefix.
pub open spec fn moved_prefixes(events: Seq<EventView>, k: (AsnPair, i64)) -> Seq<Seq<char>>
    decreases events.len(),
{
    if events.len() == 0 {
        Seq::empty()
    } else {
        let head = moved_prefixes(events.drop_last(), k);
        let e = events.last();
        if move_key(e) == Some(k) && e.prefix is Some {
            head.push(e.prefix->0)
        } else {
            head
        }
    }
}

/// How many prefixes a pair moves on a day.
pub open spec fn moved_count(events: Seq<EventView>, k: (AsnPair, i64)) -> nat {
    fresh(Seq::empty(), moved_prefixes(events, k)).len()
}

/// An event is kept: a move where its pair moves enough prefixes that day, others as configured.
pub open spec fn is_kept(all: Seq<EventView>, cfg: SparseConfig, e: EventView) -> bool {
    match e.kind {
        MaEventKind::PrefixMove => match move_key(e) {
            Some(k) => moved_count(all, k) >= cfg.min_prefix_moves_per_pair_day,
            None => false,
        },
        MaEventKind::NewAdj => cfg.keep_new_adj,
        MaEventKind::UpstreamConverge => cfg.keep_upstream_converge,
        MaEventKind::FootprintStep => cfg.keep_footprint_step,
    }
}

/// The events that are kept, in order.
pub open spec fn sparse(all: Seq<EventView>, cfg: SparseConfig) -> Seq<EventView> {
    all.filter(|e: EventView| is_kept(all, cfg, e))
}

/// A pair and a day as one number.
spec fn day_key(k: (AsnPair, i64)) -> u128 {
    (packed(k.0) * 0x1_0000_0000_0000_0000 + (k.1 + 0x8000_0000_0000_0000)) as u128
}

proof fn lemma_day_key(j: (AsnPair, i64), k: (AsnPair, i64))
    ensures
        day_key(j) == day_key(k) <==> j == k,
{
    packed_injective(j.0, k.0);
    let a = packed(j.0) as int;
    let b = packed(k.0) as int;
    let x = j.1 + 0x8000_0000_0000_0000;
    let y = k.1 + 0x8000_0000_0000_0000;
    assert(0 <= x < 0x1_0000_0000_0000_0000 && 0 <= y < 0x1_0000_0000_0000_0000);
    assert(0 <= a <= 0xffff_ffff_ffff_ffff && 0 <= b <= 0xffff_ffff_ffff_ffff);
    assert(a * 0x1_0000_0000_0000_0000 + x <= u128::MAX);
    assert(b * 0x1_0000_0000_0000_0000 + y <= u128::MAX);
}

fn move_key_of(ev: &MaEvent) -> (r: Option<u128>)
    ensures
        match r {
            Some(n) => move_key(ev@) is Some && n == day_key(move_key(ev@)->0),
            None => move_key(ev@) is None,
        },
{
    if ev.kind != MaEventKind::PrefixMove {
        return None;
    }
    if let (Some(a), Some(b)) = (ev.asn_a, ev.asn_b) {
        let p = canon_pair(a, b);
        let day: i64 = ev.timestamp.date().day;
        let shifted: u128 = (day as i128 + 0x8000_0000_0000_0000) as u128;
        Some(pack(p.0, p.1) as u128 * 0x1_0000_0000_0000_0000 + shifted)
    } else {
        None
    }
}

/// The lists hold the prefixes that each pair moves on each day.
spec fn lists_fit(
    index: Map<u128, usize>,
    lists: Seq<Vec<String>>,
    events: Seq<EventView>,
) -> bool {
    &&& forall|k: (AsnPair, i64)| #[trigger]
        index.contains_key(day_key(k)) ==> index[day_key(k)] < lists.len() && texts(
            lists[index[day_key(k)] as int]@,
        ) == moved_prefixes(events, k)
    &&& forall|k: (AsnPair, i64)|
        !(#[trigger] index.contains_key(day_key(k))) ==> moved_prefixes(events, k)
            == Seq::<Seq<char>>::empty()
    &&& forall|j: (AsnPair, i64), k: (AsnPair, i64)|
        #![trigger index.contains_key(day_key(j)), index.contains_key(day_key(k))]
        index.contains_key(day_key(j)) && index.contains_key(day_key(k)) && index[day_key(j)]
            == index[day_key(k)] ==> j == k
}

fn collect_moves(events: &[MaEvent]) -> (r: (HashMap<u128, usize>, Vec<Vec<String>>))
    ensures
        lists_fit(r.0@, r.1@, event_views(events@)),
{
    let ghost evs = event_views(events@);
    let mut index: HashMap<u128, usize> = HashMap::new();
    let mut lists: Vec<Vec<String>> = Vec::new();
    let mut i: usize = 0;
    assert(evs.subrange(0, 0) =~= Seq::empty());
    while i < events.len()
        invariant
            i <= events@.len(),
            evs == event_views(events@),
            lists_fit(index@, lists@, evs.subrange(0, i as int)),
        decreases events@.len() - i,
    {
        let ev = &events[i];
        let ghost done = evs.subrange(0, i as int);
        let ghost next = evs.subrange(0, i as int + 1);
        proof {
            assert(next.drop_last() =~= done);
            assert(next.last() == ev@);
        }
        if let (Some(n), Some(p)) = (move_key_of(ev), &ev.prefix) {
            let ghost key = move_key(ev@)->0;
            let ghost index0 = index@;
            let ghost lists0 = lists@;
            let slot: usize = match index.get(&n) {
                Some(s) => *s,
                None => {
                    let k: usize = lists.len();
                    lists.push(Vec::new());
                    index.insert(n, k);
                    k
                },
            };
            proof {
                assert(index0.contains_key(day_key(key)) <==> index0.contains_key(n));
                assert(slot < lists@.len());
                assert(texts(lists@[slot as int]@) =~= moved_prefixes(done, key));
            }
            let ghost lists1 = lists@;
            lists[slot].push(p.clone());
            proof {
                assert(texts(lists@[slot as int]@) =~= texts(lists1[slot as int]@).push(p@));
                assert forall|k: (AsnPair, i64)| #[trigger]
                    index@.contains_key(day_key(k)) implies index@[day_key(k)] < lists@.len()
                    && texts(lists@[index@[day_key(k)] as int]@) == moved_prefixes(next, k) by {
                    lemma_day_key(k, key);
                    if k != key {
                        assert(index0.contains_key(day_key(k)));
                        assert(index0.contains_key(day_key(key)) ==> index0[day_key(k)] != slot);
                        assert(lists@[index@[day_key(k)] as int]
                            == lists0[index@[day_key(k)] as int]);
                    }
                }
                assert forall|k: (AsnPair, i64)| !(#[trigger] index@.contains_key(
                    day_key(k),
                )) implies moved_prefixes(next, k) == Seq::<Seq<char>>::empty() by {
                    lemma_day_key(k, key);
                    assert(!index0.contains_key(day_key(k)));
                }
                assert forall|j: (AsnPair, i64), k: (AsnPair, i64)|
                    #![trigger index@.contains_key(day_key(j)), index@.contains_key(day_key(k))]
                    index@.contains_key(day_key(j)) && index@.contains_key(day_key(k))
                        && index@[day_key(j)] == index@[day_key(k)] implies j == k by {
                    lemma_day_key(j, key);
                    lemma_day_key(k, key);
                    assert(j != key ==> index0.contains_key(day_key(j)));
                    assert(k != key ==> index0.contains_key(day_key(k)));
                }
            }
        } else {
            proof {
                assert forall|k: (AsnPair, i64)| #[trigger] moved_prefixes(next, k)
                    == moved_prefixes(done, k) by {}
                assert(lists_fit(index@, lists@, next));
            }
        }
        i += 1;
    }
    assert(evs.subrange(0, evs.len() as int) =~= evs);
    (index, lists)
}

/// The number of different prefixes in each list.
fn count_lists(lists: &[Vec<String>]) -> (r: Vec<usize>)
    ensures
        r@.len() == lists@.len(),
        forall|i: int|
            0 <= i < lists@.len() ==> #[trigger] r@[i] == fresh(
                Seq::empty(),
                texts(lists@[i]@),
            ).len(),
{
    let mut counts: Vec<usize> = Vec::new();
    let mut i: usize = 0;
    while i < lists.len()
        invariant
            i <= lists@.len(),
            counts@.len() == i,
            forall|j: int|
                0 <= j < i ==> #[trigger] counts@[j] == fresh(
                    Seq::empty(),
                    texts(lists@[j]@),
                ).len(),
        decreases lists@.len() - i,
    {
        counts.push(distinct_texts(&lists[i]));
        i += 1;
    }
    counts
}

/// Keeps the events of a sparse set.
pub fn filter_sparse_events(events: &[MaEvent], cfg: &SparseConfig) -> (r: Vec<MaEvent>)
    ensures
        event_views(r@) == sparse(event_views(events@), *cfg),
{
    let ghost evs = event_views(events@);
    let ghost keep = |e: EventView| is_kept(evs, *cfg, e);
    let (index, lists) = collect_moves(events);
    let counts = count_lists(&lists);
    let mut out: Vec<MaEvent> = Vec::new();
    let mut i: usize = 0;
    proof {
        reveal(Seq::filter);
        assert(evs.subrange(0, 0) =~= Seq::empty());
        assert(event_views(out@) =~= Seq::empty());
    }
    while i < events.len()
        invariant
            i <= events@.len(),
            evs == event_views(events@),
            keep == (|e: EventView| is_kept(evs, *cfg, e)),
            lists_fit(index@, lists@, evs),
            counts@.len() == lists@.len(),
            forall|j: int|
                0 <= j < lists@.len() ==> #[trigger] counts@[j] == fresh(
                    Seq::empty(),
                    texts(lists@[j]@),
                ).len(),
            event_views(out@) == evs.subrange(0, i as int).filter(keep),
        decreases events@.len() - i,
    {
        let ev = &events[i];
        let ghost before = out@;
        proof {
            reveal(Seq::filter);
            let next = evs.subrange(0, i as int + 1);
            assert(next.drop_last() =~= evs.subrange(0, i as int));
            assert(next.last() == ev@);
        }
        let kept = match ev.kind {
            MaEventKind::PrefixMove => match move_key_of(ev) {
                Some(n) => {
                    let ghost key = move_key(ev@)->0;
                    assert(index@.contains_key(day_key(key)) || !index@.contains_key(day_key(key)));
                    let c: usize = match index.get(&n) {
                        Some(s) => counts[*s],
                        None => 0,
                    };
                    assert(c == moved_count(evs, key));
                    c as u64 >= cfg.min_prefix_moves_per_pair_day as u64
                },
                None => false,
            },
            MaEventKind::NewAdj => cfg.keep_new_adj,
            MaEventKind::UpstreamConverge => cfg.keep_upstream_converge,
            MaEventKind::FootprintStep => cfg.keep_footprint_step,
        };
        if kept {
            let c = ev.copy();
            out.push(c);
            assert(event_views(out@) =~= event_views(before).push(c@));
        }
        i += 1;
    }
    assert(evs.subrange(0, evs.len() as int) =~= evs);
    out
}

// ---- laws ----

/// Each pair of networks in contact has one feature, with the lower number first.
pub proof fn one_feature_per_pair(events: Seq<EventView>)
    ensures
        forall|i: int|
            0 <= i < pair_features(events).len() ==> (#[trigger] pair_features(events)[i]).asn_lo
                < pair_features(events)[i].asn_hi,
        forall|i: int, j: int|
            #![trigger pair_features(events)[i], pair_features(events)[j]]
            0 <= i < j < pair_features(events).len() ==> (
                pair_features(events)[i].asn_lo,
                pair_features(events)[i].asn_hi,
            ) != (pair_features(events)[j].asn_lo, pair_features(events)[j].asn_hi),
        forall|p: AsnPair| #[trigger]
            contact_pairs(events).contains(p) <==> exists|i: int|
                0 <= i < pair_features(events).len() && (
                    (#[trigger] pair_features(events)[i]).asn_lo,
                    pair_features(events)[i].asn_hi,
                ) == p,
{
    let fs = pair_features(events);
    let pairs = fresh(Seq::empty(), contact_pairs(events));
    crate::diff::fresh_items(Seq::empty(), contact_pairs(events));
    assert(forall|p: AsnPair| !Seq::<AsnPair>::empty().contains(p));
    assert forall|i: int| 0 <= i < fs.len() implies (#[trigger] fs[i]).asn_lo < fs[i].asn_hi by {
        assert(pairs.contains(pairs[i]));
        lemma_contact_pairs_ordered(events, pairs[i]);
    }
    assert forall|p: AsnPair| #[trigger] contact_pairs(events).contains(p) <==> exists|i: int|
        0 <= i < fs.len() && ((#[trigger] fs[i]).asn_lo, fs[i].asn_hi) == p by {
        if contact_pairs(events).contains(p) {
            assert(pairs.contains(p));
            let i = choose|i: int| 0 <= i < pairs.len() && pairs[i] == p;
            assert((fs[i].asn_lo, fs[i].asn_hi) == p);
        }
        if exists|i: int| 0 <= i < fs.len() && ((#[trigger] fs[i]).asn_lo, fs[i].asn_hi) == p {
            let i = choose|i: int|
                0 <= i < fs.len() && ((#[trigger] fs[i]).asn_lo, fs[i].asn_hi) == p;
            assert(pairs[i] == p);
            assert(pairs.contains(p));
        }
    }
}

proof fn lemma_contact_pairs_ordered(events: Seq<EventView>, p: AsnPair)
    requires
        contact_pairs(events).contains(p),
    ensures
        p.0 < p.1,
    decreases events.len(),
{
    if events.len() > 0 {
        let head = contact_pairs(events.drop_last());
        if let Some(q) = contact_pair(events.last()) {
            lemma_seq_contains_after_push(head, q, p);
            if p != q {
                lemma_contact_pairs_ordered(events.drop_last(), p);
            }
        } else {
            lemma_contact_pairs_ordered(events.drop_last(), p);
        }
    }
}

proof fn lemma_filtered_moves(
    all: Seq<EventView>,
    cfg: SparseConfig,
    s: Seq<EventView>,
    k: (AsnPair, i64),
)
    ensures
        moved_prefixes(s.filter(|e: EventView| is_kept(all, cfg, e)), k) == if moved_count(all, k)
            >= cfg.min_prefix_moves_per_pair_day {
            moved_prefixes(s, k)
        } else {
            Seq::empty()
        },
    decreases s.len(),
{
    reveal(Seq::filter);
    let keep = |e: EventView| is_kept(all, cfg, e);
    if s.len() > 0 {
        let head = s.drop_last();
        lemma_filtered_moves(all, cfg, head, k);
        if keep(s.last()) {
            let kept = s.filter(keep);
            assert(kept.drop_last() =~= head.filter(keep));
            assert(kept.last() == s.last());
        }
    }
}

proof fn lemma_filter_all(s: Seq<EventView>, keep: spec_fn(EventView) -> bool)
    requires
        forall|i: int| 0 <= i < s.len() ==> keep(#[trigger] s[i]),
    ensures
        s.filter(keep) == s,
    decreases s.len(),
{
    reveal(Seq::filter);
    if s.len() > 0 {
        let head = s.drop_last();
        assert forall|i: int| 0 <= i < head.len() implies keep(#[trigger] head[i]) by {
            assert(head[i] == s[i]);
        }
        lemma_filter_all(head, keep);
        assert(keep(s[s.len() - 1]));
        assert(s.filter(keep) =~= s);
    }
}

proof fn lemma_filter_members(s: Seq<EventView>, keep: spec_fn(EventView) -> bool)
    ensures
        forall|i: int|
            0 <= i < s.filter(keep).len() ==> keep(#[trigger] s.filter(keep)[i]) && s.contains(
                s.filter(keep)[i],
            ),
    decreases s.len(),
{
    reveal(Seq::filter);
    if s.len() > 0 {
        let head = s.drop_last();
        lemma_filter_members(head, keep);
        assert forall|i: int| 0 <= i < s.filter(keep).len() implies keep(
            #[trigger] s.filter(keep)[i],
        ) && s.contains(s.filter(keep)[i]) by {
            if i < head.filter(keep).len() {
                assert(s.filter(keep)[i] == head.filter(keep)[i]);
                let j = choose|j: int| 0 <= j < head.len() && head[j] == s.filter(keep)[i];
                assert(s[j] == s.filter(keep)[i]);
            } else {
                assert(s.filter(keep)[i] == s[s.len() - 1]);
            }
        }
    }
}

/// Filtering a sparse set once more changes nothing.
pub proof fn sparse_twice(events: Seq<EventView>, cfg: SparseConfig)
    ensures
        sparse(sparse(events, cfg), cfg) == sparse(events, cfg),
{
    let keep = |e: EventView| is_kept(events, cfg, e);
    let once = sparse(events, cfg);
    let again = |e: EventView| is_kept(once, cfg, e);
    lemma_filter_members(events, keep);
    assert forall|i: int| 0 <= i < once.len() implies again(#[trigger] once[i]) by {
        let e = once[i];
        assert(keep(e));
        if e.kind == MaEventKind::PrefixMove {
            lemma_filtered_moves(events, cfg, events, move_key(e)->0);
        }
    }
    lemma_filter_all(once, again);
}

/// A sparse set holds events of the full set only, and of its moves those alone whose pair moves
/// enough prefixes that day.
pub proof fn sparse_selects(events: Seq<EventView>, cfg: SparseConfig)
    ensures
        forall|i: int|
            0 <= i < sparse(events, cfg).len() ==> is_kept(
                events,
                cfg,
                #[trigger] sparse(events, cfg)[i],
            ) && events.contains(sparse(events, cfg)[i]),
{
    lemma_filter_members(events, |e: EventView| is_kept(events, cfg, e));
}

proof fn lemma_fresh_within(a: Seq<Seq<char>>, b: Seq<Seq<char>>)
    requires
        forall|x: Seq<char>| a.contains(x) ==> #[trigger] b.contains(x),
    ensures
        fresh(Seq::empty(), a).len() <= fresh(Seq::empty(), b).len(),
{
    let none = Seq::<Seq<char>>::empty();
    let fa = fresh(none, a);
    let fb = fresh(none, b);
    crate::diff::fresh_items(none, a);
    crate::diff::fresh_items(none, b);
    fa.unique_seq_to_set();
    fb.unique_seq_to_set();
    assert(forall|x: Seq<char>| !none.contains(x));
    assert forall|x: Seq<char>| fa.to_set().contains(x) implies fb.to_set().contains(x) by {
        assert(fa.contains(x));
        assert(b.contains(x));
        assert(fb.contains(x));
    }
    vstd::set_lib::lemma_len_subset(fa.to_set(), fb.to_set());
}

proof fn lemma_fresh_len<A>(s: Seq<A>)
    ensures
        fresh(Seq::empty(), s).len() <= s.len(),
        s.len() > 0 ==> fresh(Seq::empty(), s).len() > 0,
    decreases s.len(),
{
    if s.len() > 0 {
        lemma_fresh_len(s.drop_last());
        crate::diff::fresh_items(Seq::empty(), s);
        assert(!Seq::<A>::empty().contains(s.last()));
        assert(s.contains(s.last())) by {
            assert(s[s.len() - 1] == s.last());
        }
        assert(fresh(Seq::empty(), s).contains(s.last()));
    }
}

proof fn lemma_gathered_moves(s: Seq<EventView>, p: AsnPair, day: i64)
    requires
        p.0 < p.1,
        forall|i: int| 0 <= i < s.len() ==> (#[trigger] s[i]).kind == MaEventKind::PrefixMove,
    ensures
        gathered(s, p).adj_days == Seq::<i64>::empty(),
        gathered(s, p).upstream_days == Seq::<i64>::empty(),
        gathered(s, p).move_days.len() <= s.len(),
        gathered(s, p).prefixes.len() <= s.len(),
        contact_pairs(s).contains(p) ==> gathered(s, p).move_days.len() > 0,
        forall|x: Seq<char>| #[trigger]
            moved_prefixes(s, (p, day)).contains(x) ==> gathered(s, p).prefixes.contains(x),
    decreases s.len(),
{
    if s.len() > 0 {
        let head = s.drop_last();
        let e = s.last();
        assert forall|i: int| 0 <= i < head.len() implies (#[trigger] head[i]).kind
            == MaEventKind::PrefixMove by {
            assert(head[i] == s[i]);
        }
        lemma_gathered_moves(head, p, day);
        assert(s[s.len() - 1].kind == MaEventKind::PrefixMove);
        if let Some(q) = contact_pair(e) {
            lemma_seq_contains_after_push(contact_pairs(head), q, p);
        }
        assert forall|x: Seq<char>| #[trigger]
            moved_prefixes(s, (p, day)).contains(x) implies gathered(s, p).prefixes.contains(x) by {
            if e.prefix is Some {
                lemma_seq_contains_after_push(moved_prefixes(head, (p, day)), e.prefix->0, x);
                lemma_seq_contains_after_push(gathered(head, p).prefixes, e.prefix->0, x);
            }
            assert(moved_prefixes(head, (p, day)).contains(x) ==> gathered(
                head,
                p,
            ).prefixes.contains(x));
        }
    }
}

proof fn lemma_contact_event(s: Seq<EventView>, p: AsnPair) -> (i: int)
    requires
        contact_pairs(s).contains(p),
    ensures
        0 <= i < s.len(),
        contact_pair(s[i]) == Some(p),
    decreases s.len(),
{
    let head = s.drop_last();
    if contact_pair(s.last()) == Some(p) {
        s.len() - 1
    } else {
        if let Some(q) = contact_pair(s.last()) {
            lemma_seq_contains_after_push(contact_pairs(head), q, p);
        }
        let i = lemma_contact_event(head, p);
        assert(head[i] == s[i]);
        i
    }
}

/// The pairs of a sparse set of moves moved at least the configured number of prefixes, and show
/// no other contact than moves.
pub proof fn sparse_pairs_move_enough(events: Seq<EventView>, cfg: SparseConfig, p: AsnPair)
    requires
        !cfg.keep_new_adj,
        !cfg.keep_upstream_converge,
        !cfg.keep_footprint_step,
        events.len() <= u32::MAX,
        contact_pairs(sparse(events, cfg)).contains(p),
    ensures
        feature_of(sparse(events, cfg), p).prefixes_moved >= cfg.min_prefix_moves_per_pair_day,
        feature_of(sparse(events, cfg), p).prefix_move_days > 0,
        feature_of(sparse(events, cfg), p).new_adj_days == 0,
        feature_of(sparse(events, cfg), p).upstream_converge_days == 0,
{
    let s = sparse(events, cfg);
    let keep = |e: EventView| is_kept(events, cfg, e);
    lemma_filter_members(events, keep);
    lemma_filter_len(events, keep);
    assert forall|i: int| 0 <= i < s.len() implies (#[trigger] s[i]).kind
        == MaEventKind::PrefixMove by {
        assert(keep(s[i]));
    }
    lemma_contact_pairs_ordered(s, p);
    let i = lemma_contact_event(s, p);
    assert(keep(s[i]));
    let k = move_key(s[i])->0;
    let day = k.1;
    assert(k.0 == p);
    lemma_gathered_moves(s, p, day);
    lemma_filtered_moves(events, cfg, events, k);
    assert(moved_count(events, k) >= cfg.min_prefix_moves_per_pair_day);
    let g = gathered(s, p);
    lemma_fresh_within(moved_prefixes(s, k), g.prefixes);
    lemma_fresh_len(g.prefixes);
    lemma_fresh_len(g.move_days);
    lemma_fresh_len(g.adj_days);
    lemma_fresh_len(g.upstream_days);
}

proof fn lemma_filter_len(s: Seq<EventView>, keep: spec_fn(EventView) -> bool)
    ensures
        s.filter(keep).len() <= s.len(),
    decreases s.len(),
{
    reveal(Seq::filter);
    if s.len() > 0 {
        lemma_filter_len(s.drop_last(), keep);
    }
}

/// An event is of a pair.
pub open spec fn is_of_pair(e: EventView, p: AsnPair) -> bool {
    contact_pair(e) == Some(p)
}

/// A pair's span runs from the first to the last of its events: both ends are times of events of
/// the pair, and no event of the pair lies outside.
pub proof fn span_is_first_to_last(events: Seq<EventView>, p: AsnPair)
    ensures
        contact_pairs(events).contains(p) <==> gathered(events, p).span is Some,
        forall|i: int|
            0 <= i < events.len() && is_of_pair(#[trigger] events[i], p) ==> gathered(
                events,
                p,
            ).span is Some,
        gathered(events, p).span matches Some((first, last)) ==> {
            &&& exists|i: int|
                0 <= i < events.len() && is_of_pair(#[trigger] events[i], p) && events[i].timestamp
                    == first
            &&& exists|i: int|
                0 <= i < events.len() && is_of_pair(#[trigger] events[i], p) && events[i].timestamp
                    == last
            &&& forall|i: int|
                0 <= i < events.len() && is_of_pair(#[trigger] events[i], p) ==> !earlier(
                    events[i].timestamp,
                    first,
                ) && !earlier(last, events[i].timestamp)
            &&& !earlier(last, first)
        },
    decreases events.len(),
{
    if events.len() > 0 {
        let head = events.drop_last();
        let e = events.last();
        let n = events.len() - 1;
        span_is_first_to_last(head, p);
        if let Some(q) = contact_pair(e) {
            lemma_seq_contains_after_push(contact_pairs(head), q, p);
        }
        let was = gathered(head, p).span;
        if let Some((f, l)) = was {
            let a = choose|i: int|
                0 <= i < head.len() && is_of_pair(#[trigger] head[i], p) && head[i].timestamp == f;
            let b = choose|i: int|
                0 <= i < head.len() && is_of_pair(#[trigger] head[i], p) && head[i].timestamp == l;
            assert(is_of_pair(events[a], p) && events[a].timestamp == f);
            assert(is_of_pair(events[b], p) && events[b].timestamp == l);
        }
        assert(events[n] == e);
        assert forall|i: int|
            0 <= i < events.len() && is_of_pair(#[trigger] events[i], p) implies gathered(
            events,
            p,
        ).span is Some by {
            if i < n {
                assert(is_of_pair(head[i], p));
            }
        }
        if let Some((first, last)) = gathered(events, p).span {
            assert forall|i: int|
                0 <= i < events.len() && is_of_pair(#[trigger] events[i], p) implies !earlier(
                events[i].timestamp,
                first,
            ) && !earlier(last, events[i].timestamp) by {
                if i < n {
                    assert(head[i] == events[i]);
                    assert(is_of_pair(head[i], p));
                }
            }
            if contact_pair(e) == Some(p) {
                assert(is_of_pair(events[n], p));
            }
        }
    }
}

proof fn lemma_prefix_moved(events: Seq<EventView>, k: (AsnPair, i64), i: int)
    requires
        0 <= i < events.len(),
        move_key(events[i]) == Some(k),
        events[i].prefix is Some,
    ensures
        moved_prefixes(events, k).contains(events[i].prefix->0),
    decreases events.len(),
{
    let rest = events.drop_last();
    let e = events.last();
    let head = moved_prefixes(rest, k);
    if i < rest.len() {
        assert(rest[i] == events[i]);
        lemma_prefix_moved(rest, k, i);
    }
    if move_key(e) == Some(k) && e.prefix is Some {
        lemma_seq_contains_after_push(head, e.prefix->0, events[i].prefix->0);
    }
}

/// A pair moves on a day at least the different prefixes that its moves name.
pub proof fn named_prefixes_count(
    events: Seq<EventView>,
    k: (AsnPair, i64),
    prefixes: Seq<Seq<char>>,
)
    requires
        prefixes.no_duplicates(),
        forall|j: int|
            0 <= j < prefixes.len() ==> exists|e: EventView| #[trigger]
                events.contains(e) && move_key(e) == Some(k) && e.prefix == Some(
                    #[trigger] prefixes[j],
                ),
    ensures
        moved_count(events, k) >= prefixes.len(),
{
    let all = fresh(Seq::empty(), moved_prefixes(events, k));
    crate::diff::fresh_items(Seq::empty(), moved_prefixes(events, k));
    all.unique_seq_to_set();
    prefixes.unique_seq_to_set();
    assert forall|x: Seq<char>| prefixes.to_set().contains(x) implies all.to_set().contains(x) by {
        let j = choose|j: int| 0 <= j < prefixes.len() && prefixes[j] == x;
        let e = choose|e: EventView| #[trigger]
            events.contains(e) && move_key(e) == Some(k) && e.prefix == Some(prefixes[j]);
        let i = choose|i: int| 0 <= i < events.len() && events[i] == e;
        lemma_prefix_moved(events, k, i);
        assert(moved_prefixes(events, k).contains(x));
        assert(all.contains(x));
    }
    vstd::set_lib::lemma_len_subset(prefixes.to_set(), all.to_set());
}

/// A pair's feature has the organizations that all events of the pair name.
pub proof fn features_keep_organizations(
    events: Seq<EventView>,
    p: AsnPair,
    lo: Option<Seq<char>>,
    hi: Option<Seq<char>>,
)
    requires
        forall|i: int|
            0 <= i < events.len() && is_of_pair(#[trigger] events[i], p) ==> (if events[i].asn_a
                == Some(p.0) {
                events[i].org_a == lo && events[i].org_b == hi
            } else {
                events[i].org_a == hi && events[i].org_b == lo
            }),
        contact_pairs(events).contains(p),
    ensures
        feature_of(events, p).org_lo == lo,
        feature_of(events, p).org_hi == hi,
{
    lemma_gathered_orgs(events, p, lo, hi);
    span_is_first_to_last(events, p);
}

proof fn lemma_gathered_orgs(
    events: Seq<EventView>,
    p: AsnPair,
    lo: Option<Seq<char>>,
    hi: Option<Seq<char>>,
)
    requires
        forall|i: int|
            0 <= i < events.len() && is_of_pair(#[trigger] events[i], p) ==> (if events[i].asn_a
                == Some(p.0) {
                events[i].org_a == lo && events[i].org_b == hi
            } else {
                events[i].org_a == hi && events[i].org_b == lo
            }),
    ensures
        gathered(events, p).span is Some ==> gathered(events, p).org_lo == lo && gathered(
            events,
            p,
        ).org_hi == hi,
        gathered(events, p).span is None ==> gathered(events, p).org_lo is None && gathered(
            events,
            p,
        ).org_hi is None,
    decreases events.len(),
{
    if events.len() > 0 {
        let head = events.drop_last();
        assert forall|i: int| 0 <= i < head.len() && is_of_pair(#[trigger] head[i], p) implies (
        if head[i].asn_a == Some(p.0) {
            head[i].org_a == lo && head[i].org_b == hi
        } else {
            head[i].org_a == hi && head[i].org_b == lo
        }) by {
            assert(head[i] == events[i]);
        }
        lemma_gathered_orgs(head, p, lo, hi);
        if contact_pair(events.last()) == Some(p) {
            assert(is_of_pair(events[events.len() - 1], p));
        }
    }
}

/// An event names two networks, in either order.
pub open spec fn is_between(e: EventView, lo: u32, hi: u32) -> bool {
    (e.asn_a == Some(lo) && e.asn_b == Some(hi)) || (e.asn_a == Some(hi) && e.asn_b == Some(lo))
}

/// The prefixes that moved between two networks.
pub open spec fn prefixes_between(events: Seq<EventView>, lo: u32, hi: u32) -> Set<Seq<char>> {
    Set::new(
        |x: Seq<char>|
            exists|i: int|
                0 <= i < events.len() && is_between(#[trigger] events[i], lo, hi) && events[i].kind
                    == MaEventKind::PrefixMove && events[i].prefix == Some(x),
    )
}

/// The days, counted from 1970, on which an event of a kind was between two networks.
pub open spec fn days_between(
    events: Seq<EventView>,
    lo: u32,
    hi: u32,
    kind: MaEventKind,
) -> Set<i64> {
    Set::new(
        |d: i64|
            exists|i: int|
                0 <= i < events.len() && is_between(#[trigger] events[i], lo, hi) && events[i].kind
                    == kind && events[i].timestamp.secs as int / 86_400 == d,
    )
}

proof fn lemma_gathered_sets(events: Seq<EventView>, p: AsnPair)
    requires
        p.0 < p.1,
    ensures
        forall|x: Seq<char>| #[trigger]
            gathered(events, p).prefixes.contains(x) <==> prefixes_between(
                events,
                p.0,
                p.1,
            ).contains(x),
        forall|d: i64| #[trigger]
            gathered(events, p).move_days.contains(d) <==> days_between(
                events,
                p.0,
                p.1,
                MaEventKind::PrefixMove,
            ).contains(d),
        forall|d: i64| #[trigger]
            gathered(events, p).adj_days.contains(d) <==> days_between(
                events,
                p.0,
                p.1,
                MaEventKind::NewAdj,
            ).contains(d),
        forall|d: i64| #[trigger]
            gathered(events, p).upstream_days.contains(d) <==> days_between(
                events,
                p.0,
                p.1,
                MaEventKind::UpstreamConverge,
            ).contains(d),
        gathered(events, p).prefixes.len() <= events.len(),
        gathered(events, p).move_days.len() <= events.len(),
        gathered(events, p).adj_days.len() <= events.len(),
        gathered(events, p).upstream_days.len() <= events.len(),
    decreases events.len(),
{
    if events.len() > 0 {
        let head = events.drop_last();
        let e = events.last();
        let n = events.len() as int;
        let (lo, hi) = p;
        lemma_gathered_sets(head, p);
        let g = gathered(head, p);
        let h = gathered(events, p);
        let own = is_between(e, lo, hi);
        assert(contact_pair(e) == Some(p) <==> own);
        assert(events[n - 1] == e);
        assert forall|x: Seq<char>| #[trigger] h.prefixes.contains(x) <==> prefixes_between(
            events,
            lo,
            hi,
        ).contains(x) by {
            if e.prefix is Some {
                lemma_seq_contains_after_push(g.prefixes, e.prefix->0, x);
            }
            assert(g.prefixes.contains(x) <==> prefixes_between(head, lo, hi).contains(x));
            if prefixes_between(head, lo, hi).contains(x) {
                let i = choose|i: int|
                    0 <= i < head.len() && is_between(#[trigger] head[i], lo, hi) && head[i].kind
                        == MaEventKind::PrefixMove && head[i].prefix == Some(x);
                assert(events[i] == head[i]);
            }
            if prefixes_between(events, lo, hi).contains(x) {
                let i = choose|i: int|
                    0 <= i < events.len() && is_between(#[trigger] events[i], lo, hi)
                        && events[i].kind == MaEventKind::PrefixMove && events[i].prefix == Some(x);
                if i < n - 1 {
                    assert(head[i] == events[i]);
                }
            }
        }
        lemma_days_step(events, lo, hi, MaEventKind::PrefixMove);
        lemma_days_step(events, lo, hi, MaEventKind::NewAdj);
        lemma_days_step(events, lo, hi, MaEventKind::UpstreamConverge);
        let day = event_day(e);
        assert forall|d: i64| #[trigger] h.move_days.contains(d) <==> days_between(
            events,
            lo,
            hi,
            MaEventKind::PrefixMove,
        ).contains(d) by {
            lemma_seq_contains_after_push(g.move_days, day, d);
            assert(g.move_days.contains(d) <==> days_between(
                head,
                lo,
                hi,
                MaEventKind::PrefixMove,
            ).contains(d));
        }
        assert forall|d: i64| #[trigger] h.adj_days.contains(d) <==> days_between(
            events,
            lo,
            hi,
            MaEventKind::NewAdj,
        ).contains(d) by {
            lemma_seq_contains_after_push(g.adj_days, day, d);
            assert(g.adj_days.contains(d) <==> days_between(
                head,
                lo,
                hi,
                MaEventKind::NewAdj,
            ).contains(d));
        }
        assert forall|d: i64| #[trigger] h.upstream_days.contains(d) <==> days_between(
            events,
            lo,
            hi,
            MaEventKind::UpstreamConverge,
        ).contains(d) by {
            lemma_seq_contains_after_push(g.upstream_days, day, d);
            assert(g.upstream_days.contains(d) <==> days_between(
                head,
                lo,
                hi,
                MaEventKind::UpstreamConverge,
            ).contains(d));
        }
    }
}

proof fn lemma_days_step(events: Seq<EventView>, lo: u32, hi: u32, kind: MaEventKind)
    requires
        events.len() > 0,
    ensures
        forall|d: i64| #[trigger]
            days_between(events, lo, hi, kind).contains(d) <==> days_between(
                events.drop_last(),
                lo,
                hi,
                kind,
            ).contains(d) || (is_between(events.last(), lo, hi) && events.last().kind == kind && d
                == event_day(events.last())),
{
    let head = events.drop_last();
    let e = events.last();
    let n = events.len() as int;
    assert(events[n - 1] == e);
    assert(event_day(e) == e.timestamp.secs as int / 86_400);
    assert forall|d: i64| #[trigger]
        days_between(events, lo, hi, kind).contains(d) <==> days_between(
            head,
            lo,
            hi,
            kind,
        ).contains(d) || (is_between(e, lo, hi) && e.kind == kind && d == event_day(e)) by {
        if days_between(head, lo, hi, kind).contains(d) {
            let i = choose|i: int|
                0 <= i < head.len() && is_between(#[trigger] head[i], lo, hi) && head[i].kind
                    == kind && head[i].timestamp.secs as int / 86_400 == d;
            assert(events[i] == head[i]);
        }
        if days_between(events, lo, hi, kind).contains(d) {
            let i = choose|i: int|
                0 <= i < events.len() && is_between(#[trigger] events[i], lo, hi) && events[i].kind
                    == kind && events[i].timestamp.secs as int / 86_400 == d;
            if i < n - 1 {
                assert(head[i] == events[i]);
            }
        }
    }
}

proof fn lemma_distinct_are_a_set<A>(s: Seq<A>, all: Set<A>)
    requires
        forall|x: A| #[trigger] s.contains(x) <==> all.contains(x),
    ensures
        fresh(Seq::empty(), s).len() == all.len(),
        all.finite(),
{
    let f = fresh(Seq::empty(), s);
    crate::diff::fresh_items(Seq::empty(), s);
    f.unique_seq_to_set();
    assert(f.to_set() =~= all) by {
        assert forall|x: A| f.to_set().contains(x) <==> all.contains(x) by {
            assert(f.contains(x) <==> s.contains(x));
        }
    }
}

/// The feature of a pair counts what lies between its two networks: the different prefixes that
/// moved from either to the other, and the different days with a move, an adjacency, and a
/// convergence. Its score is ten for each prefix, five for each day with a move, one for each other
/// of these days, and one for each whole day of its span; and every pair that an event names has
/// one.
pub proof fn features_count_what_lies_between(events: Seq<EventView>, lo: u32, hi: u32)
    requires
        lo < hi,
        events.len() <= u32::MAX,
    ensures
        (exists|i: int| 0 <= i < events.len() && is_between(#[trigger] events[i], lo, hi))
            <==> exists|k: int|
            0 <= k < pair_features(events).len() && (#[trigger] pair_features(events)[k]).asn_lo
                == lo && pair_features(events)[k].asn_hi == hi,
        forall|k: int|
            0 <= k < pair_features(events).len() && (#[trigger] pair_features(events)[k]).asn_lo
                == lo && pair_features(events)[k].asn_hi == hi ==> {
                let f = pair_features(events)[k];
                &&& f.prefixes_moved == prefixes_between(events, lo, hi).len()
                &&& f.prefix_move_days == days_between(
                    events,
                    lo,
                    hi,
                    MaEventKind::PrefixMove,
                ).len()
                &&& f.new_adj_days == days_between(events, lo, hi, MaEventKind::NewAdj).len()
                &&& f.upstream_converge_days == days_between(
                    events,
                    lo,
                    hi,
                    MaEventKind::UpstreamConverge,
                ).len()
                &&& f.persistence_days == whole_days(f.last_seen, f.first_seen) as i64
                &&& f.score == (f.prefixes_moved * 10 + f.prefix_move_days * 5 + f.new_adj_days
                    + f.upstream_converge_days + (if whole_days(f.last_seen, f.first_seen) > 0 {
                    whole_days(f.last_seen, f.first_seen)
                } else {
                    0
                })) as i64
            },
{
    let p = (lo, hi);
    one_feature_per_pair(events);
    span_is_first_to_last(events, p);
    lemma_gathered_sets(events, p);
    let g = gathered(events, p);
    lemma_distinct_are_a_set(g.prefixes, prefixes_between(events, lo, hi));
    lemma_distinct_are_a_set(
        g.move_days,
        days_between(events, lo, hi, MaEventKind::PrefixMove),
    );
    lemma_distinct_are_a_set(g.adj_days, days_between(events, lo, hi, MaEventKind::NewAdj));
    lemma_distinct_are_a_set(
        g.upstream_days,
        days_between(events, lo, hi, MaEventKind::UpstreamConverge),
    );
    lemma_fresh_len(g.prefixes);
    lemma_fresh_len(g.move_days);
    lemma_fresh_len(g.adj_days);
    lemma_fresh_len(g.upstream_days);
    assert forall|e: EventView| #[trigger] is_between(e, lo, hi) <==> is_of_pair(e, p) by {}
    if exists|i: int| 0 <= i < events.len() && is_between(#[trigger] events[i], lo, hi) {
        let i = choose|i: int| 0 <= i < events.len() && is_between(#[trigger] events[i], lo, hi);
        assert(is_of_pair(events[i], p));
        assert(contact_pairs(events).contains(p));
        let k = choose|k: int|
            0 <= k < pair_features(events).len() && (
                (#[trigger] pair_features(events)[k]).asn_lo,
                pair_features(events)[k].asn_hi,
            ) == p;
        assert(pair_features(events)[k].asn_lo == lo);
    }
    assert forall|k: int|
        0 <= k < pair_features(events).len() && (#[trigger] pair_features(events)[k]).asn_lo == lo
            && pair_features(events)[k].asn_hi == hi implies pair_features(events)[k] == feature_of(
        events,
        p,
    ) && exists|i: int| 0 <= i < events.len() && is_between(#[trigger] events[i], lo, hi) by {
        assert((pair_features(events)[k].asn_lo, pair_features(events)[k].asn_hi) == p);
        assert(contact_pairs(events).contains(p));
        let i = lemma_contact_event(events, p);
        assert(is_between(events[i], lo, hi));
    }
}

/// The prefixes that moved between two networks on a day.
pub open spec fn prefixes_on_day(
    events: Seq<EventView>,
    lo: u32,
    hi: u32,
    day: i64,
) -> Set<Seq<char>> {
    Set::new(
        |x: Seq<char>|
            exists|i: int|
                0 <= i < events.len() && is_between(#[trigger] events[i], lo, hi) && events[i].kind
                    == MaEventKind::PrefixMove && events[i].timestamp.secs as int / 86_400 == day
                    && events[i].prefix == Some(x),
    )
}

proof fn lemma_moved_set(events: Seq<EventView>, lo: u32, hi: u32, day: i64)
    requires
        lo <= hi,
    ensures
        forall|x: Seq<char>| #[trigger]
            moved_prefixes(events, ((lo, hi), day)).contains(x) <==> prefixes_on_day(
                events,
                lo,
                hi,
                day,
            ).contains(x),
    decreases events.len(),
{
    if events.len() > 0 {
        let head = events.drop_last();
        let e = events.last();
        let n = events.len() as int;
        let k = ((lo, hi), day);
        lemma_moved_set(head, lo, hi, day);
        assert(events[n - 1] == e);
        assert forall|x: Seq<char>| #[trigger]
            moved_prefixes(events, k).contains(x) <==> prefixes_on_day(
                events,
                lo,
                hi,
                day,
            ).contains(x) by {
            if e.prefix is Some {
                lemma_seq_contains_after_push(moved_prefixes(head, k), e.prefix->0, x);
            }
            assert(moved_prefixes(head, k).contains(x) <==> prefixes_on_day(
                head,
                lo,
                hi,
                day,
            ).contains(x));
            if prefixes_on_day(head, lo, hi, day).contains(x) {
                let i = choose|i: int|
                    0 <= i < head.len() && is_between(#[trigger] head[i], lo, hi) && head[i].kind
                        == MaEventKind::PrefixMove && head[i].timestamp.secs as int / 86_400 == day
                        && head[i].prefix == Some(x);
                assert(events[i] == head[i]);
            }
            if prefixes_on_day(events, lo, hi, day).contains(x) {
                let i = choose|i: int|
                    0 <= i < events.len() && is_between(#[trigger] events[i], lo, hi)
                        && events[i].kind == MaEventKind::PrefixMove && events[i].timestamp.secs
                        as int / 86_400 == day && events[i].prefix == Some(x);
                if i < n - 1 {
                    assert(head[i] == events[i]);
                }
            }
        }
    }
}

/// A move between two networks is kept just where at least the least number of different prefixes
/// moved between them that day; events of the other kinds are kept just where that is asked for;
/// and nothing else is among what is kept.
pub proof fn sparse_keeps_pairs_that_move_enough(
    events: Seq<EventView>,
    cfg: SparseConfig,
    e: EventView,
)
    ensures
        e.kind == MaEventKind::NewAdj ==> (sparse(events, cfg).contains(e) <==> events.contains(e)
            && cfg.keep_new_adj),
        e.kind == MaEventKind::UpstreamConverge ==> (sparse(events, cfg).contains(e)
            <==> events.contains(e) && cfg.keep_upstream_converge),
        e.kind == MaEventKind::FootprintStep ==> (sparse(events, cfg).contains(e)
            <==> events.contains(e) && cfg.keep_footprint_step),
        e.kind == MaEventKind::PrefixMove && e.asn_a is Some && e.asn_b is Some && e.asn_a->0
            <= e.asn_b->0 ==> (sparse(events, cfg).contains(e) <==> events.contains(e)
            && prefixes_on_day(
            events,
            e.asn_a->0,
            e.asn_b->0,
            (e.timestamp.secs as int / 86_400) as i64,
        ).len() >= cfg.min_prefix_moves_per_pair_day),
        e.kind == MaEventKind::PrefixMove && e.asn_a is Some && e.asn_b is Some && e.asn_b->0
            <= e.asn_a->0 ==> (sparse(events, cfg).contains(e) <==> events.contains(e)
            && prefixes_on_day(
            events,
            e.asn_b->0,
            e.asn_a->0,
            (e.timestamp.secs as int / 86_400) as i64,
        ).len() >= cfg.min_prefix_moves_per_pair_day),
{
    let keep = |x: EventView| is_kept(events, cfg, x);
    let day = (e.timestamp.secs as int / 86_400) as i64;
    assert(sparse(events, cfg).contains(e) <==> events.contains(e) && is_kept(events, cfg, e)) by {
        lemma_filter_members(events, keep);
        if sparse(events, cfg).contains(e) {
            let i = choose|i: int| 0 <= i < sparse(events, cfg).len() && sparse(events, cfg)[i]
                == e;
            assert(keep(events.filter(keep)[i]));
        }
        if events.contains(e) && is_kept(events, cfg, e) {
            let i = choose|i: int| 0 <= i < events.len() && events[i] == e;
            assert(keep(events[i]));
            events.lemma_filter_contains(keep, i);
        }
    }
    if e.kind == MaEventKind::PrefixMove && e.asn_a is Some && e.asn_b is Some {
        let (lo, hi) = pair_of(e.asn_a->0, e.asn_b->0);
        lemma_moved_set(events, lo, hi, day);
        lemma_distinct_are_a_set(
            moved_prefixes(events, ((lo, hi), day)),
            prefixes_on_day(events, lo, hi, day),
        );
        assert(event_day(e) == day);
    }
}

/// Features come with the higher score first, and of equal scores the lower first network.
pub proof fn features_are_in_order_of_score(v: Seq<AsnPairFeature>, i: int, j: int)
    requires
        crate::order::in_rank_order(v),
        0 <= i < j < v.len(),
    ensures
        v[i].score >= v[j].score,
        v[i].score == v[j].score ==> v[i].asn_lo <= v[j].asn_lo,
{
    assert(!v[j].before(&v[i]));
}

} // verus!
