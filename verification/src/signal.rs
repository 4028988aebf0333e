//! Rolling state of pairs, and the daily network-contact signals.

use crate::diff::{domains_for, domains_of};
use crate::events::AsnPair;
use crate::features::{feature_views, or_else, AsnPairFeature, FeatureView};
use crate::order::{in_rank_order, rank, ranked, Ranked};
use crate::orgs::{copy_opt_text, opt_text, OrgMap, OrgState};
use crate::text::{decimal, decimal_injective, decimal_is_digits, format_u64, is_digit, texts};
use crate::textmap::TextMap;
use crate::time::{
    days_before, days_before_are_days, days_before_in_range, earlier, earlier_is_fewer_nanos,
    nanos_of, whole_days, Instant,
};
use vstd::prelude::*;
use vstd::string::StringExecFns;

verus! {

// ---- pair state ----

/// What is known of a pair over the days.
#[derive(Debug)]
pub struct PairStateEntry {
    pub asn_lo: u32,
    pub asn_hi: u32,
    pub org_lo: Option<String>,
    pub org_hi: Option<String>,
    pub first_seen: Instant,
    pub last_seen: Instant,
    pub prefix_move_days: u32,
    pub prefixes_moved: u32,
    pub new_adj_days: u32,
    pub upstream_converge_days: u32,
    pub score: i64,
}

/// What an entry says.
#[verifier::ext_equal]
pub struct EntryView {
    pub asn_lo: u32,
    pub asn_hi: u32,
    pub org_lo: Option<Seq<char>>,
    pub org_hi: Option<Seq<char>>,
    pub first_seen: Instant,
    pub last_seen: Instant,
    pub prefix_move_days: u32,
    pub prefixes_moved: u32,
    pub new_adj_days: u32,
    pub upstream_converge_days: u32,
    pub score: i64,
}

impl View for PairStateEntry {
    type V = EntryView;

    open spec fn view(&self) -> EntryView {
        EntryView {
            asn_lo: self.asn_lo,
            asn_hi: self.asn_hi,
            org_lo: opt_text(self.org_lo),
            org_hi: opt_text(self.org_hi),
            first_seen: self.first_seen,
            last_seen: self.last_seen,
            prefix_move_days: self.prefix_move_days,
            prefixes_moved: self.prefixes_moved,
            new_adj_days: self.new_adj_days,
            upstream_converge_days: self.upstream_converge_days,
            score: self.score,
        }
    }
}

impl PairStateEntry {
    /// A copy of the entry.
    pub fn copy(&self) -> (r: PairStateEntry)
        ensures
            r@ == self@,
    {
        PairStateEntry {
            asn_lo: self.asn_lo,
            asn_hi: self.asn_hi,
            org_lo: copy_opt_text(&self.org_lo),
            org_hi: copy_opt_text(&self.org_hi),
            first_seen: self.first_seen,
            last_seen: self.last_seen,
            prefix_move_days: self.prefix_move_days,
            prefixes_moved: self.prefixes_moved,
            new_adj_days: self.new_adj_days,
            upstream_converge_days: self.upstream_converge_days,
            score: self.score,
        }
    }
}

/// What entries say.
pub open spec fn entry_views(m: Map<Seq<char>, PairStateEntry>) -> Map<Seq<char>, EntryView> {
    m.map_values(|e: PairStateEntry| e@)
}

/// The key of a pair: its two numbers with a hyphen between them.
pub open spec fn pair_text(p: AsnPair) -> Seq<char> {
    decimal(p.0 as nat) + "-"@ + decimal(p.1 as nat)
}

/// The key of a pair.
pub fn pair_key(lo: u32, hi: u32) -> (r: String)
    ensures
        r@ == pair_text((lo, hi)),
{
    let mut out = format_u64(lo as u64);
    out.append("-");
    out.append(format_u64(hi as u64).as_str());
    assert(out@ =~= pair_text((lo, hi)));
    out
}

/// Different pairs have different keys.
pub proof fn pair_keys_differ(p: AsnPair, q: AsnPair)
    ensures
        pair_text(p) == pair_text(q) <==> p == q,
{
    reveal_strlit("-");
    let a = decimal(p.0 as nat);
    let b = decimal(p.1 as nat);
    let c = decimal(q.0 as nat);
    let d = decimal(q.1 as nat);
    decimal_is_digits(p.0 as nat);
    decimal_is_digits(q.0 as nat);
    if pair_text(p) == pair_text(q) {
        let s = pair_text(p);
        assert(s[a.len() as int] == '-');
        assert(pair_text(q)[c.len() as int] == '-');
        if a.len() < c.len() {
            assert(s[a.len() as int] == c[a.len() as int]);
            assert(is_digit(c[a.len() as int]));
        }
        if c.len() < a.len() {
            assert(s[c.len() as int] == a[c.len() as int]);
            assert(is_digit(a[c.len() as int]));
        }
        assert(a.len() == c.len());
        assert(a =~= s.subrange(0, a.len() as int));
        assert(c =~= pair_text(q).subrange(0, c.len() as int));
        assert(b =~= s.subrange(a.len() as int + 1, s.len() as int));
        assert(d =~= pair_text(q).subrange(c.len() as int + 1, s.len() as int));
        decimal_injective(p.0 as nat, q.0 as nat);
        decimal_injective(p.1 as nat, q.1 as nat);
    }
}

/// The larger of two numbers.
pub open spec fn larger(a: int, b: int) -> int {
    if a < b {
        b
    } else {
        a
    }
}

/// The sum of two counts, or the largest count.
pub open spec fn capped_sum(a: u32, b: u32) -> u32 {
    if a + b > u32::MAX {
        u32::MAX
    } else {
        (a + b) as u32
    }
}

/// The entry of a pair of which nothing has been counted yet.
pub open spec fn fresh_entry(f: FeatureView) -> EntryView {
    EntryView {
        asn_lo: f.asn_lo,
        asn_hi: f.asn_hi,
        org_lo: f.org_lo,
        org_hi: f.org_hi,
        first_seen: f.first_seen,
        last_seen: f.last_seen,
        prefix_move_days: 0,
        prefixes_moved: 0,
        new_adj_days: 0,
        upstream_converge_days: 0,
        score: 0,
    }
}

/// An entry with a day's feature added: the span grows to hold the feature's, counts add up,
/// the score is the larger one, and organizations that were missing are filled in.
pub open spec fn with_feature(e: EntryView, f: FeatureView) -> EntryView {
    EntryView {
        asn_lo: e.asn_lo,
        asn_hi: e.asn_hi,
        org_lo: or_else(e.org_lo, f.org_lo),
        org_hi: or_else(e.org_hi, f.org_hi),
        first_seen: if earlier(f.first_seen, e.first_seen) {
            f.first_seen
        } else {
            e.first_seen
        },
        last_seen: if earlier(e.last_seen, f.last_seen) {
            f.last_seen
        } else {
            e.last_seen
        },
        prefix_move_days: capped_sum(e.prefix_move_days, f.prefix_move_days),
        prefixes_moved: capped_sum(e.prefixes_moved, f.prefixes_moved),
        new_adj_days: capped_sum(e.new_adj_days, f.new_adj_days),
        upstream_converge_days: capped_sum(e.upstream_converge_days, f.upstream_converge_days),
        score: larger(e.score as int, f.score as int) as i64,
    }
}

/// The key of a feature's pair.
pub open spec fn feature_key(f: FeatureView) -> Seq<char> {
    pair_text((f.asn_lo, f.asn_hi))
}

/// Entries with one feature merged in.
pub open spec fn merged_one(m: Map<Seq<char>, EntryView>, f: FeatureView) -> Map<
    Seq<char>,
    EntryView,
> {
    let k = feature_key(f);
    let e = if m.contains_key(k) {
        m[k]
    } else {
        fresh_entry(f)
    };
    m.insert(k, with_feature(e, f))
}

/// Entries with features merged in, in order.
pub open spec fn merged(m: Map<Seq<char>, EntryView>, fs: Seq<FeatureView>) -> Map<
    Seq<char>,
    EntryView,
>
    decreases fs.len(),
{
    if fs.len() == 0 {
        m
    } else {
        merged_one(merged(m, fs.drop_last()), fs.last())
    }
}

/// Entries without those last seen before a time.
pub open spec fn pruned(m: Map<Seq<char>, EntryView>, cutoff: Instant) -> Map<
    Seq<char>,
    EntryView,
> {
    m.restrict(Set::new(|k: Seq<char>| m.contains_key(k) && !earlier(m[k].last_seen, cutoff)))
}

/// The time `days` days before another.
pub open spec fn cutoff_of(as_of: Instant, days: i64) -> Instant {
    Instant {
        secs: days_before(as_of, days as int).0 as i64,
        nanos: days_before(as_of, days as int).1 as u32,
    }
}

/// Each pair stands under its key.
pub open spec fn keyed_by_pair(m: Map<Seq<char>, EntryView>) -> bool {
    forall|k: Seq<char>| #[trigger]
        m.contains_key(k) ==> k == pair_text((m[k].asn_lo, m[k].asn_hi))
}

/// Merging days and pruning leaves each pair under its key.
pub proof fn days_keep_the_keys_of_pairs(
    m: Map<Seq<char>, EntryView>,
    fs: Seq<FeatureView>,
    cutoff: Instant,
)
    requires
        keyed_by_pair(m),
    ensures
        keyed_by_pair(merged(m, fs)),
        keyed_by_pair(pruned(merged(m, fs), cutoff)),
    decreases fs.len(),
{
    if fs.len() > 0 {
        days_keep_the_keys_of_pairs(m, fs.drop_last(), cutoff);
        let was = merged(m, fs.drop_last());
        assert forall|k: Seq<char>| #[trigger] merged(m, fs).contains_key(k) implies k
            == pair_text((merged(m, fs)[k].asn_lo, merged(m, fs)[k].asn_hi)) by {
            assert(was.contains_key(k) ==> k == pair_text((was[k].asn_lo, was[k].asn_hi)));
        }
    }
}

/// What is known of all pairs over the days, by the pairs' keys.
pub struct PairStateStore {
    pub updated_at: Option<Instant>,
    pub pairs: TextMap<PairStateEntry>,
}

impl Default for PairStateStore {
    fn default() -> (r: Self)
        ensures
            r.wf(),
            r.updated_at is None,
            r.entries() == Map::<Seq<char>, EntryView>::empty(),
    {
        let r = PairStateStore { updated_at: None, pairs: TextMap::new() };
        assert(r.entries() =~= Map::<Seq<char>, EntryView>::empty());
        r
    }
}

fn add_counts(a: u32, b: u32) -> (r: u32)
    ensures
        r == capped_sum(a, b),
{
    a.saturating_add(b)
}

fn absorb(e: &mut PairStateEntry, f: &AsnPairFeature)
    ensures
        final(e)@ == with_feature(old(e)@, f@),
{
    if f.first_seen.is_earlier(&e.first_seen) {
        e.first_seen = f.first_seen;
    }
    if e.last_seen.is_earlier(&f.last_seen) {
        e.last_seen = f.last_seen;
    }
    e.prefix_move_days = add_counts(e.prefix_move_days, f.prefix_move_days);
    e.prefixes_moved = add_counts(e.prefixes_moved, f.prefixes_moved);
    e.new_adj_days = add_counts(e.new_adj_days, f.new_adj_days);
    e.upstream_converge_days = add_counts(e.upstream_converge_days, f.upstream_converge_days);
    if e.score < f.score {
        e.score = f.score;
    }
    if e.org_lo.is_none() {
        e.org_lo = copy_opt_text(&f.org_lo);
    }
    if e.org_hi.is_none() {
        e.org_hi = copy_opt_text(&f.org_hi);
    }
}

fn first_entry(f: &AsnPairFeature) -> (r: PairStateEntry)
    ensures
        r@ == fresh_entry(f@),
{
    PairStateEntry {
        asn_lo: f.asn_lo,
        asn_hi: f.asn_hi,
        org_lo: copy_opt_text(&f.org_lo),
        org_hi: copy_opt_text(&f.org_hi),
        first_seen: f.first_seen,
        last_seen: f.last_seen,
        prefix_move_days: 0,
        prefixes_moved: 0,
        new_adj_days: 0,
        upstream_converge_days: 0,
        score: 0,
    }
}

/// The entries at the first `n` positions that were seen since a time.
spec fn pruned_upto(pairs: TextMap<PairStateEntry>, cutoff: Instant, n: int) -> Map<
    Seq<char>,
    EntryView,
> {
    Map::new(
        |k: Seq<char>|
            pairs.map().contains_key(k) && pairs.keys().index_of(k) < n && !earlier(
                pairs.map()[k]@.last_seen,
                cutoff,
            ),
        |k: Seq<char>| pairs.map()[k]@,
    )
}

impl PairStateStore {
    /// The map of pairs is well formed.
    pub open spec fn wf(&self) -> bool {
        self.pairs.wf()
    }

    /// What is known of each pair.
    pub open spec fn entries(&self) -> Map<Seq<char>, EntryView> {
        entry_views(self.pairs.map())
    }

    fn merge_one(&mut self, f: &AsnPairFeature)
        requires
            old(self).wf(),
        ensures
            final(self).wf(),
            final(self).updated_at == old(self).updated_at,
            final(self).entries() == merged_one(old(self).entries(), f@),
    {
        let ghost before = *self;
        proof {
            before.pairs.lemma_wf();
        }
        let key = pair_key(f.asn_lo, f.asn_hi);
        match self.pairs.find(key.as_str()) {
            Some(i) => {
                let mut e = self.pairs.value_at(i).copy();
                absorb(&mut e, f);
                let _ = self.pairs.set_at(i, e);
            },
            None => {
                let mut e = first_entry(f);
                absorb(&mut e, f);
                self.pairs.insert(key, e);
            },
        }
        assert(self.entries() =~= merged_one(before.entries(), f@));
    }

    fn prune(&mut self, cutoff: Instant)
        requires
            old(self).wf(),
        ensures
            final(self).wf(),
            final(self).updated_at == old(self).updated_at,
            final(self).entries() == pruned(old(self).entries(), cutoff),
    {
        let ghost was = self.pairs;
        let n: usize = self.pairs.len();
        let mut kept: TextMap<PairStateEntry> = TextMap::new();
        let mut i: usize = 0;
        proof {
            was.lemma_wf();
            assert(entry_views(kept.map()) =~= pruned_upto(was, cutoff, 0));
        }
        while i < n
            invariant
                self.pairs == was,
                was.wf(),
                n == was.keys().len(),
                i <= n,
                kept.wf(),
                entry_views(kept.map()) == pruned_upto(was, cutoff, i as int),
            decreases n - i,
        {
            let e = self.pairs.value_at(i);
            let ghost k = was.keys()[i as int];
            let ghost map0 = entry_views(kept.map());
            proof {
                was.lemma_wf();
                assert(was.map().contains_key(k));
                assert(was.keys().index_of(k) == i);
            }
            if !e.last_seen.is_earlier(&cutoff) {
                let key = self.pairs.key_at(i).clone();
                let c = e.copy();
                kept.insert(key, c);
                proof {
                    assert(entry_views(kept.map()) =~= map0.insert(k, e@));
                    assert(map0.insert(k, e@) =~= pruned_upto(was, cutoff, i + 1));
                }
            } else {
                assert(map0 =~= pruned_upto(was, cutoff, i + 1));
            }
            i += 1;
        }
        proof {
            was.lemma_wf();
            assert(entry_views(kept.map()) =~= pruned(entry_views(was.map()), cutoff));
        }
        self.pairs = kept;
    }

    /// Merges a day's features, and forgets the pairs last seen more than `retain_days` days
    /// before the day.
    pub fn merge_day(&mut self, features: &[AsnPairFeature], as_of: Instant, retain_days: i64)
        requires
            old(self).wf(),
            days_before_in_range(as_of, retain_days as int),
        ensures
            final(self).wf(),
            final(self).updated_at == Some(as_of),
            final(self).entries() == pruned(
                merged(old(self).entries(), feature_views(features@)),
                cutoff_of(as_of, retain_days),
            ),
    {
        let ghost start = self.entries();
        let ghost fs = feature_views(features@);
        let mut i: usize = 0;
        assert(fs.subrange(0, 0) =~= Seq::empty());
        while i < features.len()
            invariant
                i <= features@.len(),
                self.wf(),
                fs == feature_views(features@),
                self.entries() == merged(start, fs.subrange(0, i as int)),
            decreases features@.len() - i,
        {
            proof {
                let next = fs.subrange(0, i as int + 1);
                assert(next.drop_last() =~= fs.subrange(0, i as int));
                assert(next.last() == features@[i as int]@);
            }
            self.merge_one(&features[i]);
            i += 1;
        }
        assert(fs.subrange(0, fs.len() as int) =~= fs);
        let cutoff = as_of.minus_days(retain_days);
        self.prune(cutoff);
        self.updated_at = Some(as_of);
    }

    /// What is known of a pair.
    pub fn get(&self, lo: u32, hi: u32) -> (r: Option<&PairStateEntry>)
        requires
            self.wf(),
        ensures
            match r {
                Some(e) => self.entries().contains_key(pair_text((lo, hi))) && e@
                    == self.entries()[pair_text((lo, hi))],
                None => !self.entries().contains_key(pair_text((lo, hi))),
            },
    {
        self.pairs.get(pair_key(lo, hi).as_str())
    }
}

// ---- signals ----

/// A network-contact signal of one pair on one day.
#[derive(Debug)]
pub struct SignalEnvelope {
    pub schema_version: u32,
    pub source: String,
    pub kind: String,
    pub as_of: Instant,
    pub prior_as_of: Instant,
    pub asn_a: u32,
    pub asn_b: u32,
    pub org_a: Option<String>,
    pub org_b: Option<String>,
    pub domains_a: Vec<String>,
    pub domains_b: Vec<String>,
    pub prefixes_moved: u32,
    pub prefix_move_days: u32,
    pub new_adj_days: u32,
    pub upstream_converge_days: u32,
    pub persistence_days: i64,
    /// Rank for triage; no probability.
    pub score: i64,
    pub event_kinds: Vec<String>,
    pub suppress_flags: Vec<String>,
}

/// What a signal says.
#[verifier::ext_equal]
pub struct SignalView {
    pub schema_version: u32,
    pub source: Seq<char>,
    pub kind: Seq<char>,
    pub as_of: Instant,
    pub prior_as_of: Instant,
    pub asn_a: u32,
    pub asn_b: u32,
    pub org_a: Option<Seq<char>>,
    pub org_b: Option<Seq<char>>,
    pub domains_a: Seq<Seq<char>>,
    pub domains_b: Seq<Seq<char>>,
    pub prefixes_moved: u32,
    pub prefix_move_days: u32,
    pub new_adj_days: u32,
    pub upstream_converge_days: u32,
    pub persistence_days: i64,
    pub score: i64,
    pub event_kinds: Seq<Seq<char>>,
    pub suppress_flags: Seq<Seq<char>>,
}

impl View for SignalEnvelope {
    type V = SignalView;

    open spec fn view(&self) -> SignalView {
        SignalView {
            schema_version: self.schema_version,
            source: self.source@,
            kind: self.kind@,
            as_of: self.as_of,
            prior_as_of: self.prior_as_of,
            asn_a: self.asn_a,
            asn_b: self.asn_b,
            org_a: opt_text(self.org_a),
            org_b: opt_text(self.org_b),
            domains_a: texts(self.domains_a@),
            domains_b: texts(self.domains_b@),
            prefixes_moved: self.prefixes_moved,
            prefix_move_days: self.prefix_move_days,
            new_adj_days: self.new_adj_days,
            upstream_converge_days: self.upstream_converge_days,
            persistence_days: self.persistence_days,
            score: self.score,
            event_kinds: texts(self.event_kinds@),
            suppress_flags: texts(self.suppress_flags@),
        }
    }
}

/// What signals say.
pub open spec fn signal_views(v: Seq<SignalEnvelope>) -> Seq<SignalView> {
    Seq::new(v.len(), |i: int| v[i]@)
}

/// Signals rank by score, the highest first, then by the lower network.
impl Ranked for SignalEnvelope {
    open spec fn before(&self, other: &Self) -> bool {
        self.score > other.score || (self.score == other.score && self.asn_a < other.asn_a)
    }

    proof fn before_asymmetric(a: &Self, b: &Self) {
    }

    proof fn not_before_transitive(a: &Self, b: &Self, c: &Self) {
    }

    fn is_before(&self, other: &Self) -> (r: bool) {
        self.score > other.score || (self.score == other.score && self.asn_a < other.asn_a)
    }
}

/// The names of the kinds of events that a feature counts.
pub open spec fn feature_kinds(f: FeatureView) -> Seq<Seq<char>> {
    let moves = if f.prefix_move_days > 0 {
        seq!["prefix_move"@]
    } else {
        Seq::empty()
    };
    let adjacencies = if f.new_adj_days > 0 {
        seq!["new_adj"@]
    } else {
        Seq::empty()
    };
    let convergences = if f.upstream_converge_days > 0 {
        seq!["upstream_converge"@]
    } else {
        Seq::empty()
    };
    moves + adjacencies + convergences
}

/// The signal of a feature and of what is known of its pair. Counts and score are the larger of
/// the two; persistence is the pair's span.
pub open spec fn signal_of(
    f: FeatureView,
    known: Option<EntryView>,
    orgs: OrgState,
    as_of: Instant,
    prior_as_of: Instant,
) -> SignalView {
    let e = match known {
        Some(e) => e,
        None => EntryView {
            prefix_move_days: f.prefix_move_days,
            prefixes_moved: f.prefixes_moved,
            new_adj_days: f.new_adj_days,
            upstream_converge_days: f.upstream_converge_days,
            score: f.score,
            ..fresh_entry(f)
        },
    };
    SignalView {
        schema_version: 1,
        source: "bgp_analyzer"@,
        kind: "network_contact"@,
        as_of,
        prior_as_of,
        asn_a: f.asn_lo,
        asn_b: f.asn_hi,
        org_a: f.org_lo,
        org_b: f.org_hi,
        domains_a: domains_of(orgs, f.asn_lo),
        domains_b: domains_of(orgs, f.asn_hi),
        prefixes_moved: larger(e.prefixes_moved as int, f.prefixes_moved as int) as u32,
        prefix_move_days: larger(e.prefix_move_days as int, f.prefix_move_days as int) as u32,
        new_adj_days: larger(e.new_adj_days as int, f.new_adj_days as int) as u32,
        upstream_converge_days: larger(
            e.upstream_converge_days as int,
            f.upstream_converge_days as int,
        ) as u32,
        persistence_days: match known {
            Some(e) => whole_days(e.last_seen, e.first_seen) as i64,
            None => f.persistence_days,
        },
        score: larger(e.score as int, f.score as int) as i64,
        event_kinds: feature_kinds(f),
        suppress_flags: Seq::empty(),
    }
}

/// What is known of a feature's pair.
pub open spec fn known_of(state: Option<Map<Seq<char>, EntryView>>, f: FeatureView) -> Option<
    EntryView,
> {
    match state {
        Some(m) => if m.contains_key(feature_key(f)) {
            Some(m[feature_key(f)])
        } else {
            None
        },
        None => None,
    }
}

/// The signals of features, in the features' order.
pub open spec fn signals_of(
    fs: Seq<FeatureView>,
    orgs: OrgState,
    as_of: Instant,
    prior_as_of: Instant,
    state: Option<Map<Seq<char>, EntryView>>,
) -> Seq<SignalView> {
    Seq::new(fs.len(), |i: int| signal_of(fs[i], known_of(state, fs[i]), orgs, as_of, prior_as_of))
}

/// The entries of a store, where there is one.
pub open spec fn state_entries(state: Option<&PairStateStore>) -> Option<
    Map<Seq<char>, EntryView>,
> {
    match state {
        Some(s) => Some(s.entries()),
        None => None,
    }
}

fn event_kinds_from_feature(f: &AsnPairFeature) -> (r: Vec<String>)
    ensures
        texts(r@) == feature_kinds(f@),
{
    let mut k: Vec<String> = Vec::new();
    if f.prefix_move_days > 0 {
        k.push("prefix_move".to_owned());
    }
    if f.new_adj_days > 0 {
        k.push("new_adj".to_owned());
    }
    if f.upstream_converge_days > 0 {
        k.push("upstream_converge".to_owned());
    }
    assert(texts(k@) =~= feature_kinds(f@));
    k
}

fn larger_count(a: u32, b: u32) -> (r: u32)
    ensures
        r == larger(a as int, b as int),
{
    if a < b {
        b
    } else {
        a
    }
}

fn build_signal(
    f: &AsnPairFeature,
    known: Option<&PairStateEntry>,
    org_map: &OrgMap,
    as_of: Instant,
    prior_as_of: Instant,
) -> (r: SignalEnvelope)
    requires
        org_map.wf(),
    ensures
        r@ == signal_of(
            f@,
            match known {
                Some(e) => Some(e@),
                None => None,
            },
            org_map.state(),
            as_of,
            prior_as_of,
        ),
{
    let mut prefixes_moved: u32 = f.prefixes_moved;
    let mut prefix_move_days: u32 = f.prefix_move_days;
    let mut new_adj_days: u32 = f.new_adj_days;
    let mut upstream_converge_days: u32 = f.upstream_converge_days;
    let mut persistence_days: i64 = f.persistence_days;
    let mut score: i64 = f.score;
    if let Some(e) = known {
        prefixes_moved = larger_count(e.prefixes_moved, f.prefixes_moved);
        prefix_move_days = larger_count(e.prefix_move_days, f.prefix_move_days);
        new_adj_days = larger_count(e.new_adj_days, f.new_adj_days);
        upstream_converge_days = larger_count(e.upstream_converge_days, f.upstream_converge_days);
        persistence_days = e.last_seen.days_since(&e.first_seen);
        if score < e.score {
            score = e.score;
        }
    }
    let suppress_flags: Vec<String> = Vec::new();
    assert(texts(suppress_flags@) =~= Seq::empty());
    SignalEnvelope {
        schema_version: 1,
        source: "bgp_analyzer".to_owned(),
        kind: "network_contact".to_owned(),
        as_of,
        prior_as_of,
        asn_a: f.asn_lo,
        asn_b: f.asn_hi,
        org_a: copy_opt_text(&f.org_lo),
        org_b: copy_opt_text(&f.org_hi),
        domains_a: domains_for(org_map, f.asn_lo),
        domains_b: domains_for(org_map, f.asn_hi),
        prefixes_moved,
        prefix_move_days,
        new_adj_days,
        upstream_converge_days,
        persistence_days,
        score,
        event_kinds: event_kinds_from_feature(f),
        suppress_flags,
    }
}

/// Builds the signals of features, with what is known of their pairs, the highest score first.
pub fn build_signals(
    features: &[AsnPairFeature],
    org_map: &OrgMap,
    as_of: Instant,
    prior_as_of: Instant,
    state: Option<&PairStateStore>,
) -> (r: Vec<SignalEnvelope>)
    requires
        org_map.wf(),
        state is Some ==> state->0.wf(),
    ensures
        exists|u: Seq<SignalEnvelope>|
            signal_views(u) == signals_of(
                feature_views(features@),
                org_map.state(),
                as_of,
                prior_as_of,
                state_entries(state),
            ) && r@ == #[trigger] ranked(u),
        in_rank_order(r@),
{
    let ghost fs = feature_views(features@);
    let ghost expect = signals_of(
        fs,
        org_map.state(),
        as_of,
        prior_as_of,
        state_entries(state),
    );
    let mut out: Vec<SignalEnvelope> = Vec::new();
    let mut i: usize = 0;
    while i < features.len()
        invariant
            i <= features@.len(),
            org_map.wf(),
            state is Some ==> state->0.wf(),
            fs == feature_views(features@),
            expect == signals_of(
                fs,
                org_map.state(),
                as_of,
                prior_as_of,
                state_entries(state),
            ),
            out@.len() == i,
            forall|j: int| 0 <= j < i ==> (#[trigger] out@[j])@ == expect[j],
        decreases features@.len() - i,
    {
        let f = &features[i];
        let known = match state {
            Some(s) => s.get(f.asn_lo, f.asn_hi),
            None => None,
        };
        let s = build_signal(f, known, org_map, as_of, prior_as_of);
        assert(s@ == expect[i as int]);
        out.push(s);
        i += 1;
    }
    let ghost u = out@;
    assert(signal_views(u) =~= expect);
    proof {
        crate::order::ranked_is_ordered_permutation(u);
    }
    rank(out)
}

// ---- laws ----

/// Merging a feature holds at least what the feature counts, forgets nothing that was counted,
/// and touches no other pair.
pub proof fn merging_adds_up(m: Map<Seq<char>, EntryView>, f: FeatureView)
    ensures
        ({
            let after = merged_one(m, f);
            let k = feature_key(f);
            &&& after.contains_key(k)
            &&& after[k].prefixes_moved >= f.prefixes_moved
            &&& after[k].prefix_move_days >= f.prefix_move_days
            &&& after[k].new_adj_days >= f.new_adj_days
            &&& after[k].upstream_converge_days >= f.upstream_converge_days
            &&& after[k].score >= f.score
            &&& !earlier(f.first_seen, after[k].first_seen)
            &&& !earlier(after[k].last_seen, f.last_seen)
            &&& m.contains_key(k) ==> after[k].prefixes_moved >= m[k].prefixes_moved
                && after[k].prefix_move_days >= m[k].prefix_move_days && after[k].new_adj_days
                >= m[k].new_adj_days && after[k].upstream_converge_days
                >= m[k].upstream_converge_days && after[k].score >= m[k].score && !earlier(
                m[k].first_seen,
                after[k].first_seen,
            ) && !earlier(after[k].last_seen, m[k].last_seen)
            &&& forall|j: Seq<char>|
                j != k ==> (#[trigger] after.contains_key(j) <==> m.contains_key(j)) && (
                m.contains_key(j) ==> after[j] == m[j])
        }),
{
}

/// Nothing that was last seen before the cutoff stays, everything else does, and pruning again
/// changes nothing.
pub proof fn pruning_forgets_the_old(m: Map<Seq<char>, EntryView>, cutoff: Instant)
    ensures
        forall|k: Seq<char>| #[trigger]
            pruned(m, cutoff).contains_key(k) <==> m.contains_key(k) && !earlier(
                m[k].last_seen,
                cutoff,
            ),
        forall|k: Seq<char>| #[trigger]
            pruned(m, cutoff).contains_key(k) ==> pruned(m, cutoff)[k] == m[k],
        pruned(pruned(m, cutoff), cutoff) == pruned(m, cutoff),
{
    assert(pruned(pruned(m, cutoff), cutoff) =~= pruned(m, cutoff));
}

/// Every feature that was last seen since the cutoff is known after its day was merged, with at
/// least the counts of the feature.
pub proof fn merged_features_are_known(
    m: Map<Seq<char>, EntryView>,
    fs: Seq<FeatureView>,
    cutoff: Instant,
    i: int,
)
    requires
        0 <= i < fs.len(),
        !earlier(fs[i].last_seen, cutoff),
    ensures
        pruned(merged(m, fs), cutoff).contains_key(feature_key(fs[i])),
        merged(m, fs)[feature_key(fs[i])].prefixes_moved >= fs[i].prefixes_moved,
        merged(m, fs)[feature_key(fs[i])].score >= fs[i].score,
{
    lemma_merged_holds(m, fs, i);
}

proof fn lemma_merged_holds(m: Map<Seq<char>, EntryView>, fs: Seq<FeatureView>, i: int)
    requires
        0 <= i < fs.len(),
    ensures
        merged(m, fs).contains_key(feature_key(fs[i])),
        !earlier(merged(m, fs)[feature_key(fs[i])].last_seen, fs[i].last_seen),
        merged(m, fs)[feature_key(fs[i])].prefixes_moved >= fs[i].prefixes_moved,
        merged(m, fs)[feature_key(fs[i])].score >= fs[i].score,
    decreases fs.len(),
{
    let head = fs.drop_last();
    merging_adds_up(merged(m, head), fs.last());
    if i < head.len() {
        lemma_merged_holds(m, head, i);
        assert(head[i] == fs[i]);
    }
}

/// A signal counts at least what its feature counts, and names the feature's networks and
/// organizations.
pub proof fn signals_keep_features(
    f: FeatureView,
    known: Option<EntryView>,
    orgs: OrgState,
    as_of: Instant,
    prior_as_of: Instant,
)
    ensures
        ({
            let s = signal_of(f, known, orgs, as_of, prior_as_of);
            &&& s.asn_a == f.asn_lo && s.asn_b == f.asn_hi
            &&& s.org_a == f.org_lo && s.org_b == f.org_hi
            &&& s.prefixes_moved >= f.prefixes_moved
            &&& s.prefix_move_days >= f.prefix_move_days
            &&& s.new_adj_days >= f.new_adj_days
            &&& s.upstream_converge_days >= f.upstream_converge_days
            &&& s.score >= f.score
        }),
{
}

/// Counts add up over the days: each count of a pair is the sum of what was known and what the
/// feature counts, up to the largest number of 32 bits. The span is from the earlier first time to
/// the later last one, the score is the higher one, an organization that was known stays, and one
/// that was not is the feature's.
pub proof fn counts_add_up_over_the_days(m: Map<Seq<char>, EntryView>, f: FeatureView)
    requires
        m.contains_key(pair_text((f.asn_lo, f.asn_hi))),
    ensures
        ({
            let e = m[pair_text((f.asn_lo, f.asn_hi))];
            let after = merged(m, seq![f])[pair_text((f.asn_lo, f.asn_hi))];
            let most = 0xffff_ffffint;
            &&& after.prefixes_moved == (if e.prefixes_moved + f.prefixes_moved <= most {
                e.prefixes_moved + f.prefixes_moved
            } else {
                most
            })
            &&& after.prefix_move_days == (if e.prefix_move_days + f.prefix_move_days <= most {
                e.prefix_move_days + f.prefix_move_days
            } else {
                most
            })
            &&& after.new_adj_days == (if e.new_adj_days + f.new_adj_days <= most {
                e.new_adj_days + f.new_adj_days
            } else {
                most
            })
            &&& after.upstream_converge_days == (if e.upstream_converge_days
                + f.upstream_converge_days <= most {
                e.upstream_converge_days + f.upstream_converge_days
            } else {
                most
            })
            &&& after.score == e.score || after.score == f.score
            &&& after.score >= e.score && after.score >= f.score
            &&& after.first_seen == e.first_seen || after.first_seen == f.first_seen
            &&& !earlier(e.first_seen, after.first_seen) && !earlier(f.first_seen, after.first_seen)
            &&& after.last_seen == e.last_seen || after.last_seen == f.last_seen
            &&& !earlier(after.last_seen, e.last_seen) && !earlier(after.last_seen, f.last_seen)
            &&& e.org_lo is Some ==> after.org_lo == e.org_lo
            &&& e.org_lo is None ==> after.org_lo == f.org_lo
            &&& e.org_hi is Some ==> after.org_hi == e.org_hi
            &&& e.org_hi is None ==> after.org_hi == f.org_hi
            &&& after.asn_lo == e.asn_lo && after.asn_hi == e.asn_hi
        }),
{
    let one = seq![f];
    assert(one.drop_last() =~= Seq::empty());
    assert(merged(m, one.drop_last()) == m);
    assert(one.last() == f);
}

/// A pair of which nothing was known is known as its feature tells.
pub proof fn new_pairs_are_known_as_their_features(m: Map<Seq<char>, EntryView>, f: FeatureView)
    requires
        !m.contains_key(pair_text((f.asn_lo, f.asn_hi))),
        f.score >= 0,
    ensures
        merged(m, seq![f]) == m.insert(
            pair_text((f.asn_lo, f.asn_hi)),
            EntryView {
                asn_lo: f.asn_lo,
                asn_hi: f.asn_hi,
                org_lo: f.org_lo,
                org_hi: f.org_hi,
                first_seen: f.first_seen,
                last_seen: f.last_seen,
                prefix_move_days: f.prefix_move_days,
                prefixes_moved: f.prefixes_moved,
                new_adj_days: f.new_adj_days,
                upstream_converge_days: f.upstream_converge_days,
                score: f.score,
            },
        ),
{
    let one = seq![f];
    assert(one.drop_last() =~= Seq::empty());
    assert(merged(m, one.drop_last()) == m);
    assert(one.last() == f);
}

/// Days that are merged one behind the other are merged as one.
pub proof fn days_merge_one_by_one(
    m: Map<Seq<char>, EntryView>,
    first: Seq<FeatureView>,
    second: Seq<FeatureView>,
)
    ensures
        merged(m, first + second) == merged(merged(m, first), second),
    decreases second.len(),
{
    if second.len() == 0 {
        assert(first + second =~= first);
    } else {
        assert((first + second).drop_last() =~= first + second.drop_last());
        days_merge_one_by_one(m, first, second.drop_last());
    }
}

/// The prefixes that the features of a pair moved, all together.
pub open spec fn moved_together(fs: Seq<FeatureView>, p: AsnPair) -> int
    decreases fs.len(),
{
    if fs.len() == 0 {
        0
    } else {
        moved_together(fs.drop_last(), p) + (if fs.last().asn_lo == p.0 && fs.last().asn_hi == p.1 {
            fs.last().prefixes_moved as int
        } else {
            0
        })
    }
}

/// Over any number of days, the prefixes of a pair are those known at the start and those of all
/// its features together, as long as 32 bits count them.
pub proof fn prefixes_add_up_over_all_days(
    m: Map<Seq<char>, EntryView>,
    fs: Seq<FeatureView>,
    p: AsnPair,
)
    requires
        ({
            let known = if m.contains_key(pair_text(p)) {
                m[pair_text(p)].prefixes_moved as int
            } else {
                0
            };
            known + moved_together(fs, p) <= u32::MAX
        }),
    ensures
        merged(m, fs).contains_key(pair_text(p)) ==> merged(m, fs)[pair_text(p)].prefixes_moved
            == moved_together(fs, p) + (if m.contains_key(pair_text(p)) {
            m[pair_text(p)].prefixes_moved as int
        } else {
            0
        }),
        !merged(m, fs).contains_key(pair_text(p)) ==> moved_together(fs, p) == 0
            && !m.contains_key(pair_text(p)),
        moved_together(fs, p) >= 0,
    decreases fs.len(),
{
    if fs.len() > 0 {
        let f = fs.last();
        lemma_moved_together(fs.drop_last(), p);
        prefixes_add_up_over_all_days(m, fs.drop_last(), p);
        pair_keys_differ((f.asn_lo, f.asn_hi), p);
        if (f.asn_lo, f.asn_hi) != p {
            assert(feature_key(f) != pair_text(p));
        }
    }
}

proof fn lemma_moved_together(fs: Seq<FeatureView>, p: AsnPair)
    ensures
        moved_together(fs, p) >= 0,
    decreases fs.len(),
{
    if fs.len() > 0 {
        lemma_moved_together(fs.drop_last(), p);
    }
}

/// A pair is forgotten just where it was last seen more than the days to retain before the day
/// that is merged, outside leap seconds.
pub proof fn pairs_are_retained_by_days(
    m: Map<Seq<char>, EntryView>,
    as_of: Instant,
    days: i64,
    k: Seq<char>,
)
    requires
        m.contains_key(k),
        as_of.nanos < 1_000_000_000,
        m[k].last_seen.nanos < 1_000_000_000,
        days_before_in_range(as_of, days as int),
    ensures
        pruned(m, cutoff_of(as_of, days)).contains_key(k) <==> nanos_of(m[k].last_seen) >= nanos_of(
            as_of,
        ) - days * 86_400_000_000_000,
{
    days_before_are_days(as_of, days as int);
    earlier_is_fewer_nanos(m[k].last_seen, cutoff_of(as_of, days));
}

/// The signal of a pair that was merged tells the totals: each count is what was known before and
/// what the day's feature counts, up to the largest number of 32 bits; the persistence is the days
/// from the first to the last time.
pub proof fn signals_tell_the_totals(
    m: Map<Seq<char>, EntryView>,
    f: FeatureView,
    orgs: OrgState,
    as_of: Instant,
    prior_as_of: Instant,
)
    requires
        f.score >= 0,
    ensures
        ({
            let k = pair_text((f.asn_lo, f.asn_hi));
            let known = merged(m, seq![f]);
            let s = signals_of(seq![f], orgs, as_of, prior_as_of, Some(known))[0];
            let most = 0xffff_ffffint;
            let total = |before: u32, day: u32|
                if before + day <= most {
                    before + day
                } else {
                    most
                };
            &&& known.contains_key(k)
            &&& m.contains_key(k) ==> s.prefixes_moved == total(
                m[k].prefixes_moved,
                f.prefixes_moved,
            ) && s.prefix_move_days == total(m[k].prefix_move_days, f.prefix_move_days)
                && s.new_adj_days == total(m[k].new_adj_days, f.new_adj_days)
                && s.upstream_converge_days == total(
                m[k].upstream_converge_days,
                f.upstream_converge_days,
            )
            &&& !m.contains_key(k) ==> s.prefixes_moved == f.prefixes_moved && s.prefix_move_days
                == f.prefix_move_days && s.new_adj_days == f.new_adj_days
                && s.upstream_converge_days == f.upstream_converge_days && s.score == f.score
            &&& s.persistence_days == whole_days(known[k].last_seen, known[k].first_seen) as i64
            &&& s.score == known[k].score
        }),
{
    let one = seq![f];
    assert(one.drop_last() =~= Seq::empty());
    assert(merged(m, one.drop_last()) == m);
    assert(one.last() == f);
}

/// A signal names the lower network first, with the organizations and domains of each side, the
/// times of both snapshots, the kinds of events that its feature counts, in this order and no
/// others, and no flags. Where nothing is known of the pair it counts what its feature counts.
pub proof fn signals_say_what_features_say(
    f: FeatureView,
    known: Option<EntryView>,
    orgs: OrgState,
    as_of: Instant,
    prior_as_of: Instant,
)
    ensures
        ({
            let s = signal_of(f, known, orgs, as_of, prior_as_of);
            &&& s.schema_version == 1
            &&& s.source == "bgp_analyzer"@ && s.kind == "network_contact"@
            &&& s.as_of == as_of && s.prior_as_of == prior_as_of
            &&& s.asn_a == f.asn_lo && s.asn_b == f.asn_hi
            &&& s.org_a == f.org_lo && s.org_b == f.org_hi
            &&& s.domains_a == (match orgs.org_of(f.asn_lo) {
                Some(o) => o.domains,
                None => Seq::empty(),
            })
            &&& s.domains_b == (match orgs.org_of(f.asn_hi) {
                Some(o) => o.domains,
                None => Seq::empty(),
            })
            &&& s.suppress_flags.len() == 0
            &&& s.event_kinds.contains("prefix_move"@) <==> f.prefix_move_days > 0
            &&& s.event_kinds.contains("new_adj"@) <==> f.new_adj_days > 0
            &&& s.event_kinds.contains("upstream_converge"@) <==> f.upstream_converge_days > 0
            &&& s.event_kinds.len() == (if f.prefix_move_days > 0 {
                1int
            } else {
                0
            }) + (if f.new_adj_days > 0 {
                1int
            } else {
                0
            }) + (if f.upstream_converge_days > 0 {
                1int
            } else {
                0
            })
            &&& f.prefix_move_days > 0 ==> s.event_kinds[0] == "prefix_move"@
            &&& f.upstream_converge_days > 0 ==> s.event_kinds.last() == "upstream_converge"@
            &&& known is None ==> s.prefixes_moved == f.prefixes_moved && s.prefix_move_days
                == f.prefix_move_days && s.new_adj_days == f.new_adj_days
                && s.upstream_converge_days == f.upstream_converge_days && s.score == f.score
                && s.persistence_days == f.persistence_days
        }),
{
    let a = "prefix_move"@;
    let b = "new_adj"@;
    let c = "upstream_converge"@;
    reveal_strlit("prefix_move");
    reveal_strlit("new_adj");
    reveal_strlit("upstream_converge");
    assert(a.len() == 11 && b.len() == 7 && c.len() == 17);
    let kinds = feature_kinds(f);
    if f.prefix_move_days > 0 {
        assert(kinds[0] == a);
    }
    if f.new_adj_days > 0 {
        assert(kinds[if f.prefix_move_days > 0 {
            1int
        } else {
            0
        }] == b);
    }
    if f.upstream_converge_days > 0 {
        assert(kinds[kinds.len() - 1] == c);
    }
}

/// Signals come with the higher score first, and of equal scores the lower first network.
pub proof fn signals_are_in_order_of_score(v: Seq<SignalEnvelope>, i: int, j: int)
    requires
        in_rank_order(v),
        0 <= i < j < v.len(),
    ensures
        v[i].score >= v[j].score,
        v[i].score == v[j].score ==> v[i].asn_a <= v[j].asn_a,
{
    assert(!v[j].before(&v[i]));
}

/// A pair that is known after merging features and was not before is that of one of them; this
/// gives its place.
pub proof fn merged_pairs_come_of_features(
    m: Map<Seq<char>, EntryView>,
    fs: Seq<FeatureView>,
    k: Seq<char>,
) -> (i: int)
    requires
        merged(m, fs).contains_key(k),
        !m.contains_key(k),
    ensures
        0 <= i < fs.len(),
        pair_text((fs[i].asn_lo, fs[i].asn_hi)) == k,
    decreases fs.len(),
{
    let rest = fs.drop_last();
    if merged(m, rest).contains_key(k) {
        let i = merged_pairs_come_of_features(m, rest, k);
        assert(rest[i] == fs[i]);
        i
    } else {
        fs.len() - 1
    }
}

/// The pair of each feature is known after merging them.
pub proof fn merged_pairs_are_known(m: Map<Seq<char>, EntryView>, fs: Seq<FeatureView>, i: int)
    requires
        0 <= i < fs.len(),
    ensures
        merged(m, fs).contains_key(pair_text((fs[i].asn_lo, fs[i].asn_hi))),
{
    lemma_merged_holds(m, fs, i);
}

} // verus!
