//! The daily job: which snapshots to compare and to keep, what to focus on, and how a day's
//! comparison becomes signals.

use crate::clean::{
    attributed, drop_reason, dropped_features, dropped_views, filter_clean_features, kept_features,
    leasing_asns, leasing_set, share_registrable, CleanContext, CleanDropReason,
};
use crate::diff::{
    diff_events, diff_snapshots, domains_of, events_are_attributed, fresh, fresh_items,
    moves_are_reported, org_id_of, snap_of, DiffConfig, Snap,
};
use crate::events::{event_views, pair_of, AsnPair, EventView, MaEvent, MaEventKind};
use crate::features::{
    aggregate_pair_features, contact_pairs, feature_of, feature_views,
    features_keep_organizations, filter_sparse_events, is_kept, is_of_pair, move_key,
    gathered, named_prefixes_count, one_feature_per_pair, pair_features, prefixes_on_day,
    span_is_first_to_last, sparse, sparse_keeps_pairs_that_move_enough, sparse_pairs_move_enough,
    AsnPairFeature, SparseConfig,
};
use crate::glue::{GlueSet, SubjectHeuristics};
use crate::order::{in_rank_order, ranked, ranked_contains, ranked_is_ordered_permutation};
use crate::orgs::{count_of, known_count, owned, subjects_of, OrgMap, OrgState};
use crate::signal::{
    build_signals, cutoff_of, feature_kinds, merged, merged_pairs_are_known,
    merged_pairs_come_of_features, pair_text, pruned, signal_of, signal_views, signals_of,
    EntryView, PairStateStore, SignalEnvelope, SignalView,
};
use crate::snapshot::{
    counts_fit, filter_snapshot_focus, focus_positions, focused, focusing_keeps_the_order,
    origin_count, ObsView, RibSnapshot,
};
use crate::store::{SignalRun, SignalRunStatus};
use crate::text::{begins_with, strip_prefix, strip_suffix, texts, without_prefix, without_suffix};
use crate::time::{
    date_text, day_in_range, days_before_in_range, earlier, instant_day, parse_ymd, parsed_date, Date,
    Instant,
};
use std::collections::HashSet;
use vstd::prelude::*;
use vstd::seq_lib::lemma_seq_contains_after_push;
use vstd::string::StringExecFns;

verus! {

broadcast use vstd::std_specs::hash::group_hash_axioms;

// ---- snapshot files ----

/// The name of a day's snapshot file.
pub open spec fn snapshot_file(day: int) -> Seq<char> {
    "rib-"@ + date_text(day) + ".json"@
}

/// The name of a day's snapshot file, by which its day is found again.
pub fn snapshot_name(day: Date) -> (r: String)
    requires
        day.wf(),
    ensures
        r@ == snapshot_file(day.day as int),
        day_of_file(r@) == Some(day.day as int),
{
    let text = day.text();
    let mut out = "rib-".to_owned();
    out.append(text.as_str());
    out.append(".json");
    proof {
        let rest = text@ + ".json"@;
        assert(out@ =~= "rib-"@ + rest);
        assert(without_prefix(out@, "rib-"@) == Some(rest)) by {
            assert(out@.subrange(0, "rib-"@.len() as int) =~= "rib-"@);
            assert(out@.subrange("rib-"@.len() as int, out@.len() as int) =~= rest);
        }
        assert(without_suffix(rest, ".json"@) == Some(text@)) by {
            assert(rest.subrange(text@.len() as int, rest.len() as int) =~= ".json"@);
            assert(rest.subrange(0, text@.len() as int) =~= text@);
        }
    }
    out
}

/// The day whose snapshot a file holds, by its name.
pub open spec fn day_of_file(name: Seq<char>) -> Option<int> {
    match without_prefix(name, "rib-"@) {
        Some(rest) => match without_suffix(rest, ".json"@) {
            Some(day) => parsed_date(day),
            None => None,
        },
        None => None,
    }
}

/// The day whose snapshot a file holds, by its name.
pub fn snapshot_day(name: &str) -> (r: Option<Date>)
    ensures
        match r {
            Some(d) => d.wf() && day_of_file(name@) == Some(d.day as int),
            None => day_of_file(name@) is None,
        },
{
    match strip_prefix(name, "rib-") {
        Some(rest) => match strip_suffix(rest.as_str(), ".json") {
            Some(day) => match parse_ymd(day.as_str()) {
                Ok(d) => Some(d),
                Err(_e) => None,
            },
            None => None,
        },
        None => None,
    }
}

/// A file holds a snapshot of a day before another.
pub open spec fn is_prior(name: Seq<char>, day: int) -> bool {
    day_of_file(name) is Some && day_of_file(name)->0 < day
}

/// The position of the latest snapshot before a day; of several for one day, the first.
pub open spec fn is_latest_prior(names: Seq<Seq<char>>, day: int, i: int) -> bool {
    &&& 0 <= i < names.len()
    &&& is_prior(names[i], day)
    &&& forall|j: int|
        0 <= j < names.len() && is_prior(#[trigger] names[j], day) ==> day_of_file(names[j])->0
            <= day_of_file(names[i])->0
    &&& forall|j: int|
        0 <= j < i && is_prior(#[trigger] names[j], day) ==> day_of_file(names[j])->0
            < day_of_file(names[i])->0
}

/// Finds the latest snapshot before a day among files; gives its position.
pub fn find_prior_snapshot(names: &[String], day: Date) -> (r: Option<usize>)
    ensures
        match r {
            Some(i) => is_latest_prior(texts(names@), day.day as int, i as int),
            None => forall|j: int|
                0 <= j < names@.len() ==> !is_prior(
                    #[trigger] texts(names@)[j],
                    day.day as int,
                ),
        },
{
    let ghost all = texts(names@);
    let mut best: Option<(i64, usize)> = None;
    let mut i: usize = 0;
    while i < names.len()
        invariant
            i <= names@.len(),
            all == texts(names@),
            match best {
                Some((d, k)) => k < i && is_latest_prior(
                    all.subrange(0, i as int),
                    day.day as int,
                    k as int,
                ) && day_of_file(all[k as int]) == Some(d as int),
                None => forall|j: int|
                    0 <= j < i ==> !is_prior(#[trigger] all[j], day.day as int),
            },
        decreases names@.len() - i,
    {
        let ghost done = all.subrange(0, i as int);
        let ghost next = all.subrange(0, i as int + 1);
        let ghost was = best;
        assert(all[i as int] == names@[i as int]@);
        if let Some(d) = snapshot_day(names[i].as_str()) {
            if d.day < day.day {
                let better = match best {
                    Some((b, _k)) => d.day > b,
                    None => true,
                };
                if better {
                    best = Some((d.day, i));
                }
            }
        }
        proof {
            match best {
                Some((b, k)) => {
                    assert(next[k as int] == all[k as int]);
                    assert forall|j: int| 0 <= j < next.len() && is_prior(
                        #[trigger] next[j],
                        day.day as int,
                    ) implies day_of_file(next[j])->0 <= day_of_file(next[k as int])->0 && (j < k
                        ==> day_of_file(next[j])->0 < day_of_file(next[k as int])->0) by {
                        assert(next[j] == all[j]);
                        if j < i {
                            assert(done[j] == all[j]);
                            if let Some((_d, w)) = was {
                                assert(done[w as int] == all[w as int]);
                            }
                        }
                    }
                    assert(is_latest_prior(next, day.day as int, k as int));
                },
                None => {},
            }
        }
        i += 1;
    }
    assert(all.subrange(0, all.len() as int) =~= all);
    match best {
        Some((_d, k)) => Some(k),
        None => None,
    }
}

/// The day before which snapshots are not kept.
pub open spec fn keep_from(day: int, retain_days: u32) -> int {
    day - retain_days
}

/// A file holds a snapshot that is too old to keep.
pub open spec fn is_old(name: Seq<char>, cutoff: int) -> bool {
    day_of_file(name) is Some && day_of_file(name)->0 < cutoff
}

/// The snapshots among files that are too old to keep; nothing where the calendar does not hold
/// the day from which they are kept.
pub fn prune_snapshots(names: &[String], day: Date, retain_days: u32) -> (r: Option<Vec<String>>)
    ensures
        match r {
            Some(v) => day_in_range(keep_from(day.day as int, retain_days)) && texts(v@) == texts(
                names@,
            ).filter(|n: Seq<char>| is_old(n, keep_from(day.day as int, retain_days))),
            None => !day_in_range(keep_from(day.day as int, retain_days)),
        },
{
    let cutoff = match day.checked_add_days(-(retain_days as i64)) {
        Some(d) => d,
        None => {
            return None;
        },
    };
    let ghost all = texts(names@);
    let ghost pred = |n: Seq<char>| is_old(n, keep_from(day.day as int, retain_days));
    let mut out: Vec<String> = Vec::new();
    let mut i: usize = 0;
    proof {
        reveal(Seq::filter);
        assert(all.subrange(0, 0) =~= Seq::empty());
        assert(texts(out@) =~= Seq::empty());
    }
    while i < names.len()
        invariant
            i <= names@.len(),
            all == texts(names@),
            cutoff.day == keep_from(day.day as int, retain_days),
            pred == (|n: Seq<char>| is_old(n, keep_from(day.day as int, retain_days))),
            texts(out@) == all.subrange(0, i as int).filter(pred),
        decreases names@.len() - i,
    {
        let ghost before = out@;
        proof {
            reveal(Seq::filter);
            let next = all.subrange(0, i as int + 1);
            assert(next.drop_last() =~= all.subrange(0, i as int));
            assert(next.last() == names@[i as int]@);
        }
        if let Some(d) = snapshot_day(names[i].as_str()) {
            if d.day < cutoff.day {
                out.push(names[i].clone());
                assert(texts(out@) =~= texts(before).push(names@[i as int]@));
            }
        }
        i += 1;
    }
    assert(all.subrange(0, all.len() as int) =~= all);
    Some(out)
}

/// Pruning leaves the snapshot of the day itself, and those of the days kept before it.
pub proof fn recent_snapshots_stay(name: Seq<char>, day: int, retain_days: u32)
    requires
        day_of_file(name) matches Some(d) && day - retain_days <= d,
    ensures
        !is_old(name, keep_from(day, retain_days)),
{
}

// ---- focus ----

/// The prefixes that a network announces, if it announces any.
pub open spec fn announced_count(seen: Seq<ObsView>, asn: u32) -> Option<u32> {
    if origin_count(seen, asn) > 0 {
        Some(origin_count(seen, asn) as u32)
    } else {
        None
    }
}

/// The networks that a snapshot is focused on: those asked for and, where the organizations'
/// networks are asked for, those that may be subjects by the prefixes that they announce. A
/// network that announces nothing has no known size: it stays, so that what it announced before
/// is compared.
pub open spec fn focus_set(
    extra: Set<u32>,
    from_org_map: bool,
    orgs: OrgState,
    glue: Set<u32>,
    seen: Seq<ObsView>,
    heuristics: SubjectHeuristics,
) -> Set<u32> {
    Set::new(
        |a: u32|
            extra.contains(a) || (from_org_map && owned(orgs, a) && heuristics.admits(
                a,
                glue,
                announced_count(seen, a),
            )),
    )
}

/// The networks to focus a day's snapshot on.
pub fn daily_focus(
    extra: HashSet<u32>,
    from_org_map: bool,
    org_map: &OrgMap,
    glue: &GlueSet,
    snap: &RibSnapshot,
    heuristics: &SubjectHeuristics,
) -> (r: HashSet<u32>)
    requires
        org_map.wf(),
        snap.wf(),
        counts_fit(snap.seen()),
    ensures
        r@ == focus_set(
            extra@,
            from_org_map,
            org_map.state(),
            glue@,
            snap.seen(),
            *heuristics,
        ),
{
    let mut focus = extra;
    let ghost start = focus@;
    if from_org_map {
        let counts = snap.prefix_count_by_origin();
        let subjects = org_map.subject_asns_by_counts(glue, heuristics, &counts);
        let items = crate::glue::set_items(&subjects);
        let mut i: usize = 0;
        assert(focus@ =~= start.union(items@.subrange(0, 0).to_set()));
        while i < items.len()
            invariant
                i <= items@.len(),
                focus@ == start.union(items@.subrange(0, i as int).to_set()),
            decreases items@.len() - i,
        {
            let ghost done = items@.subrange(0, i as int);
            let ghost next = items@.subrange(0, i as int + 1);
            focus.insert(items[i]);
            proof {
                assert(next =~= done.push(items@[i as int]));
                assert forall|x: u32| next.contains(x) <==> done.contains(x) || x
                    == items@[i as int] by {
                    lemma_seq_contains_after_push(done, items@[i as int], x);
                }
                assert(focus@ =~= start.union(next.to_set()));
            }
            i += 1;
        }
        proof {
            assert(items@.subrange(0, items@.len() as int) =~= items@);
            assert forall|a: u32|
                focus@.contains(a) <==> focus_set(
                    start,
                    from_org_map,
                    org_map.state(),
                    glue@,
                    snap.seen(),
                    *heuristics,
                ).contains(a) by {
                assert(items@.to_set().contains(a) <==> subjects@.contains(a));
                assert(counts@.contains_key(a) <==> origin_count(snap.seen(), a) > 0);
                assert(count_of(counts@, a) == origin_count(snap.seen(), a));
                assert(known_count(counts@, a) == announced_count(snap.seen(), a));
            }
        }
    }
    assert(focus@ =~= focus_set(
        start,
        from_org_map,
        org_map.state(),
        glue@,
        snap.seen(),
        *heuristics,
    ));
    focus
}

/// What a comparison reads of a snapshot that was focused, where there is something to focus on.
pub open spec fn focused_snap(s: Snap, focus: Set<u32>) -> Snap {
    if focus.len() == 0 {
        s
    } else {
        let at = focus_positions(s.seen, focus, s.seen.len() as int);
        Snap {
            as_of: s.as_of,
            keys: at.map_values(|i: int| s.keys[i]),
            seen: at.map_values(|i: int| s.seen[i]),
            obs: focused(s.obs, focus),
        }
    }
}

/// Focuses a snapshot, where there is something to focus on; tells whether there was.
pub fn focus_snapshot(snap: &mut RibSnapshot, focus: &HashSet<u32>) -> (r: bool)
    requires
        old(snap).wf(),
    ensures
        final(snap).wf(),
        snap_of(*final(snap)) == focused_snap(snap_of(*old(snap)), focus@),
        final(snap).ts_start == old(snap).ts_start,
        final(snap).collector == old(snap).collector,
        final(snap).source == old(snap).source,
        r == (focus@.len() > 0),
        r ==> final(snap).obs() == focused(old(snap).obs(), focus@),
        !r ==> *final(snap) == *old(snap),
{
    if focus.len() == 0 {
        return false;
    }
    filter_snapshot_focus(snap, focus);
    true
}

proof fn lemma_focus_positions(seen: Seq<ObsView>, focus: Set<u32>, n: int)
    requires
        0 <= n <= seen.len(),
    ensures
        focus_positions(seen, focus, n).len() <= n,
        forall|k: int|
            0 <= k < focus_positions(seen, focus, n).len() ==> 0 <= (#[trigger] focus_positions(
                seen,
                focus,
                n,
            )[k]) < n && focus.contains(seen[focus_positions(seen, focus, n)[k]].origin_asn),
    decreases n,
{
    if n > 0 {
        lemma_focus_positions(seen, focus, n - 1);
    }
}

proof fn lemma_all_in_focus(seen: Seq<ObsView>, focus: Set<u32>, n: int)
    requires
        0 <= n <= seen.len(),
        forall|i: int| 0 <= i < seen.len() ==> focus.contains((#[trigger] seen[i]).origin_asn),
    ensures
        focus_positions(seen, focus, n) == Seq::new(n as nat, |i: int| i),
    decreases n,
{
    if n > 0 {
        lemma_all_in_focus(seen, focus, n - 1);
        assert(focus.contains(seen[n - 1].origin_asn));
    }
    assert(focus_positions(seen, focus, n) =~= Seq::new(n as nat, |i: int| i));
}

/// Focusing a second time changes nothing.
pub proof fn focusing_twice_is_focusing_once(s: Snap, focus: Set<u32>)
    requires
        s.keys.len() == s.seen.len(),
    ensures
        focused_snap(focused_snap(s, focus), focus) == focused_snap(s, focus),
{
    if focus.len() != 0 {
        let once = focused_snap(s, focus);
        let twice = focused_snap(once, focus);
        lemma_focus_positions(s.seen, focus, s.seen.len() as int);
        lemma_all_in_focus(once.seen, focus, once.seen.len() as int);
        assert(twice.keys =~= once.keys);
        assert(twice.seen =~= once.seen);
        assert(twice.obs =~= once.obs);
    }
}

proof fn lemma_focused_count(seen: Seq<ObsView>, focus: Set<u32>, n: int, o: u32)
    requires
        0 <= n <= seen.len(),
    ensures
        origin_count(focus_positions(seen, focus, n).map_values(|i: int| seen[i]), o)
            <= origin_count(seen.subrange(0, n), o),
    decreases n,
{
    let at = focus_positions(seen, focus, n);
    if n > 0 {
        lemma_focused_count(seen, focus, n - 1, o);
        let head = focus_positions(seen, focus, n - 1);
        assert(seen.subrange(0, n).drop_last() =~= seen.subrange(0, n - 1));
        assert(seen.subrange(0, n).last() == seen[n - 1]);
        if focus.contains(seen[n - 1].origin_asn) {
            let all = at.map_values(|i: int| seen[i]);
            assert(all.drop_last() =~= head.map_values(|i: int| seen[i]));
            assert(all.last() == seen[n - 1]);
        }
    }
}

proof fn lemma_focused_counts_fit(s: Snap, focus: Set<u32>)
    requires
        counts_fit(s.seen),
    ensures
        counts_fit(focused_snap(s, focus).seen),
{
    if focus.len() != 0 {
        assert forall|o: u32| #[trigger]
            origin_count(focused_snap(s, focus).seen, o) <= u32::MAX by {
            lemma_focused_count(s.seen, focus, s.seen.len() as int, o);
            assert(s.seen.subrange(0, s.seen.len() as int) =~= s.seen);
            assert(origin_count(s.seen, o) <= u32::MAX);
        }
    }
}

/// A network of an organization that may be a subject whatever its size is in focus on a day on
/// which it announces nothing. A prefix that went from it to another network in focus is compared
/// as it was: both observations stay.
pub proof fn transfers_stay_in_focus(
    before: Snap,
    after: Snap,
    extra: Set<u32>,
    orgs: OrgState,
    glue: Set<u32>,
    heuristics: SubjectHeuristics,
    prefix: Seq<char>,
)
    requires
        before.obs.contains_key(prefix),
        after.obs.contains_key(prefix),
        owned(orgs, before.obs[prefix].origin_asn),
        heuristics.admits(before.obs[prefix].origin_asn, glue, None),
        origin_count(after.seen, before.obs[prefix].origin_asn) == 0,
        focus_set(extra, true, orgs, glue, after.seen, heuristics).contains(
            after.obs[prefix].origin_asn,
        ),
    ensures
        ({
            let focus = focus_set(extra, true, orgs, glue, after.seen, heuristics);
            &&& focus.contains(before.obs[prefix].origin_asn)
            &&& focused_snap(before, focus).obs.contains_key(prefix)
            &&& focused_snap(before, focus).obs[prefix] == before.obs[prefix]
            &&& focused_snap(after, focus).obs.contains_key(prefix)
            &&& focused_snap(after, focus).obs[prefix] == after.obs[prefix]
        }),
{
}

// ---- the day ----

/// How a day is processed.
#[derive(Debug)]
pub struct DailyOptions {
    /// Keep the events of all kinds.
    pub full: bool,
    /// Keep a pair's moves where it moves at least this many prefixes.
    pub min_prefix_moves: u32,
    /// Keep pairs that are no contact between two organizations.
    pub no_clean: bool,
    /// How many days a pair is remembered.
    pub pair_state_days: i64,
    pub diff: DiffConfig,
}

/// What came of a day, step by step.
#[derive(Debug)]
pub struct DailyOutcome {
    pub events: Vec<MaEvent>,
    pub sparse: Vec<MaEvent>,
    pub features: Vec<AsnPairFeature>,
    pub cleaned: Vec<AsnPairFeature>,
    pub dropped: Vec<(AsnPairFeature, CleanDropReason)>,
    pub signals: Vec<SignalEnvelope>,
}

/// The sparse filter of a day.
pub open spec fn daily_sparse(min_prefix_moves: u32) -> SparseConfig {
    SparseConfig {
        min_prefix_moves_per_pair_day: min_prefix_moves,
        keep_new_adj: false,
        keep_upstream_converge: false,
        keep_footprint_step: false,
    }
}

/// The events of a day that count.
pub open spec fn counted_events(events: Seq<EventView>, full: bool, min_prefix_moves: u32) -> Seq<
    EventView,
> {
    if full {
        events
    } else {
        sparse(events, daily_sparse(min_prefix_moves))
    }
}

/// A signal is of contact between two organizations.
pub open spec fn is_contact_signal(s: SignalView, glue: Set<u32>) -> bool {
    &&& !glue.contains(s.asn_a) && !glue.contains(s.asn_b)
    &&& !leasing_asns().contains(s.asn_a) && !leasing_asns().contains(s.asn_b)
    &&& attributed(s.org_a) && attributed(s.org_b)
    &&& s.org_a != s.org_b
    &&& !share_registrable(s.domains_a, s.domains_b)
}

fn copy_events(events: &[MaEvent]) -> (r: Vec<MaEvent>)
    ensures
        event_views(r@) == event_views(events@),
{
    let mut out: Vec<MaEvent> = Vec::new();
    let mut i: usize = 0;
    while i < events.len()
        invariant
            i <= events@.len(),
            out@.len() == i,
            forall|j: int| 0 <= j < i ==> (#[trigger] out@[j])@ == events@[j]@,
        decreases events@.len() - i,
    {
        out.push(events[i].copy());
        i += 1;
    }
    assert(event_views(out@) =~= event_views(events@));
    out
}

fn copy_features(features: &[AsnPairFeature]) -> (r: Vec<AsnPairFeature>)
    ensures
        feature_views(r@) == feature_views(features@),
{
    let mut out: Vec<AsnPairFeature> = Vec::new();
    let mut i: usize = 0;
    while i < features.len()
        invariant
            i <= features@.len(),
            out@.len() == i,
            forall|j: int| 0 <= j < i ==> (#[trigger] out@[j])@ == features@[j]@,
        decreases features@.len() - i,
    {
        out.push(features[i].copy());
        i += 1;
    }
    assert(feature_views(out@) =~= feature_views(features@));
    out
}

/// What comes of comparing two snapshots: the events, those that count, the features of their
/// pairs, the pairs that are contact between organizations, the state of pairs with those merged
/// into it, and their signals.
pub open spec fn is_day_outcome(
    before: Snap,
    after: Snap,
    orgs: OrgState,
    glue: Set<u32>,
    opts: DailyOptions,
    known: Map<Seq<char>, EntryView>,
    state: PairStateStore,
    r: DailyOutcome,
) -> bool {
    &&& event_views(r.events@) == diff_events(before, after, orgs, glue, opts.diff)
    &&& event_views(r.sparse@) == counted_events(
        event_views(r.events@),
        opts.full,
        opts.min_prefix_moves,
    )
    &&& exists|u: Seq<AsnPairFeature>|
        feature_views(u) == pair_features(event_views(r.sparse@)) && r.features@
            == #[trigger] ranked(u)
    &&& in_rank_order(r.features@)
    &&& opts.no_clean ==> feature_views(r.cleaned@) == feature_views(r.features@)
        && r.dropped@.len() == 0
    &&& !opts.no_clean ==> feature_views(r.cleaned@) == kept_features(
        feature_views(r.features@),
        leasing_asns().to_set(),
        glue,
        orgs,
    ) && dropped_views(r.dropped@) == dropped_features(
        feature_views(r.features@),
        leasing_asns().to_set(),
        glue,
        orgs,
    )
    &&& state.updated_at == Some(after.as_of)
    &&& state.entries() == pruned(
        merged(known, feature_views(r.cleaned@)),
        cutoff_of(after.as_of, opts.pair_state_days),
    )
    &&& exists|u: Seq<SignalEnvelope>|
        signal_views(u) == signals_of(
            feature_views(r.cleaned@),
            orgs,
            after.as_of,
            before.as_of,
            Some(state.entries()),
        ) && r.signals@ == #[trigger] ranked(u)
    &&& in_rank_order(r.signals@)
    &&& r.signals@.len() == r.cleaned@.len()
    &&& !opts.no_clean ==> forall|i: int|
        0 <= i < r.signals@.len() ==> is_contact_signal((#[trigger] r.signals@[i])@, glue)
}

/// Compares a day's snapshot with the one before it, and makes signals of what happened: events,
/// the events that count, features of pairs, the pairs that are contact between organizations,
/// the state of pairs over the days, and signals with that state.
pub fn daily_signals(
    before: &RibSnapshot,
    after: &RibSnapshot,
    org_map: &OrgMap,
    glue: &GlueSet,
    opts: &DailyOptions,
    state: &mut PairStateStore,
) -> (r: DailyOutcome)
    requires
        before.wf(),
        after.wf(),
        counts_fit(before.seen()),
        counts_fit(after.seen()),
        org_map.wf(),
        old(state).wf(),
        days_before_in_range(after.as_of, opts.pair_state_days as int),
    ensures
        final(state).wf(),
        is_day_outcome(
            snap_of(*before),
            snap_of(*after),
            org_map.state(),
            glue@,
            *opts,
            old(state).entries(),
            *final(state),
            r,
        ),
{
    let events = diff_snapshots(before, after, org_map, glue, &opts.diff);
    let counted = if opts.full {
        copy_events(&events)
    } else {
        let cfg = SparseConfig {
            min_prefix_moves_per_pair_day: opts.min_prefix_moves,
            keep_new_adj: false,
            keep_upstream_converge: false,
            keep_footprint_step: false,
        };
        filter_sparse_events(&events, &cfg)
    };
    let features = aggregate_pair_features(&counted);
    let none: [u32; 0] = [];
    let leasing = leasing_set(&none);
    assert(leasing@ =~= leasing_asns().to_set());
    let (cleaned, dropped) = if opts.no_clean {
        let d: Vec<(AsnPairFeature, CleanDropReason)> = Vec::new();
        (copy_features(&features), d)
    } else {
        let ctx = CleanContext { leasing: &leasing, glue, org_map };
        filter_clean_features(&features, &ctx)
    };
    state.merge_day(&cleaned, after.as_of, opts.pair_state_days);
    let signals = build_signals(&cleaned, org_map, after.as_of, before.as_of, Some(&*state));
    proof {
        let fs = feature_views(cleaned@);
        let st = org_map.state();
        let u = choose|u: Seq<SignalEnvelope>|
            signal_views(u) == signals_of(
                fs,
                st,
                after.as_of,
                before.as_of,
                Some(state.entries()),
            ) && signals@ == #[trigger] ranked(u);
        ranked_is_ordered_permutation(u);
        assert(signal_views(u).len() == fs.len());
        if !opts.no_clean {
            let all = feature_views(features@);
            crate::clean::cleaning_parts_features(all, leasing@, glue@, st);
            assert forall|i: int| 0 <= i < signals@.len() implies is_contact_signal(
                (#[trigger] signals@[i])@,
                glue@,
            ) by {
                assert(signals@.contains(signals@[i]));
                ranked_contains(u, signals@[i]);
                let k = choose|k: int| 0 <= k < u.len() && u[k] == signals@[i];
                assert(signal_views(u)[k] == u[k]@);
                let f = fs[k];
                assert(fs.contains(f));
                assert(kept_features(all, leasing@, glue@, st).contains(f));
                crate::clean::kept_pairs_are_contacts(f, leasing@, glue@, st);
                assert(leasing_asns().to_set().contains(f.asn_lo) <==> leasing_asns().contains(
                    f.asn_lo,
                ));
                assert(leasing_asns().to_set().contains(f.asn_hi) <==> leasing_asns().contains(
                    f.asn_hi,
                ));
            }
        }
    }
    DailyOutcome { events, sparse: counted, features, cleaned, dropped, signals }
}

/// What a day came to.
#[derive(Debug)]
pub enum DayOutcome {
    /// There was no snapshot to compare with.
    SnapshotOnly,
    /// The snapshots were compared.
    Compared { prior_as_of: Instant, outcome: DailyOutcome },
}

/// Runs a day: focuses its snapshot and the one before it, where there is something to focus on,
/// and compares the two. Without a snapshot before it the day is only focused, and what is known
/// of pairs stays.
pub fn run_day(
    before: Option<&mut RibSnapshot>,
    after: &mut RibSnapshot,
    focus: &HashSet<u32>,
    org_map: &OrgMap,
    glue: &GlueSet,
    opts: &DailyOptions,
    state: &mut PairStateStore,
) -> (r: DayOutcome)
    requires
        before matches Some(b) ==> b.wf() && counts_fit(b.seen()) && days_before_in_range(
            old(after).as_of,
            opts.pair_state_days as int,
        ),
        old(after).wf(),
        counts_fit(old(after).seen()),
        org_map.wf(),
        old(state).wf(),
    ensures
        final(after).wf(),
        snap_of(*final(after)) == focused_snap(snap_of(*old(after)), focus@),
        final(after).ts_start == old(after).ts_start,
        final(after).collector == old(after).collector,
        final(after).source == old(after).source,
        before matches Some(b) ==> final(b).wf() && snap_of(*final(b)) == focused_snap(
            snap_of(*b),
            focus@,
        ) && final(b).ts_start == b.ts_start && final(b).collector == b.collector
            && final(b).source == b.source,
        final(state).wf(),
        before is None <==> r is SnapshotOnly,
        before is None ==> *final(state) == *old(state),
        before matches Some(b) ==> (r matches DayOutcome::Compared { prior_as_of, outcome }
            && prior_as_of == b.as_of && is_day_outcome(
            focused_snap(snap_of(*b), focus@),
            focused_snap(snap_of(*old(after)), focus@),
            org_map.state(),
            glue@,
            *opts,
            old(state).entries(),
            *final(state),
            outcome,
        )),
{
    proof {
        lemma_focused_counts_fit(snap_of(*after), focus@);
    }
    focus_snapshot(after, focus);
    match before {
        None => DayOutcome::SnapshotOnly,
        Some(b) => {
            proof {
                lemma_focused_counts_fit(snap_of(*b), focus@);
            }
            focus_snapshot(b, focus);
            let outcome = daily_signals(b, after, org_map, glue, opts, state);
            DayOutcome::Compared { prior_as_of: b.as_of, outcome }
        },
    }
}

/// A day's signals without the events of all kinds are of moves alone, of at least the least
/// number of prefixes.
pub proof fn daily_signals_are_moves(
    events: Seq<EventView>,
    min_prefix_moves: u32,
    p: AsnPair,
    known: Option<EntryView>,
    orgs: OrgState,
    as_of: Instant,
    prior_as_of: Instant,
)
    requires
        events.len() <= u32::MAX,
        contact_pairs(counted_events(events, false, min_prefix_moves)).contains(p),
    ensures
        ({
            let f = feature_of(counted_events(events, false, min_prefix_moves), p);
            let s = signal_of(f, known, orgs, as_of, prior_as_of);
            &&& s.prefixes_moved >= min_prefix_moves
            &&& s.event_kinds == seq!["prefix_move"@]
        }),
{
    sparse_pairs_move_enough(events, daily_sparse(min_prefix_moves), p);
    let f = feature_of(counted_events(events, false, min_prefix_moves), p);
    assert(feature_kinds(f) =~= seq!["prefix_move"@]);
}

/// Two networks are of different organizations that have nothing to do with each other: neither
/// network is glue or leases out addresses, and the organizations share no registrable domain.
pub open spec fn is_contact_pair(orgs: OrgState, glue: Set<u32>, p: AsnPair) -> bool {
    &&& !glue.contains(p.0) && !glue.contains(p.1)
    &&& !leasing_asns().contains(p.0) && !leasing_asns().contains(p.1)
    &&& attributed(org_id_of(orgs, p.0)) && attributed(org_id_of(orgs, p.1))
    &&& org_id_of(orgs, p.0) != org_id_of(orgs, p.1)
    &&& !share_registrable(domains_of(orgs, p.0), domains_of(orgs, p.1))
}

/// The prefix at a position of the later snapshot went from one network of a pair to the other.
pub open spec fn moved_between(before: Snap, after: Snap, p: AsnPair, i: int) -> bool {
    &&& 0 <= i < after.keys.len()
    &&& before.obs.contains_key(after.keys[i])
    &&& before.obs[after.keys[i]].origin_asn != after.seen[i].origin_asn
    &&& pair_of(before.obs[after.keys[i]].origin_asn, after.seen[i].origin_asn) == p
}

proof fn lemma_moves_count(
    before: Snap,
    after: Snap,
    orgs: OrgState,
    glue: Set<u32>,
    opts: DailyOptions,
    p: AsnPair,
    at: Seq<int>,
)
    requires
        after.keys.no_duplicates(),
        at.no_duplicates(),
        at.len() > 0,
        at.len() >= opts.min_prefix_moves,
        forall|j: int| 0 <= j < at.len() ==> moved_between(before, after, p, #[trigger] at[j]),
        !glue.contains(p.0) && !glue.contains(p.1),
        subjects_of(orgs, glue, opts.diff.heuristics).contains(p.0) || subjects_of(
            orgs,
            glue,
            opts.diff.heuristics,
        ).contains(p.1),
    ensures
        ({
            let events = diff_events(before, after, orgs, glue, opts.diff);
            contact_pairs(counted_events(events, opts.full, opts.min_prefix_moves)).contains(p)
        }),
{
    let events = diff_events(before, after, orgs, glue, opts.diff);
    let counted = counted_events(events, opts.full, opts.min_prefix_moves);
    let k = (p, instant_day(after.as_of) as i64);
    let prefixes = at.map_values(|i: int| after.keys[i]);
    assert forall|j: int| 0 <= j < prefixes.len() implies exists|e: EventView| #[trigger]
        events.contains(e) && move_key(e) == Some(k) && e.prefix == Some(#[trigger] prefixes[j]) by {
        assert(moved_between(before, after, p, at[j]));
        moves_are_reported(before, after, orgs, glue, opts.diff, at[j]);
        let e = choose|e: EventView| #[trigger]
            events.contains(e) && e.kind == MaEventKind::PrefixMove && e.prefix == Some(
                after.keys[at[j]],
            ) && e.asn_a == Some(before.obs[after.keys[at[j]]].origin_asn) && e.asn_b == Some(
                after.seen[at[j]].origin_asn,
            );
        events_are_attributed(before, after, orgs, glue, opts.diff, e);
        assert(events.contains(e) && move_key(e) == Some(k) && e.prefix == Some(prefixes[j]));
    }
    assert forall|a: int, b: int|
        0 <= a < prefixes.len() && 0 <= b < prefixes.len() && a != b implies prefixes[a]
        != prefixes[b] by {
        assert(moved_between(before, after, p, at[a]) && moved_between(before, after, p, at[b]));
        assert(at[a] != at[b]);
    }
    named_prefixes_count(events, k, prefixes);
    let e = choose|e: EventView| #[trigger]
        events.contains(e) && move_key(e) == Some(k) && e.prefix == Some(prefixes[0]);
    assert(exists|e: EventView| #[trigger]
        events.contains(e) && move_key(e) == Some(k) && e.prefix == Some(prefixes[0]));
    let i = choose|i: int| 0 <= i < events.len() && events[i] == e;
    if !opts.full {
        let cfg = daily_sparse(opts.min_prefix_moves);
        let keep = |e: EventView| is_kept(events, cfg, e);
        assert(keep(events[i]));
        events.lemma_filter_contains(keep, i);
    }
    assert(counted.contains(e));
    let q = choose|q: int| 0 <= q < counted.len() && counted[q] == e;
    assert(moved_between(before, after, p, at[0]));
    assert(is_of_pair(counted[q], p)) by {
        events_are_attributed(before, after, orgs, glue, opts.diff, e);
    }
    span_is_first_to_last(counted, p);
}

/// What a day is for: a pair of networks whose organizations have nothing to do with each other,
/// and of which one at least may be a subject, is signalled where at least the least number of
/// prefixes went from one of them to the other.
pub proof fn enough_moves_are_signalled(
    before: Snap,
    after: Snap,
    orgs: OrgState,
    glue: Set<u32>,
    opts: DailyOptions,
    known: Map<Seq<char>, EntryView>,
    state: PairStateStore,
    r: DailyOutcome,
    p: AsnPair,
    at: Seq<int>,
)
    requires
        is_day_outcome(before, after, orgs, glue, opts, known, state, r),
        after.keys.no_duplicates(),
        at.no_duplicates(),
        at.len() > 0,
        at.len() >= opts.min_prefix_moves,
        forall|j: int| 0 <= j < at.len() ==> moved_between(before, after, p, #[trigger] at[j]),
        is_contact_pair(orgs, glue, p),
        subjects_of(orgs, glue, opts.diff.heuristics).contains(p.0) || subjects_of(
            orgs,
            glue,
            opts.diff.heuristics,
        ).contains(p.1),
    ensures
        exists|i: int|
            0 <= i < r.signals@.len() && (#[trigger] r.signals@[i])@.asn_a == p.0
                && r.signals@[i]@.asn_b == p.1,
{
    let counted = event_views(r.sparse@);
    let events = diff_events(before, after, orgs, glue, opts.diff);
    lemma_moves_count(before, after, orgs, glue, opts, p, at);
    let f = feature_of(counted, p);
    // The feature of the pair.
    let pairs = fresh(Seq::empty(), contact_pairs(counted));
    fresh_items(Seq::empty(), contact_pairs(counted));
    assert(pairs.contains(p));
    let k = choose|k: int| 0 <= k < pairs.len() && pairs[k] == p;
    assert(pair_features(counted)[k] == f);
    let u = choose|u: Seq<AsnPairFeature>|
        feature_views(u) == pair_features(counted) && r.features@ == #[trigger] ranked(u);
    assert(feature_views(u).len() == u.len());
    assert(feature_views(u)[k] == u[k]@);
    assert(u.contains(u[k]));
    ranked_contains(u, u[k]);
    let n = choose|n: int| 0 <= n < r.features@.len() && r.features@[n] == u[k];
    let all = feature_views(r.features@);
    assert(all[n] == f);
    // It is kept.
    assert forall|i: int| 0 <= i < counted.len() && is_of_pair(#[trigger] counted[i], p) implies (
    if counted[i].asn_a == Some(p.0) {
        counted[i].org_a == org_id_of(orgs, p.0) && counted[i].org_b == org_id_of(orgs, p.1)
    } else {
        counted[i].org_a == org_id_of(orgs, p.1) && counted[i].org_b == org_id_of(orgs, p.0)
    }) by {
        assert(counted.contains(counted[i]));
        if !opts.full {
            let cfg = daily_sparse(opts.min_prefix_moves);
            let keep = |e: EventView| is_kept(events, cfg, e);
            events.lemma_filter_contains_rev(keep, counted[i]);
        }
        events_are_attributed(before, after, orgs, glue, opts.diff, counted[i]);
    }
    features_keep_organizations(counted, p, org_id_of(orgs, p.0), org_id_of(orgs, p.1));
    let leasing = leasing_asns().to_set();
    assert(leasing.contains(p.0) <==> leasing_asns().contains(p.0));
    assert(leasing.contains(p.1) <==> leasing_asns().contains(p.1));
    assert(drop_reason(f, leasing, glue, orgs) is None);
    assert(all.contains(f));
    crate::clean::cleaning_parts_features(all, leasing, glue, orgs);
    let fs = feature_views(r.cleaned@);
    assert(fs.contains(f));
    let m = choose|m: int| 0 <= m < fs.len() && fs[m] == f;
    // It has a signal.
    let w = choose|w: Seq<SignalEnvelope>|
        signal_views(w) == signals_of(
            fs,
            orgs,
            after.as_of,
            before.as_of,
            Some(state.entries()),
        ) && r.signals@ == #[trigger] ranked(w);
    assert(signal_views(w).len() == w.len());
    assert(signal_views(w)[m] == w[m]@);
    assert(w.contains(w[m]));
    ranked_contains(w, w[m]);
    let z = choose|z: int| 0 <= z < r.signals@.len() && r.signals@[z] == w[m];
    assert(r.signals@[z]@.asn_a == p.0 && r.signals@[z]@.asn_b == p.1);
}

// ---- runs ----

/// The record of a run that failed: it is of the day's snapshot time.
pub fn failed_run(day: Date, started_at: Instant) -> (r: SignalRun)
    requires
        day.wf(),
    ensures
        r.as_of_date@ == date_text(day.day as int),
        r.as_of.secs == day.day * 86_400 + 1_800 && r.as_of.nanos == 0 && r.as_of.wf(),
        r.prior_as_of is None,
        r.started_at == started_at,
        r.status == SignalRunStatus::Error,
        r.signal_count == 0,
{
    SignalRun {
        as_of_date: day.text(),
        as_of: day.at(0, 30, 0),
        prior_as_of: None,
        started_at,
        status: SignalRunStatus::Error,
        signal_count: 0,
    }
}

/// The record of a run that had no snapshot to compare with.
pub fn snapshot_only_run(day: Date, as_of: Instant, started_at: Instant) -> (r: SignalRun)
    requires
        day.wf(),
    ensures
        r.as_of_date@ == date_text(day.day as int),
        r.as_of == as_of,
        r.prior_as_of is None,
        r.started_at == started_at,
        r.status == SignalRunStatus::SnapshotOnly,
        r.signal_count == 0,
{
    SignalRun {
        as_of_date: day.text(),
        as_of,
        prior_as_of: None,
        started_at,
        status: SignalRunStatus::SnapshotOnly,
        signal_count: 0,
    }
}

/// The record of a run that made signals.
pub fn complete_run(
    day: Date,
    as_of: Instant,
    prior_as_of: Instant,
    started_at: Instant,
    signals: &[SignalEnvelope],
) -> (r: SignalRun)
    requires
        day.wf(),
        signals@.len() <= i64::MAX,
    ensures
        r.as_of_date@ == date_text(day.day as int),
        r.as_of == as_of,
        r.prior_as_of == Some(prior_as_of),
        r.started_at == started_at,
        r.status == SignalRunStatus::Complete,
        r.signal_count == signals@.len(),
{
    SignalRun {
        as_of_date: day.text(),
        as_of,
        prior_as_of: Some(prior_as_of),
        started_at,
        status: SignalRunStatus::Complete,
        signal_count: signals.len() as i64,
    }
}

/// A file named `rib-`, a day and `.json` holds the snapshot of that day; one with any other
/// beginning or end holds none.
pub proof fn files_hold_the_days_they_name(name: Seq<char>, day: Seq<char>)
    ensures
        name == "rib-"@ + day + ".json"@ ==> day_of_file(name) == parsed_date(day),
        name.len() < 4 || name.subrange(0, 4) != "rib-"@ ==> day_of_file(name) is None,
        name.len() < 9 || name.subrange(name.len() - 5, name.len() as int) != ".json"@
            ==> day_of_file(name) is None,
{
    reveal_strlit("rib-");
    reveal_strlit(".json");
    let p = "rib-"@;
    let e = ".json"@;
    assert(p.len() == 4 && e.len() == 5);
    if name == p + day + e {
        assert(name.subrange(0, 4) =~= p);
        let rest = name.subrange(4, name.len() as int);
        assert(rest =~= day + e);
        assert(rest.subrange(rest.len() - 5, rest.len() as int) =~= e);
        assert(rest.subrange(0, rest.len() - 5) =~= day);
    }
    if day_of_file(name) is Some {
        assert(begins_with(name, p));
        let rest = name.subrange(4, name.len() as int);
        assert(rest.subrange(rest.len() - 5, rest.len() as int) =~= name.subrange(
            name.len() - 5,
            name.len() as int,
        ));
    }
}

/// A day is compared with the latest snapshot of an earlier day: no snapshot lies between them.
pub proof fn days_are_compared_with_the_latest_before(names: Seq<Seq<char>>, day: int, i: int)
    requires
        is_latest_prior(names, day, i),
    ensures
        0 <= i < names.len(),
        day_of_file(names[i]) matches Some(d) && d < day && forall|j: int|
            0 <= j < names.len() ==> (day_of_file(#[trigger] names[j]) matches Some(e) ==> e <= d
                || e >= day),
{
    let d = day_of_file(names[i])->0;
    assert forall|j: int| 0 <= j < names.len() implies (day_of_file(#[trigger] names[j])
        matches Some(e) ==> e <= d || e >= day) by {
        if day_of_file(names[j]) is Some && day_of_file(names[j])->0 < day {
            assert(is_prior(names[j], day));
        }
    }
}

/// A snapshot is pruned just where its day lies more than the days to retain before the day of the
/// run; a file that names no day is left alone.
pub proof fn snapshots_are_pruned_by_age(name: Seq<char>, day: int, retain_days: u32)
    ensures
        is_old(name, keep_from(day, retain_days)) <==> (day_of_file(name) matches Some(d) && d
            + retain_days < day),
{
}

/// A network is in focus just where it was asked for, or, where the organizations' networks are
/// asked for, where one of them has it, it is no glue as long as that is left out, and it announces
/// nothing in the snapshot or a number of prefixes within the limits.
pub proof fn focus_is_by_todays_prefixes(
    extra: Set<u32>,
    from_org_map: bool,
    orgs: OrgState,
    glue: Set<u32>,
    seen: Seq<ObsView>,
    h: SubjectHeuristics,
    asn: u32,
)
    requires
        counts_fit(seen),
    ensures
        focus_set(extra, from_org_map, orgs, glue, seen, h).contains(asn) <==> extra.contains(asn)
            || (from_org_map && (exists|id: Seq<char>|
            orgs.records.contains_key(id) && (#[trigger] orgs.records[id]).asns.contains(asn)) && !(
        h.exclude_glue && glue.contains(asn)) && (origin_count(seen, asn) == 0 || ((h.max_prefixes
            is None || origin_count(seen, asn) <= h.max_prefixes->0) && (h.min_prefixes is None
            || origin_count(seen, asn) >= h.min_prefixes->0)))),
{
    assert(origin_count(seen, asn) <= u32::MAX);
}

/// Every signal of a day that is cleaned is of contact: between two networks that are no glue and
/// lease out no addresses, of different organizations that share no registrable domain. Where only
/// moves count, at least the least number of different prefixes moved between them that day.
pub proof fn signals_are_of_contact(
    before: Snap,
    after: Snap,
    orgs: OrgState,
    glue: Set<u32>,
    opts: DailyOptions,
    known: Map<Seq<char>, EntryView>,
    state: PairStateStore,
    r: DailyOutcome,
    i: int,
)
    requires
        is_day_outcome(before, after, orgs, glue, opts, known, state, r),
        0 <= i < r.signals@.len(),
    ensures
        ({
            let s = r.signals@[i]@;
            &&& s.asn_a < s.asn_b
            &&& s.as_of == after.as_of && s.prior_as_of == before.as_of
            &&& !opts.no_clean ==> is_contact_pair(orgs, glue, (s.asn_a, s.asn_b)) && s.org_a
                == org_id_of(orgs, s.asn_a) && s.org_b == org_id_of(orgs, s.asn_b)
            &&& !opts.full ==> prefixes_on_day(
                diff_events(before, after, orgs, glue, opts.diff),
                s.asn_a,
                s.asn_b,
                (after.as_of.secs as int / 86_400) as i64,
            ).len() >= opts.min_prefix_moves
        }),
{
    let s = r.signals@[i]@;
    let events = diff_events(before, after, orgs, glue, opts.diff);
    let counted = event_views(r.sparse@);
    let fs = feature_views(r.cleaned@);
    let all = feature_views(r.features@);
    let leasing = leasing_asns().to_set();
    let w = choose|w: Seq<SignalEnvelope>|
        signal_views(w) == signals_of(
            fs,
            orgs,
            after.as_of,
            before.as_of,
            Some(state.entries()),
        ) && r.signals@ == #[trigger] ranked(w);
    assert(r.signals@.contains(r.signals@[i]));
    ranked_contains(w, r.signals@[i]);
    let m = choose|m: int| 0 <= m < w.len() && w[m] == r.signals@[i];
    assert(signal_views(w)[m] == w[m]@);
    assert(signal_views(w).len() == fs.len());
    let f = fs[m];
    assert(fs.contains(f));
    crate::clean::cleaning_parts_features(all, leasing, glue, orgs);
    assert(all.contains(f));
    let n = choose|n: int| 0 <= n < all.len() && all[n] == f;
    let u = choose|u: Seq<AsnPairFeature>|
        feature_views(u) == pair_features(counted) && r.features@ == #[trigger] ranked(u);
    assert(r.features@.contains(r.features@[n]));
    ranked_contains(u, r.features@[n]);
    let k = choose|k: int| 0 <= k < u.len() && u[k] == r.features@[n];
    assert(feature_views(u)[k] == f);
    assert(feature_views(u).len() == u.len());
    let pairs = fresh(Seq::empty(), contact_pairs(counted));
    fresh_items(Seq::empty(), contact_pairs(counted));
    let p = pairs[k];
    assert(pairs.contains(p));
    assert(f == feature_of(counted, p));
    one_feature_per_pair(counted);
    assert(pair_features(counted)[k].asn_lo < pair_features(counted)[k].asn_hi);
    assert forall|q: int| 0 <= q < counted.len() implies events.contains(
        #[trigger] counted[q],
    ) by {
        assert(counted.contains(counted[q]));
        if !opts.full {
            let cfg = daily_sparse(opts.min_prefix_moves);
            let keep = |e: EventView| is_kept(events, cfg, e);
            events.lemma_filter_contains_rev(keep, counted[q]);
        } else {
            assert(events[q] == counted[q]);
        }
    }
    assert forall|q: int| 0 <= q < counted.len() && is_of_pair(#[trigger] counted[q], p) implies (
    if counted[q].asn_a == Some(p.0) {
        counted[q].org_a == org_id_of(orgs, p.0) && counted[q].org_b == org_id_of(orgs, p.1)
    } else {
        counted[q].org_a == org_id_of(orgs, p.1) && counted[q].org_b == org_id_of(orgs, p.0)
    }) by {
        events_are_attributed(before, after, orgs, glue, opts.diff, counted[q]);
    }
    features_keep_organizations(counted, p, org_id_of(orgs, p.0), org_id_of(orgs, p.1));
    assert(leasing.contains(p.0) <==> leasing_asns().contains(p.0));
    assert(leasing.contains(p.1) <==> leasing_asns().contains(p.1));
    if !opts.no_clean {
        crate::clean::kept_pairs_are_contacts(f, leasing, glue, orgs);
    }
    if !opts.full {
        let cfg = daily_sparse(opts.min_prefix_moves);
        span_is_first_to_last(counted, p);
        let (first, last) = gathered(counted, p).span->0;
        let q = choose|q: int|
            0 <= q < counted.len() && is_of_pair(#[trigger] counted[q], p) && counted[q].timestamp
                == first;
        let e = counted[q];
        assert(counted.contains(e));
        events_are_attributed(before, after, orgs, glue, opts.diff, e);
        sparse_keeps_pairs_that_move_enough(events, cfg, e);
    }
}

/// A day with the events of all kinds counts every event; else adjacencies, convergences and steps
/// do not count.
pub proof fn full_days_count_every_event(events: Seq<EventView>, min: u32, e: EventView)
    ensures
        counted_events(events, true, min) == events,
        counted_events(events, false, min).contains(e) ==> e.kind == MaEventKind::PrefixMove
            && events.contains(e),
{
    sparse_keeps_pairs_that_move_enough(events, daily_sparse(min), e);
    if counted_events(events, false, min).contains(e) {
        let keep = |x: EventView| is_kept(events, daily_sparse(min), x);
        events.lemma_filter_contains_rev(keep, e);
    }
}

/// A snapshot in focus holds just the prefixes with an origin in focus, as they were observed and in
/// their order; without a focus it holds all.
pub proof fn focused_snapshots_hold_origins_in_focus(s: Snap, focus: Set<u32>, k: Seq<char>, i: int)
    requires
        s.keys.len() == s.seen.len(),
    ensures
        ({
            let f = focused_snap(s, focus);
            &&& f.as_of == s.as_of
            &&& f.keys.len() == f.seen.len()
            &&& focus.len() == 0 ==> f == s
            &&& focus.len() != 0 ==> (f.obs.contains_key(k) <==> s.obs.contains_key(k)
                && focus.contains(s.obs[k].origin_asn)) && (f.obs.contains_key(k) ==> f.obs[k]
                == s.obs[k])
            &&& focus.len() != 0 && 0 <= i < f.seen.len() ==> focus.contains(f.seen[i].origin_asn)
                && exists|j: int|
                0 <= j < s.seen.len() && #[trigger] s.seen[j] == f.seen[i] && s.keys[j] == f.keys[i]
            &&& focus.len() != 0 && 0 <= i < s.seen.len() && focus.contains(s.seen[i].origin_asn)
                ==> exists|j: int|
                0 <= j < f.seen.len() && #[trigger] f.seen[j] == s.seen[i] && f.keys[j] == s.keys[i]
        }),
{
    let n = s.seen.len() as int;
    let f = focused_snap(s, focus);
    if focus.len() != 0 {
        let at = focus_positions(s.seen, focus, n);
        lemma_focus_positions(s.seen, focus, n);
        if 0 <= i < f.seen.len() {
            let j = at[i];
            assert(s.seen[j] == f.seen[i] && s.keys[j] == f.keys[i]);
        }
        if 0 <= i < s.seen.len() && focus.contains(s.seen[i].origin_asn) {
            focusing_keeps_the_order(s.seen, focus, n, i);
            let j = choose|j: int| 0 <= j < at.len() && at[j] == i;
            assert(f.seen[j] == s.seen[i] && f.keys[j] == s.keys[i]);
        }
    }
}

/// What is known of pairs after a day is what was known and what the day signals: every pair that
/// is remembered was known or is signalled, and every pair that is signalled is remembered, unless
/// it was last seen before what is retained.
pub proof fn days_remember_what_they_signal(
    before: Snap,
    after: Snap,
    orgs: OrgState,
    glue: Set<u32>,
    opts: DailyOptions,
    known: Map<Seq<char>, EntryView>,
    state: PairStateStore,
    r: DailyOutcome,
    k: Seq<char>,
)
    requires
        is_day_outcome(before, after, orgs, glue, opts, known, state, r),
    ensures
        state.updated_at == Some(after.as_of),
        r.signals@.len() == r.cleaned@.len(),
        r.cleaned@.len() + r.dropped@.len() == r.features@.len(),
        state.entries().contains_key(k) ==> known.contains_key(k) || exists|i: int|
            0 <= i < r.signals@.len() && pair_text(
                ((#[trigger] r.signals@[i]).asn_a, r.signals@[i].asn_b),
            ) == k,
        forall|i: int|
            0 <= i < r.signals@.len() ==> {
                let p = pair_text(((#[trigger] r.signals@[i]).asn_a, r.signals@[i].asn_b));
                state.entries().contains_key(p) || exists|e: EntryView|
                    merged(known, feature_views(r.cleaned@))[p] == e && earlier(
                        #[trigger] e.last_seen,
                        cutoff_of(after.as_of, opts.pair_state_days),
                    )
            },
{
    let fs = feature_views(r.cleaned@);
    let all = feature_views(r.features@);
    let leasing = leasing_asns().to_set();
    let w = choose|w: Seq<SignalEnvelope>|
        signal_views(w) == signals_of(
            fs,
            orgs,
            after.as_of,
            before.as_of,
            Some(state.entries()),
        ) && r.signals@ == #[trigger] ranked(w);
    ranked_is_ordered_permutation(w);
    assert(signal_views(w).len() == fs.len());
    crate::clean::cleaning_parts_features(all, leasing, glue, orgs);
    assert(feature_views(r.cleaned@).len() == r.cleaned@.len());
    assert(dropped_views(r.dropped@).len() == r.dropped@.len());
    assert(all.len() == r.features@.len());
    if state.entries().contains_key(k) && !known.contains_key(k) {
        assert(merged(known, fs).contains_key(k));
        let m = merged_pairs_come_of_features(known, fs, k);
        assert(signal_views(w)[m] == w[m]@);
        assert(w.contains(w[m]));
        ranked_contains(w, w[m]);
        let z = choose|z: int| 0 <= z < r.signals@.len() && r.signals@[z] == w[m];
        assert(pair_text((r.signals@[z].asn_a, r.signals@[z].asn_b)) == k);
    }
    assert forall|i: int| 0 <= i < r.signals@.len() implies {
        let p = pair_text(((#[trigger] r.signals@[i]).asn_a, r.signals@[i].asn_b));
        state.entries().contains_key(p) || exists|e: EntryView|
            merged(known, feature_views(r.cleaned@))[p] == e && earlier(
                #[trigger] e.last_seen,
                cutoff_of(after.as_of, opts.pair_state_days),
            )
    } by {
        assert(r.signals@.contains(r.signals@[i]));
        ranked_contains(w, r.signals@[i]);
        let m = choose|m: int| 0 <= m < w.len() && w[m] == r.signals@[i];
        assert(signal_views(w)[m] == w[m]@);
        let p = pair_text((r.signals@[i].asn_a, r.signals@[i].asn_b));
        assert(p == pair_text((fs[m].asn_lo, fs[m].asn_hi)));
        merged_pairs_are_known(known, fs, m);
        if !state.entries().contains_key(p) {
            let e = merged(known, fs)[p];
            assert(earlier(e.last_seen, cutoff_of(after.as_of, opts.pair_state_days)));
        }
    }
}

} // verus!
