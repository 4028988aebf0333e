//! The days that a backtest samples, and how far contact leads an announcement.

use crate::diff::{diff_events, diff_snapshots, fresh, fresh_items, snap_of, DiffConfig, Snap};
use crate::eval::{
    case_views, eval_cases, eval_cases_against_features, event_results, feature_results, hits_in,
    in_window, names_pair, passed_in, result_views, score_backtest, BacktestEvalReport, CaseView,
    EvalCase, ResultView,
};
use crate::events::{
    canon_pair, event_views, kind_text, pair_of, AsnPair, EventView, MaEvent, MaEventKind,
};
use crate::features::{
    aggregate_pair_features, contact_pairs, feature_views, pair_features, span_is_first_to_last,
    AsnPairFeature, FeatureView,
};
use crate::glue::GlueSet;
use crate::order::{ranked, ranked_contains};
use crate::orgs::{copy_opt_text, opt_text, OrgMap, OrgState};
use crate::snapshot::{counts_fit, RibSnapshot};
use crate::text::{
    decimal, decimal_is_digits, is_digit, number_in, parse_u32, parse_undoes_format, same_text, split_char, split_on, strip_prefix, texts, trim, trimmed,
    without_prefix, words, words_of,
};
use crate::time::{
    day_in_range, earlier, instant_day, parse_ymd, parsed_date, rfc3339_text, to_rfc3339, Date,
    Instant,
};
use std::collections::HashSet;
use vstd::prelude::*;
use vstd::seq_lib::lemma_seq_contains_after_push;

verus! {

broadcast use vstd::std_specs::hash::group_hash_axioms;

// ---- the days of a backtest ----

/// What keeps a backtest from being planned.
#[derive(Clone, Copy, Debug, PartialEq, Eq, Structural)]
pub enum PlanError {
    /// The window holds no day.
    NoDays,
    /// The step between samples is no day.
    NoStep,
    /// The calendar does not hold the last day of the window.
    DateOverflow,
}

/// How many samples a step gives in a window, its first day included.
pub open spec fn sample_count(days: int, step: int) -> int {
    (days + step - 1) / step
}

/// The sampled days: every `step`-th day of the window, and its last day.
pub open spec fn samples(start: int, days: int, step: int) -> Seq<int> {
    let regular = Seq::new(sample_count(days, step) as nat, |k: int| start + k * step);
    if regular.len() > 0 && regular.last() == start + days - 1 {
        regular
    } else {
        regular.push(start + days - 1)
    }
}

/// The day numbers of dates.
pub open spec fn day_numbers(v: Seq<Date>) -> Seq<int> {
    Seq::new(v.len(), |i: int| v[i].day as int)
}

/// Plans the days that a backtest samples.
pub fn sample_days(start: Date, days: u32, step_days: u32) -> (r: Result<Vec<Date>, PlanError>)
    requires
        start.wf(),
    ensures
        match r {
            Ok(v) => {
                &&& days > 0 && step_days > 0
                &&& day_in_range(start.day + days - 1)
                &&& day_numbers(v@) == samples(start.day as int, days as int, step_days as int)
                &&& forall|i: int| 0 <= i < v@.len() ==> (#[trigger] v@[i]).wf()
            },
            Err(PlanError::NoDays) => days == 0,
            Err(PlanError::NoStep) => days > 0 && step_days == 0,
            Err(PlanError::DateOverflow) => days > 0 && step_days > 0 && !day_in_range(
                start.day + days - 1,
            ),
        },
{
    if days == 0 {
        return Err(PlanError::NoDays);
    }
    if step_days == 0 {
        return Err(PlanError::NoStep);
    }
    let last = match start.checked_add_days(days as i64 - 1) {
        Some(d) => d,
        None => {
            return Err(PlanError::DateOverflow);
        },
    };
    let ghost s = step_days as int;
    let ghost n = sample_count(days as int, s);
    let mut out: Vec<Date> = Vec::new();
    let mut offset: i64 = 0;
    let mut k: u64 = 0;
    proof {
        assert(day_numbers(out@) =~= Seq::new(0nat, |j: int| start.day + j * s));
        assert(n >= 1) by (nonlinear_arith)
            requires
                n == (days + s - 1) / s,
                days >= 1,
                s >= 1,
        ;
    }
    while offset < days as i64
        invariant
            start.wf(),
            days > 0,
            step_days > 0,
            s == step_days,
            n == sample_count(days as int, s),
            day_in_range(start.day + days - 1),
            offset == k * s,
            0 <= offset <= days + s,
            k <= n,
            offset < days ==> k < n,
            offset >= days ==> k == n,
            day_numbers(out@) == Seq::new(k as nat, |j: int| start.day + j * s),
            forall|i: int| 0 <= i < out@.len() ==> (#[trigger] out@[i]).wf(),
        decreases days + step_days - offset,
    {
        let ghost before = out@;
        match start.checked_add_days(offset) {
            Some(d) => {
                out.push(d);
            },
            None => {
                assert(false);
            },
        }
        offset = offset + step_days as i64;
        proof {
            lemma_sample_bounds(days as int, s, k as int);
            assert((k + 1) * s == k * s + s) by (nonlinear_arith);
            assert(day_numbers(out@) =~= day_numbers(before).push(start.day + k * s));
            assert(Seq::new((k + 1) as nat, |j: int| start.day + j * s) =~= Seq::new(
                k as nat,
                |j: int| start.day + j * s,
            ).push(start.day + k * s));
        }
        k = k + 1;
    }
    let ghost regular = Seq::new(n as nat, |j: int| start.day + j * s);
    assert(day_numbers(out@) == regular);
    assert(out@.len() == regular.len());
    assert(regular.last() == out@[out@.len() - 1].day);
    let m: usize = out.len();
    if out[m - 1].day != last.day {
        let ghost before = out@;
        out.push(last);
        assert(day_numbers(out@) =~= day_numbers(before).push(last.day as int));
    }
    Ok(out)
}

proof fn lemma_sample_bounds(days: int, s: int, k: int)
    requires
        days >= 1,
        s >= 1,
        0 <= k < sample_count(days, s),
    ensures
        k * s < days,
        (k + 1) * s < days ==> k + 1 < sample_count(days, s),
        (k + 1) * s >= days ==> k + 1 == sample_count(days, s),
        sample_count(days, s) <= days,
{
    let n = sample_count(days, s);
    let r = (days + s - 1) % s;
    assert(days + s - 1 == s * n + r && 0 <= r < s) by {
        vstd::arithmetic::div_mod::lemma_fundamental_div_mod(days + s - 1, s);
        vstd::arithmetic::div_mod::lemma_mod_bound(days + s - 1, s);
    }
    assert(s * n >= days && s * (n - 1) < days) by (nonlinear_arith)
        requires
            days + s - 1 == s * n + r,
            0 <= r < s,
    ;
    assert(k * s <= (n - 1) * s) by (nonlinear_arith)
        requires
            k <= n - 1,
            s >= 1,
    ;
    assert((n - 1) * s == s * (n - 1)) by (nonlinear_arith);
    if (k + 1) * s < days {
        assert(k + 1 < n) by (nonlinear_arith)
            requires
                (k + 1) * s < days,
                s * n >= days,
                s >= 1,
        ;
    } else {
        assert(k + 1 >= n) by (nonlinear_arith)
            requires
                (k + 1) * s >= days,
                s * (n - 1) < days,
                s >= 1,
        ;
    }
    assert(n <= days) by (nonlinear_arith)
        requires
            s * (n - 1) < days,
            s >= 1,
            n >= 1,
    ;
}

/// The sampled days begin with the first day of the window and end with its last, rise, and lie
/// no more than a step apart.
pub proof fn samples_span_the_window(start: int, days: int, step: int)
    requires
        days >= 1,
        step >= 1,
    ensures
        ({
            let s = samples(start, days, step);
            &&& s.len() >= 1
            &&& s[0] == start
            &&& s.last() == start + days - 1
            &&& forall|i: int|
                #![trigger s[i]]
                0 <= i < s.len() - 1 ==> s[i] < s[i + 1] <= s[i] + step
        }),
{
    let n = sample_count(days, step);
    assert(n >= 1) by (nonlinear_arith)
        requires
            n == (days + step - 1) / step,
            days >= 1,
            step >= 1,
    ;
    lemma_sample_bounds(days, step, n - 1);
    let s = samples(start, days, step);
    assert(n * step == (n - 1) * step + step) by (nonlinear_arith);
    assert(0 * step == 0);
    assert forall|i: int| #![trigger s[i]] 0 <= i < s.len() - 1 implies s[i] < s[i + 1] <= s[i]
        + step by {
        assert((i + 1) * step == i * step + step) by (nonlinear_arith);
    }
}

/// The days tried for a sample, by their distance from it, in the order of the tries.
pub open spec fn try_order() -> Seq<int> {
    seq![0int, -1int, 1int, -2int, 2int, -3int, 3int]
}

/// The days tried for a sample: the day itself and its neighbours, as far as the calendar holds
/// them.
pub open spec fn tries(day: int) -> Seq<int> {
    try_order().map_values(|d: int| day + d).filter(|d: int| day_in_range(d))
}

/// The days to try for a sample, in order.
pub fn nearby_days(day: Date) -> (r: Vec<Date>)
    requires
        day.wf(),
    ensures
        day_numbers(r@) == tries(day.day as int),
        forall|i: int| 0 <= i < r@.len() ==> (#[trigger] r@[i]).wf(),
        r@.len() >= 1 && r@[0].day == day.day,
{
    let deltas: Vec<i64> = vec![0, -1, 1, -2, 2, -3, 3];
    let ghost all = try_order().map_values(|d: int| day.day + d);
    let ghost pred = |d: int| day_in_range(d);
    let mut out: Vec<Date> = Vec::new();
    let mut i: usize = 0;
    proof {
        reveal(Seq::filter);
        assert(all.subrange(0, 0) =~= Seq::empty());
        assert(day_numbers(out@) =~= Seq::empty());
    }
    while i < deltas.len()
        invariant
            day.wf(),
            i <= deltas@.len(),
            deltas@.len() == 7,
            all == try_order().map_values(|d: int| day.day + d),
            forall|j: int| 0 <= j < 7 ==> #[trigger] deltas@[j] == try_order()[j],
            pred == (|d: int| day_in_range(d)),
            day_numbers(out@) == all.subrange(0, i as int).filter(pred),
            forall|j: int| 0 <= j < out@.len() ==> (#[trigger] out@[j]).wf(),
            i > 0 ==> out@.len() >= 1 && out@[0].day == day.day,
        decreases deltas@.len() - i,
    {
        let ghost before = out@;
        proof {
            reveal(Seq::filter);
            let next = all.subrange(0, i as int + 1);
            assert(next.drop_last() =~= all.subrange(0, i as int));
            assert(next.last() == day.day + deltas@[i as int]);
        }
        if let Some(d) = day.checked_add_days(deltas[i]) {
            out.push(d);
            assert(day_numbers(out@) =~= day_numbers(before).push(d.day as int));
        }
        i += 1;
    }
    assert(all.subrange(0, 7) =~= all);
    out
}

// ---- focus ----

/// What a part of a focus list says: a network, nothing, or something else.
pub open spec fn focus_part(part: Seq<char>) -> Option<Option<nat>> {
    let t = trimmed(part);
    if t.len() == 0 {
        Some(None)
    } else {
        match number_in(t, u32::MAX as nat) {
            Some(n) => Some(Some(n)),
            None => None,
        }
    }
}

/// The networks that the parts of a focus list name.
pub open spec fn focus_asns(parts: Seq<Seq<char>>) -> Set<u32> {
    Set::new(
        |a: u32|
            exists|i: int|
                0 <= i < parts.len() && focus_part(#[trigger] parts[i]) == Some(Some(a as nat)),
    )
}

/// The first `n` parts of a focus list can be read.
pub open spec fn focus_reads(parts: Seq<Seq<char>>, n: int) -> bool {
    forall|i: int| 0 <= i < n ==> focus_part(#[trigger] parts[i]) is Some
}

/// Reads a comma-separated list of networks; gives the first part that is none.
pub fn parse_focus(raw: &str) -> (r: Result<HashSet<u32>, String>)
    ensures
        match r {
            Ok(s) => focus_reads(split_on(raw@, ','), split_on(raw@, ',').len() as int) && s@
                == focus_asns(split_on(raw@, ',')),
            Err(t) => exists|i: int|
                0 <= i < split_on(raw@, ',').len() && focus_reads(split_on(raw@, ','), i)
                    && focus_part(#[trigger] split_on(raw@, ',')[i]) is None && t@ == trimmed(
                    split_on(raw@, ',')[i],
                ),
        },
{
    let parts = split_char(raw, ',');
    let ghost all = texts(parts@);
    let mut set: HashSet<u32> = HashSet::new();
    let mut i: usize = 0;
    assert(set@ =~= focus_asns(all.subrange(0, 0)));
    while i < parts.len()
        invariant
            i <= parts@.len(),
            all == texts(parts@),
            all == split_on(raw@, ','),
            focus_reads(all, i as int),
            set@ == focus_asns(all.subrange(0, i as int)),
        decreases parts@.len() - i,
    {
        let t = trim(parts[i].as_str());
        let ghost was = set@;
        let ghost done = all.subrange(0, i as int);
        let ghost next = all.subrange(0, i as int + 1);
        proof {
            reveal_strlit("");
            assert(all[i as int] == parts@[i as int]@);
            assert(t@.len() == 0 ==> t@ =~= ""@);
            assert forall|a: u32|
                focus_asns(next).contains(a) <==> focus_asns(done).contains(a) || focus_part(
                    all[i as int],
                ) == Some(Some(a as nat)) by {
                if focus_asns(next).contains(a) {
                    let j = choose|j: int|
                        0 <= j < next.len() && focus_part(#[trigger] next[j]) == Some(
                            Some(a as nat),
                        );
                    if j < i {
                        assert(done[j] == next[j]);
                    }
                }
                if focus_asns(done).contains(a) {
                    let j = choose|j: int|
                        0 <= j < done.len() && focus_part(#[trigger] done[j]) == Some(
                            Some(a as nat),
                        );
                    assert(next[j] == done[j]);
                }
                assert(next[i as int] == all[i as int]);
            }
        }
        if !same_text(t.as_str(), "") {
            match parse_u32(t.as_str()) {
                Some(n) => {
                    set.insert(n);
                    assert(set@ =~= focus_asns(next));
                },
                None => {
                    assert(focus_part(all[i as int]) is None);
                    return Err(t);
                },
            }
        } else {
            assert(set@ =~= focus_asns(next));
        }
        i += 1;
    }
    assert(all.subrange(0, all.len() as int) =~= all);
    Ok(set)
}

/// The networks that cases name.
pub open spec fn case_asns(cases: Seq<CaseView>) -> Set<u32> {
    Set::new(
        |a: u32|
            exists|i: int|
                0 <= i < cases.len() && ((#[trigger] cases[i]).asn_a == a || cases[i].asn_b
                    == Some(a)),
    )
}

/// Adds the networks that cases name to a focus.
pub fn add_case_asns(focus: &mut HashSet<u32>, cases: &[EvalCase])
    ensures
        final(focus)@ == old(focus)@.union(case_asns(case_views(cases@))),
{
    let ghost start = focus@;
    let ghost all = case_views(cases@);
    let mut i: usize = 0;
    assert(focus@ =~= start.union(case_asns(all.subrange(0, 0))));
    while i < cases.len()
        invariant
            i <= cases@.len(),
            all == case_views(cases@),
            focus@ == start.union(case_asns(all.subrange(0, i as int))),
        decreases cases@.len() - i,
    {
        let ghost done = all.subrange(0, i as int);
        let ghost next = all.subrange(0, i as int + 1);
        let c = &cases[i];
        focus.insert(c.asn_a);
        if let Some(b) = c.asn_b {
            focus.insert(b);
        }
        proof {
            assert forall|a: u32|
                case_asns(next).contains(a) <==> case_asns(done).contains(a) || c@.asn_a == a
                    || c@.asn_b == Some(a) by {
                if case_asns(next).contains(a) {
                    let j = choose|j: int|
                        0 <= j < next.len() && ((#[trigger] next[j]).asn_a == a || next[j].asn_b
                            == Some(a));
                    if j < i {
                        assert(done[j] == next[j]);
                    }
                }
                if case_asns(done).contains(a) {
                    let j = choose|j: int|
                        0 <= j < done.len() && ((#[trigger] done[j]).asn_a == a || done[j].asn_b
                            == Some(a));
                    assert(next[j] == done[j]);
                }
                assert(next[i as int] == c@);
            }
            assert(focus@ =~= start.union(case_asns(next)));
        }
        i += 1;
    }
    assert(all.subrange(0, all.len() as int) =~= all);
}

// ---- scope ----

/// The first and the last second of a window of days.
pub open spec fn window_seconds(first: int, last: int) -> (int, int) {
    (first * 86_400, last * 86_400 + 86_399)
}

/// A case's window meets a window of days.
pub open spec fn in_scope(c: CaseView, first: int, last: int) -> bool {
    let (start, end) = window_seconds(first, last);
    !(c.window_end.secs < start) && !(c.window_start.secs > end || (c.window_start.secs == end
        && c.window_start.nanos > 0))
}

/// The cases whose window meets a window of days, in order.
pub fn cases_in_scope(cases: &[EvalCase], first: Date, last: Date) -> (r: Vec<EvalCase>)
    requires
        first.wf(),
        last.wf(),
    ensures
        case_views(r@) == case_views(cases@).filter(
            |c: CaseView| in_scope(c, first.day as int, last.day as int),
        ),
{
    let win_start = first.at(0, 0, 0);
    let win_end = last.at(23, 59, 59);
    let ghost all = case_views(cases@);
    let ghost pred = |c: CaseView| in_scope(c, first.day as int, last.day as int);
    let mut out: Vec<EvalCase> = Vec::new();
    let mut i: usize = 0;
    proof {
        reveal(Seq::filter);
        assert(all.subrange(0, 0) =~= Seq::empty());
        assert(case_views(out@) =~= Seq::empty());
    }
    while i < cases.len()
        invariant
            i <= cases@.len(),
            all == case_views(cases@),
            win_start.secs == first.day * 86_400,
            win_start.nanos == 0,
            win_end.secs == last.day * 86_400 + 86_399,
            win_end.nanos == 0,
            pred == (|c: CaseView| in_scope(c, first.day as int, last.day as int)),
            case_views(out@) == all.subrange(0, i as int).filter(pred),
        decreases cases@.len() - i,
    {
        let c = &cases[i];
        let ghost before = out@;
        proof {
            reveal(Seq::filter);
            let next = all.subrange(0, i as int + 1);
            assert(next.drop_last() =~= all.subrange(0, i as int));
            assert(next.last() == c@);
        }
        if !c.window_end.is_earlier(&win_start) && !win_end.is_earlier(&c.window_start) {
            let d = c.copy();
            out.push(d);
            assert(case_views(out@) =~= case_views(before).push(c@));
        }
        i += 1;
    }
    assert(all.subrange(0, all.len() as int) =~= all);
    out
}

// ---- lead and lag ----

/// The day that a word of a case's notes announces.
pub open spec fn announced_by(word: Seq<char>) -> Option<int> {
    match without_prefix(word, "announce="@) {
        Some(raw) => parsed_date(raw),
        None => None,
    }
}

/// The first day that words announce.
pub open spec fn first_announced(ws: Seq<Seq<char>>) -> Option<int>
    decreases ws.len(),
{
    if ws.len() == 0 {
        None
    } else {
        match first_announced(ws.drop_last()) {
            Some(d) => Some(d),
            None => announced_by(ws.last()),
        }
    }
}

/// The day that a case was announced: the first that its notes give as `announce=YYYY-MM-DD`,
/// else the last day of its window.
pub open spec fn announced(c: CaseView) -> int {
    match first_announced(words_of(c.notes)) {
        Some(d) => d,
        None => instant_day(c.window_end),
    }
}

/// The day that a case was announced.
pub fn announce_day(case: &EvalCase) -> (r: Date)
    ensures
        r.day == announced(case@),
        r.wf() || r.day == instant_day(case.window_end),
        case.window_end.wf() ==> r.wf(),
{
    let ws = words(case.notes.as_str());
    let ghost all = texts(ws@);
    let mut i: usize = 0;
    assert(all.subrange(0, 0) =~= Seq::empty());
    while i < ws.len()
        invariant
            i <= ws@.len(),
            all == texts(ws@),
            all == words_of(case@.notes),
            first_announced(all.subrange(0, i as int)) is None,
        decreases ws@.len() - i,
    {
        proof {
            let next = all.subrange(0, i as int + 1);
            assert(next.drop_last() =~= all.subrange(0, i as int));
            assert(next.last() == ws@[i as int]@);
        }
        if let Some(raw) = strip_prefix(ws[i].as_str(), "announce=") {
            if let Ok(d) = parse_ymd(raw.as_str()) {
                proof {
                    lemma_first_announced_stays(all, i as int + 1);
                }
                return d;
            }
        }
        i += 1;
    }
    assert(all.subrange(0, all.len() as int) =~= all);
    case.window_end.date()
}

proof fn lemma_first_announced_stays(ws: Seq<Seq<char>>, n: int)
    requires
        0 <= n <= ws.len(),
        first_announced(ws.subrange(0, n)) is Some,
    ensures
        first_announced(ws) == first_announced(ws.subrange(0, n)),
    decreases ws.len() - n,
{
    if n < ws.len() {
        let next = ws.subrange(0, n + 1);
        assert(next.drop_last() =~= ws.subrange(0, n));
        lemma_first_announced_stays(ws, n + 1);
    } else {
        assert(ws.subrange(0, n) =~= ws);
    }
}

/// A feature counts contact of some kind.
pub open spec fn has_contact(f: FeatureView) -> bool {
    f.prefix_move_days > 0 || f.new_adj_days > 0 || f.upstream_converge_days > 0
}

/// The first feature of a pair.
pub open spec fn pair_feature(fs: Seq<FeatureView>, p: AsnPair) -> Option<FeatureView>
    decreases fs.len(),
{
    if fs.len() == 0 {
        None
    } else {
        match pair_feature(fs.drop_last(), p) {
            Some(f) => Some(f),
            None => if (fs.last().asn_lo, fs.last().asn_hi) == p {
                Some(fs.last())
            } else {
                None
            },
        }
    }
}

/// When contact began by a pair's feature, where its span meets the case's window: the beginning
/// of the span, or of the window if that is later.
pub open spec fn feature_start(f: Option<FeatureView>, c: CaseView) -> Option<Instant> {
    match f {
        Some(f) => if !earlier(f.last_seen, c.window_start) && !earlier(
            c.window_end,
            f.first_seen,
        ) && has_contact(f) {
            Some(
                if earlier(f.first_seen, c.window_start) {
                    c.window_start
                } else {
                    f.first_seen
                },
            )
        } else {
            None
        },
        None => None,
    }
}

/// An event is contact of a case's pair within its window.
pub open spec fn is_contact(e: EventView, c: CaseView, b: u32) -> bool {
    &&& in_window(e.timestamp, c.window_start, c.window_end)
    &&& e.kind == MaEventKind::PrefixMove || e.kind == MaEventKind::NewAdj || e.kind
        == MaEventKind::UpstreamConverge
    &&& names_pair(e, c.asn_a, b)
}

/// The earlier of a time and the times of contact events.
pub open spec fn earliest_contact(
    start: Option<Instant>,
    events: Seq<EventView>,
    c: CaseView,
    b: u32,
) -> Option<Instant>
    decreases events.len(),
{
    if events.len() == 0 {
        start
    } else {
        let head = earliest_contact(start, events.drop_last(), c, b);
        let e = events.last();
        if is_contact(e, c, b) {
            match head {
                Some(t) => if earlier(e.timestamp, t) {
                    Some(e.timestamp)
                } else {
                    Some(t)
                },
                None => Some(e.timestamp),
            }
        } else {
            head
        }
    }
}

/// When contact of a case's pair began within its window.
pub open spec fn contact_start(
    c: CaseView,
    features: Seq<FeatureView>,
    events: Seq<EventView>,
) -> Option<Instant> {
    match c.asn_b {
        Some(b) => earliest_contact(
            feature_start(pair_feature(features, pair_of(c.asn_a, b)), c),
            events,
            c,
            b,
        ),
        None => None,
    }
}

/// Times that the calendar holds.
pub open spec fn feature_times_wf(fs: Seq<FeatureView>) -> bool {
    forall|i: int| 0 <= i < fs.len() ==> (#[trigger] fs[i]).first_seen.wf()
}

/// Times that the calendar holds.
pub open spec fn event_times_wf(es: Seq<EventView>) -> bool {
    forall|i: int| 0 <= i < es.len() ==> (#[trigger] es[i]).timestamp.wf()
}

/// Whether a case's pair was in contact within its window, by how many days that came before the
/// announcement, and when.
pub open spec fn contact_of(
    c: CaseView,
    features: Seq<FeatureView>,
    events: Seq<EventView>,
) -> (bool, Option<int>, Option<Seq<char>>) {
    match contact_start(c, features, events) {
        Some(t) => (
            true,
            Some(announced(c) - instant_day(t)),
            Some(rfc3339_text(t.secs as int, t.nanos as int)),
        ),
        None => (false, None, None),
    }
}

/// A number, where there is one.
pub open spec fn opt_int(n: Option<i64>) -> Option<int> {
    match n {
        Some(n) => Some(n as int),
        None => None,
    }
}

fn find_pair_feature<'a>(features: &'a [AsnPairFeature], p: AsnPair) -> (r: Option<
    &'a AsnPairFeature,
>)
    ensures
        match r {
            Some(f) => pair_feature(feature_views(features@), p) == Some(f@)
                && features@.contains(*f),
            None => pair_feature(feature_views(features@), p) is None,
        },
{
    let ghost fs = feature_views(features@);
    let mut i: usize = 0;
    assert(fs.subrange(0, 0) =~= Seq::empty());
    while i < features.len()
        invariant
            i <= features@.len(),
            fs == feature_views(features@),
            pair_feature(fs.subrange(0, i as int), p) is None,
        decreases features@.len() - i,
    {
        proof {
            let next = fs.subrange(0, i as int + 1);
            assert(next.drop_last() =~= fs.subrange(0, i as int));
            assert(next.last() == features@[i as int]@);
        }
        if features[i].asn_lo == p.0 && features[i].asn_hi == p.1 {
            proof {
                lemma_pair_feature_stays(fs, p, i as int + 1);
            }
            return Some(&features[i]);
        }
        i += 1;
    }
    assert(fs.subrange(0, fs.len() as int) =~= fs);
    None
}

proof fn lemma_pair_feature_stays(fs: Seq<FeatureView>, p: AsnPair, n: int)
    requires
        0 <= n <= fs.len(),
        pair_feature(fs.subrange(0, n), p) is Some,
    ensures
        pair_feature(fs, p) == pair_feature(fs.subrange(0, n), p),
    decreases fs.len() - n,
{
    if n < fs.len() {
        let next = fs.subrange(0, n + 1);
        assert(next.drop_last() =~= fs.subrange(0, n));
        lemma_pair_feature_stays(fs, p, n + 1);
    } else {
        assert(fs.subrange(0, n) =~= fs);
    }
}

fn contact_event(ev: &MaEvent, case: &EvalCase, b: u32) -> (r: bool)
    ensures
        r == is_contact(ev@, case@, b),
{
    if ev.timestamp.is_earlier(&case.window_start) || case.window_end.is_earlier(&ev.timestamp) {
        return false;
    }
    match ev.kind {
        MaEventKind::FootprintStep => {
            return false;
        },
        _ => {},
    }
    match (ev.asn_a, ev.asn_b) {
        (Some(x), Some(y)) => (x == case.asn_a && y == b) || (x == b && y == case.asn_a),
        _ => false,
    }
}

/// Tells whether a case's pair was in contact within its window, by how many days that came
/// before the announcement, and when.
pub fn pair_contact_in_window(
    case: &EvalCase,
    features: &[AsnPairFeature],
    events: &[MaEvent],
) -> (r: (bool, Option<i64>, Option<String>))
    requires
        case.window_start.wf(),
        case.window_end.wf(),
        feature_times_wf(feature_views(features@)),
        event_times_wf(event_views(events@)),
    ensures
        (r.0, opt_int(r.1), opt_text(r.2)) == contact_of(
            case@,
            feature_views(features@),
            event_views(events@),
        ),
{
    let b: u32 = match case.asn_b {
        Some(b) => b,
        None => {
            return (false, None, None);
        },
    };
    let ghost fs = feature_views(features@);
    let ghost evs = event_views(events@);
    let p = canon_pair(case.asn_a, b);
    let mut first: Option<Instant> = None;
    if let Some(f) = find_pair_feature(features, p) {
        let overlaps = !f.last_seen.is_earlier(&case.window_start) && !case.window_end.is_earlier(
            &f.first_seen,
        );
        proof {
            let k = choose|k: int| 0 <= k < features@.len() && features@[k] == *f;
            assert(fs[k] == f@);
        }
        if overlaps && (f.prefix_move_days > 0 || f.new_adj_days > 0 || f.upstream_converge_days
            > 0) {
            first = Some(
                if f.first_seen.is_earlier(&case.window_start) {
                    case.window_start
                } else {
                    f.first_seen
                },
            );
        }
    }
    let ghost start = feature_start(pair_feature(fs, p), case@);
    assert(first == start);
    let mut i: usize = 0;
    assert(evs.subrange(0, 0) =~= Seq::empty());
    while i < events.len()
        invariant
            i <= events@.len(),
            evs == event_views(events@),
            event_times_wf(evs),
            first == earliest_contact(start, evs.subrange(0, i as int), case@, b),
            first is Some ==> first->0.wf(),
        decreases events@.len() - i,
    {
        let ev = &events[i];
        proof {
            let next = evs.subrange(0, i as int + 1);
            assert(next.drop_last() =~= evs.subrange(0, i as int));
            assert(next.last() == ev@);
            assert(evs[i as int].timestamp.wf());
        }
        if contact_event(ev, case, b) {
            first = match first {
                Some(t) => if ev.timestamp.is_earlier(&t) {
                    Some(ev.timestamp)
                } else {
                    Some(t)
                },
                None => Some(ev.timestamp),
            };
        }
        i += 1;
    }
    assert(evs.subrange(0, evs.len() as int) =~= evs);
    match first {
        Some(t) => {
            let day: i64 = t.date().day;
            let lead: i64 = announce_day(case).day - day;
            (true, Some(lead), Some(to_rfc3339(t)))
        },
        None => (false, None, None),
    }
}

/// The network that a case is about: the second where it names one.
pub open spec fn target_of(c: CaseView) -> u32 {
    match c.asn_b {
        Some(b) => b,
        None => c.asn_a,
    }
}

/// An event is a step of the footprint of a case's target within the case's window.
pub open spec fn is_target_step(e: EventView, c: CaseView) -> bool {
    &&& e.kind == MaEventKind::FootprintStep
    &&& in_window(e.timestamp, c.window_start, c.window_end)
    &&& e.asn_a == Some(target_of(c))
}

/// Tells whether the footprint of a case's target made a step within the case's window.
pub fn target_footprint_hit(case: &EvalCase, events: &[MaEvent]) -> (r: bool)
    ensures
        r == exists|i: int|
            0 <= i < events@.len() && is_target_step((#[trigger] events@[i])@, case@),
{
    let target: u32 = match case.asn_b {
        Some(b) => b,
        None => case.asn_a,
    };
    let mut i: usize = 0;
    while i < events.len()
        invariant
            i <= events@.len(),
            target == target_of(case@),
            forall|j: int| 0 <= j < i ==> !is_target_step((#[trigger] events@[j])@, case@),
        decreases events@.len() - i,
    {
        let ev = &events[i];
        let is_target = match ev.asn_a {
            Some(a) => a == target,
            None => false,
        };
        if ev.kind == MaEventKind::FootprintStep && !ev.timestamp.is_earlier(&case.window_start)
            && !case.window_end.is_earlier(&ev.timestamp) && is_target {
            assert(is_target_step(events@[i as int]@, case@));
            return true;
        }
        i += 1;
    }
    false
}

/// The name of a lead's range.
pub open spec fn bucket(lead_days: Option<int>, contact: bool) -> Seq<char> {
    match lead_days {
        Some(d) => if !contact {
            "miss"@
        } else if d > 365 {
            ">365"@
        } else if d >= 181 {
            "181-365"@
        } else if d >= 91 {
            "91-180"@
        } else if d >= 31 {
            "31-90"@
        } else if d >= 8 {
            "8-30"@
        } else if d >= 1 {
            "1-7"@
        } else if d == 0 {
            "0"@
        } else {
            "post-announce"@
        },
        None => "miss"@,
    }
}

/// The name of a lead's range.
pub fn horizon_bucket(lead_days: Option<i64>, contact: bool) -> (r: String)
    ensures
        r@ == bucket(opt_int(lead_days), contact),
{
    if !contact {
        return "miss".to_owned();
    }
    match lead_days {
        None => "miss".to_owned(),
        Some(d) => if d > 365 {
            ">365".to_owned()
        } else if d >= 181 {
            "181-365".to_owned()
        } else if d >= 91 {
            "91-180".to_owned()
        } else if d >= 31 {
            "31-90".to_owned()
        } else if d >= 8 {
            "8-30".to_owned()
        } else if d >= 1 {
            "1-7".to_owned()
        } else if d == 0 {
            "0".to_owned()
        } else {
            "post-announce".to_owned()
        },
    }
}

/// How a case's contact relates to its announcement.
#[derive(Debug)]
pub struct LeadLagRow {
    pub id: String,
    pub expect_hit: bool,
    pub expect_kind: String,
    pub asn_a: u32,
    pub asn_b: Option<u32>,
    pub announce_end: String,
    pub feature_hit: bool,
    pub event_hit: bool,
    /// The case's pair was in contact within the window.
    pub pair_contact_hit: bool,
    /// The footprint of the case's target made a step within the window.
    pub target_footprint_hit: bool,
    pub passed_feature: bool,
    pub lead_days: Option<i64>,
    pub horizon_bucket: String,
    pub first_seen: Option<String>,
    pub detail: Option<String>,
}

/// What a row says.
#[verifier::ext_equal]
pub struct RowView {
    pub id: Seq<char>,
    pub expect_hit: bool,
    pub expect_kind: Seq<char>,
    pub asn_a: u32,
    pub asn_b: Option<u32>,
    pub announce_end: Seq<char>,
    pub feature_hit: bool,
    pub event_hit: bool,
    pub pair_contact_hit: bool,
    pub target_footprint_hit: bool,
    pub passed_feature: bool,
    pub lead_days: Option<int>,
    pub horizon_bucket: Seq<char>,
    pub first_seen: Option<Seq<char>>,
    pub detail: Option<Seq<char>>,
}

impl View for LeadLagRow {
    type V = RowView;

    open spec fn view(&self) -> RowView {
        RowView {
            id: self.id@,
            expect_hit: self.expect_hit,
            expect_kind: self.expect_kind@,
            asn_a: self.asn_a,
            asn_b: self.asn_b,
            announce_end: self.announce_end@,
            feature_hit: self.feature_hit,
            event_hit: self.event_hit,
            pair_contact_hit: self.pair_contact_hit,
            target_footprint_hit: self.target_footprint_hit,
            passed_feature: self.passed_feature,
            lead_days: opt_int(self.lead_days),
            horizon_bucket: self.horizon_bucket@,
            first_seen: opt_text(self.first_seen),
            detail: opt_text(self.detail),
        }
    }
}

/// The row of a case.
pub open spec fn row_of(
    c: CaseView,
    fr: ResultView,
    er: ResultView,
    features: Seq<FeatureView>,
    events: Seq<EventView>,
) -> RowView {
    let contact = contact_of(c, features, events);
    RowView {
        id: c.id,
        expect_hit: c.expect_hit,
        expect_kind: kind_text(c.expect_kind),
        asn_a: c.asn_a,
        asn_b: c.asn_b,
        announce_end: rfc3339_text(c.window_end.secs as int, c.window_end.nanos as int),
        feature_hit: fr.hit,
        event_hit: er.hit,
        pair_contact_hit: contact.0,
        target_footprint_hit: exists|i: int|
            0 <= i < events.len() && is_target_step(#[trigger] events[i], c),
        passed_feature: fr.passed,
        lead_days: contact.1,
        horizon_bucket: bucket(contact.1, contact.0),
        first_seen: contact.2,
        detail: fr.matched_detail,
    }
}

/// The rows of cases, in order.
pub open spec fn rows_of(
    cases: Seq<CaseView>,
    features: Seq<FeatureView>,
    events: Seq<EventView>,
) -> Seq<RowView> {
    Seq::new(
        cases.len(),
        |i: int|
            row_of(
                cases[i],
                feature_results(cases, features)[i],
                event_results(cases, events)[i],
                features,
                events,
            ),
    )
}

/// What rows say.
pub open spec fn row_views(v: Seq<LeadLagRow>) -> Seq<RowView> {
    Seq::new(v.len(), |i: int| v[i]@)
}

/// The windows of cases are times that the calendar holds.
pub open spec fn case_times_wf(cs: Seq<CaseView>) -> bool {
    forall|i: int|
        0 <= i < cs.len() ==> (#[trigger] cs[i]).window_start.wf() && cs[i].window_end.wf()
}

/// Builds the rows of cases.
pub fn build_lead_lag_rows(
    cases: &[EvalCase],
    features: &[AsnPairFeature],
    events: &[MaEvent],
) -> (r: Vec<LeadLagRow>)
    requires
        case_times_wf(case_views(cases@)),
        feature_times_wf(feature_views(features@)),
        event_times_wf(event_views(events@)),
    ensures
        row_views(r@) == rows_of(
            case_views(cases@),
            feature_views(features@),
            event_views(events@),
        ),
{
    let ghost cs = case_views(cases@);
    let ghost fs = feature_views(features@);
    let ghost evs = event_views(events@);
    let feat_results = eval_cases_against_features(cases, features);
    let event_results = eval_cases(cases, events);
    let ghost frs = feature_results(cs, fs);
    let ghost ers = crate::eval::event_results(cs, evs);
    proof {
        assert(result_views(feat_results@).len() == cs.len());
        assert(result_views(event_results@).len() == cs.len());
    }
    let mut out: Vec<LeadLagRow> = Vec::new();
    let mut i: usize = 0;
    while i < cases.len()
        invariant
            i <= cases@.len(),
            cs == case_views(cases@),
            fs == feature_views(features@),
            evs == event_views(events@),
            case_times_wf(cs),
            feature_times_wf(fs),
            event_times_wf(evs),
            frs == feature_results(cs, fs),
            ers == crate::eval::event_results(cs, evs),
            result_views(feat_results@) == frs,
            result_views(event_results@) == ers,
            feat_results@.len() == cases@.len(),
            event_results@.len() == cases@.len(),
            out@.len() == i,
            forall|j: int| 0 <= j < i ==> (#[trigger] out@[j])@ == rows_of(cs, fs, evs)[j],
        decreases cases@.len() - i,
    {
        let case = &cases[i];
        let fr = &feat_results[i];
        let er = &event_results[i];
        proof {
            assert(cs[i as int] == case@);
            assert(result_views(feat_results@)[i as int] == fr@);
            assert(result_views(event_results@)[i as int] == er@);
        }
        let (pair_contact_hit, lead_days, first_seen) = pair_contact_in_window(
            case,
            features,
            events,
        );
        let target_hit = target_footprint_hit(case, events);
        proof {
            assert(target_hit == exists|k: int|
                0 <= k < evs.len() && is_target_step(#[trigger] evs[k], case@)) by {
                if target_hit {
                    let k = choose|k: int|
                        0 <= k < events@.len() && is_target_step((#[trigger] events@[k])@, case@);
                    assert(evs[k] == events@[k]@);
                }
                if exists|k: int| 0 <= k < evs.len() && is_target_step(#[trigger] evs[k], case@) {
                    let k = choose|k: int|
                        0 <= k < evs.len() && is_target_step(#[trigger] evs[k], case@);
                    assert(is_target_step(events@[k]@, case@));
                }
            }
        }
        let row = LeadLagRow {
            id: case.id.clone(),
            expect_hit: case.expect_hit,
            expect_kind: case.expect_kind.name().to_owned(),
            asn_a: case.asn_a,
            asn_b: case.asn_b,
            announce_end: to_rfc3339(case.window_end),
            feature_hit: fr.hit,
            event_hit: er.hit,
            pair_contact_hit,
            target_footprint_hit: target_hit,
            passed_feature: fr.passed,
            lead_days,
            horizon_bucket: horizon_bucket(lead_days, pair_contact_hit),
            first_seen,
            detail: copy_opt_text(&fr.matched_detail),
        };
        assert(row@ =~= rows_of(cs, fs, evs)[i as int]);
        out.push(row);
        i += 1;
    }
    assert(row_views(out@) =~= rows_of(cs, fs, evs));
    out
}

// ---- the run ----

/// Compares two snapshots and adds what happened to what happened before; gives what happened.
pub fn add_day_diff(
    all: &mut Vec<MaEvent>,
    before: &RibSnapshot,
    after: &RibSnapshot,
    org_map: &OrgMap,
    glue: &GlueSet,
    cfg: &DiffConfig,
) -> (r: Vec<MaEvent>)
    requires
        before.wf(),
        after.wf(),
        counts_fit(before.seen()),
        counts_fit(after.seen()),
        org_map.wf(),
    ensures
        event_views(r@) == diff_events(
            snap_of(*before),
            snap_of(*after),
            org_map.state(),
            glue@,
            *cfg,
        ),
        event_views(final(all)@) == event_views(old(all)@) + event_views(r@),
{
    let ghost start = event_views(all@);
    let events = diff_snapshots(before, after, org_map, glue, cfg);
    let ghost evs = event_views(events@);
    let mut i: usize = 0;
    assert(event_views(all@) =~= start + evs.subrange(0, 0));
    while i < events.len()
        invariant
            i <= events@.len(),
            evs == event_views(events@),
            event_views(all@) == start + evs.subrange(0, i as int),
        decreases events@.len() - i,
    {
        let ghost was = all@;
        let c = events[i].copy();
        all.push(c);
        proof {
            assert(event_views(all@) =~= event_views(was).push(evs[i as int]));
            assert(start + evs.subrange(0, i as int + 1) =~= (start + evs.subrange(
                0,
                i as int,
            )).push(evs[i as int]));
        }
        i += 1;
    }
    assert(evs.subrange(0, evs.len() as int) =~= evs);
    events
}

/// A series of samples as far as it has come.
pub struct Series {
    /// The last sample and its day; nothing before the first one.
    pub prior: Option<(Date, RibSnapshot)>,
    /// What happened between the samples so far.
    pub all: Vec<MaEvent>,
}

/// What a series says.
#[verifier::ext_equal]
pub struct SeriesView {
    pub prior: Option<(Date, Snap)>,
    pub events: Seq<EventView>,
}

impl View for Series {
    type V = SeriesView;

    open spec fn view(&self) -> SeriesView {
        SeriesView {
            prior: match self.prior {
                Some(p) => Some((p.0, snap_of(p.1))),
                None => None,
            },
            events: event_views(self.all@),
        }
    }
}

/// A series before its first sample.
pub open spec fn empty_series() -> SeriesView {
    SeriesView { prior: None, events: Seq::empty() }
}

/// A series after one more sample: it is compared with the sample before it.
pub open spec fn after_sample(
    s: SeriesView,
    day: Date,
    snap: Snap,
    orgs: OrgState,
    glue: Set<u32>,
    cfg: DiffConfig,
) -> SeriesView {
    SeriesView {
        prior: Some((day, snap)),
        events: match s.prior {
            Some((d, before)) => s.events + diff_events(before, snap, orgs, glue, cfg),
            None => s.events,
        },
    }
}

/// A series after samples, in order.
pub open spec fn after_samples(
    samples: Seq<(Date, Snap)>,
    orgs: OrgState,
    glue: Set<u32>,
    cfg: DiffConfig,
) -> SeriesView
    decreases samples.len(),
{
    if samples.len() == 0 {
        empty_series()
    } else {
        let (day, snap) = samples.last();
        let before = after_samples(samples.drop_last(), orgs, glue, cfg);
        after_sample(before, day, snap, orgs, glue, cfg)
    }
}

/// What happened between each of the first `n` samples and the next one, in order.
pub open spec fn between_samples(
    samples: Seq<(Date, Snap)>,
    n: int,
    orgs: OrgState,
    glue: Set<u32>,
    cfg: DiffConfig,
) -> Seq<EventView>
    decreases n,
{
    if n <= 0 {
        Seq::empty()
    } else {
        between_samples(samples, n - 1, orgs, glue, cfg) + diff_events(
            samples[n - 1].1,
            samples[n].1,
            orgs,
            glue,
            cfg,
        )
    }
}

proof fn lemma_between_samples_prefix(
    samples: Seq<(Date, Snap)>,
    n: int,
    orgs: OrgState,
    glue: Set<u32>,
    cfg: DiffConfig,
)
    requires
        n < samples.len() - 1,
    ensures
        between_samples(samples.drop_last(), n, orgs, glue, cfg) == between_samples(
            samples,
            n,
            orgs,
            glue,
            cfg,
        ),
    decreases n,
{
    if n > 0 {
        lemma_between_samples_prefix(samples, n - 1, orgs, glue, cfg);
    }
}

/// A series compares each sample with the next one, once, and no others.
pub proof fn neighbouring_samples_are_compared(
    samples: Seq<(Date, Snap)>,
    orgs: OrgState,
    glue: Set<u32>,
    cfg: DiffConfig,
)
    ensures
        after_samples(samples, orgs, glue, cfg).events == between_samples(
            samples,
            samples.len() - 1,
            orgs,
            glue,
            cfg,
        ),
        after_samples(samples, orgs, glue, cfg).prior == (if samples.len() > 0 {
            Some(samples.last())
        } else {
            None
        }),
    decreases samples.len(),
{
    if samples.len() > 0 {
        let head = samples.drop_last();
        neighbouring_samples_are_compared(head, orgs, glue, cfg);
        if head.len() > 0 {
            lemma_between_samples_prefix(samples, samples.len() - 2, orgs, glue, cfg);
            assert(head.last() == samples[samples.len() - 2]);
        }
    }
}

impl Series {
    /// The last sample is well formed and can be counted.
    pub open spec fn wf(&self) -> bool {
        self.prior matches Some(p) ==> p.1.wf() && counts_fit(p.1.seen())
    }

    /// A series before its first sample.
    pub fn new() -> (r: Self)
        ensures
            r.wf(),
            r@ == empty_series(),
    {
        let r = Series { prior: None, all: Vec::new() };
        assert(r@ =~= empty_series());
        r
    }

    /// Adds a sample; gives the day of the sample before it and what happened since, where there
    /// is one.
    pub fn add_sample(
        &mut self,
        day: Date,
        snap: RibSnapshot,
        org_map: &OrgMap,
        glue: &GlueSet,
        cfg: &DiffConfig,
    ) -> (r: Option<(Date, Vec<MaEvent>)>)
        requires
            old(self).wf(),
            snap.wf(),
            counts_fit(snap.seen()),
            org_map.wf(),
        ensures
            final(self).wf(),
            final(self)@ == after_sample(
                old(self)@,
                day,
                snap_of(snap),
                org_map.state(),
                glue@,
                *cfg,
            ),
            match old(self)@.prior {
                Some((d, before)) => r matches Some((from, events)) && from == d && event_views(
                    events@,
                ) == diff_events(before, snap_of(snap), org_map.state(), glue@, *cfg),
                None => r is None,
            },
    {
        let r = match &self.prior {
            Some((from, before)) => {
                let events = add_day_diff(&mut self.all, before, &snap, org_map, glue, cfg);
                Some((*from, events))
            },
            None => None,
        };
        self.prior = Some((day, snap));
        r
    }
}

/// What a backtest comes to.
#[derive(Debug)]
pub struct BacktestOutcome {
    pub features: Vec<AsnPairFeature>,
    /// The score of the cases in scope and their rows, where there is such a case.
    pub scored: Option<(BacktestEvalReport, Vec<LeadLagRow>)>,
}

/// Aggregates the events of a backtest, and scores the cases whose window meets its days.
pub fn finish_backtest(all: &[MaEvent], cases: &[EvalCase], first: Date, last: Date) -> (r:
    BacktestOutcome)
    requires
        first.wf(),
        last.wf(),
        event_times_wf(event_views(all@)),
        case_times_wf(case_views(cases@)),
    ensures
        exists|u: Seq<AsnPairFeature>|
            feature_views(u) == pair_features(event_views(all@)) && r.features@
                == #[trigger] ranked(u),
        ({
            let scoped = case_views(cases@).filter(
                |c: CaseView| in_scope(c, first.day as int, last.day as int),
            );
            match r.scored {
                Some((report, rows)) => {
                    &&& scoped.len() > 0
                    &&& result_views(report.event_results@) == event_results(
                        scoped,
                        event_views(all@),
                    )
                    &&& result_views(report.feature_results@) == feature_results(
                        scoped,
                        feature_views(r.features@),
                    )
                    &&& report.event_passed == passed_in(result_views(report.event_results@))
                    &&& report.feature_passed == passed_in(result_views(report.feature_results@))
                    &&& report.event_hits == hits_in(result_views(report.event_results@))
                    &&& report.feature_hits == hits_in(result_views(report.feature_results@))
                    &&& report.event_passed + report.event_failed == scoped.len()
                    &&& report.feature_passed + report.feature_failed == scoped.len()
                    &&& report.event_hits + report.event_misses == scoped.len()
                    &&& report.feature_hits + report.feature_misses == scoped.len()
                    &&& row_views(rows@) == rows_of(
                        scoped,
                        feature_views(r.features@),
                        event_views(all@),
                    )
                },
                None => scoped.len() == 0,
            }
        }),
{
    let features = aggregate_pair_features(all);
    let ghost evs = event_views(all@);
    let ghost fs = feature_views(features@);
    proof {
        let u = choose|u: Seq<AsnPairFeature>|
            feature_views(u) == pair_features(evs) && features@ == #[trigger] ranked(u);
        assert forall|i: int| 0 <= i < fs.len() implies (#[trigger] fs[i]).first_seen.wf() by {
            assert(features@.contains(features@[i]));
            ranked_contains(u, features@[i]);
            let k = choose|k: int| 0 <= k < u.len() && u[k] == features@[i];
            assert(feature_views(u)[k] == u[k]@);
            let pairs = fresh(Seq::empty(), contact_pairs(evs));
            fresh_items(Seq::empty(), contact_pairs(evs));
            assert(pair_features(evs).len() == pairs.len());
            assert(feature_views(u).len() == u.len());
            assert(pairs.contains(pairs[k]));
            let p = pairs[k];
            span_is_first_to_last(evs, p);
            assert(contact_pairs(evs).contains(p));
            let j = choose|j: int|
                0 <= j < evs.len() && crate::features::is_of_pair(#[trigger] evs[j], p)
                    && evs[j].timestamp == fs[i].first_seen;
            assert(evs[j].timestamp.wf());
        }
    }
    let scoped = cases_in_scope(cases, first, last);
    let ghost all_cases = case_views(cases@);
    let ghost in_days = |c: CaseView| in_scope(c, first.day as int, last.day as int);
    proof {
        lemma_scoped_members(all_cases, in_days);
        assert(case_views(scoped@).len() == scoped@.len());
    }
    let scored = if scoped.len() == 0 {
        None
    } else {
        let report = score_backtest(&scoped, all, &features);
        let rows = build_lead_lag_rows(&scoped, &features, all);
        Some((report, rows))
    };
    BacktestOutcome { features, scored }
}

proof fn lemma_scoped_members(s: Seq<CaseView>, keep: spec_fn(CaseView) -> bool)
    requires
        case_times_wf(s),
    ensures
        case_times_wf(s.filter(keep)),
    decreases s.len(),
{
    reveal(Seq::filter);
    if s.len() > 0 {
        let head = s.drop_last();
        assert forall|i: int| 0 <= i < head.len() implies (#[trigger] head[i]).window_start.wf()
            && head[i].window_end.wf() by {
            assert(head[i] == s[i]);
        }
        lemma_scoped_members(head, keep);
        assert(s[s.len() - 1].window_start.wf());
        assert forall|i: int| 0 <= i < s.filter(keep).len() implies (#[trigger] s.filter(
            keep,
        )[i]).window_start.wf() && s.filter(keep)[i].window_end.wf() by {
            if i < head.filter(keep).len() {
                assert(s.filter(keep)[i] == head.filter(keep)[i]);
            }
        }
    }
}

// ---- laws ----

/// Contact is found exactly where the pair's feature or some event shows it, and began at or
/// before each event that shows it and within the window.
pub proof fn contact_is_the_earliest(
    c: CaseView,
    b: u32,
    start: Option<Instant>,
    events: Seq<EventView>,
)
    ensures
        earliest_contact(start, events, c, b) is Some <==> start is Some || exists|i: int|
            0 <= i < events.len() && is_contact(#[trigger] events[i], c, b),
        forall|i: int|
            0 <= i < events.len() && is_contact(#[trigger] events[i], c, b) ==> !earlier(
                events[i].timestamp,
                earliest_contact(start, events, c, b)->0,
            ),
        start is Some ==> !earlier(start->0, earliest_contact(start, events, c, b)->0),
        (start is Some ==> in_window(start->0, c.window_start, c.window_end)) && earliest_contact(
            start,
            events,
            c,
            b,
        ) is Some ==> in_window(
            earliest_contact(start, events, c, b)->0,
            c.window_start,
            c.window_end,
        ),
    decreases events.len(),
{
    if events.len() > 0 {
        let head = events.drop_last();
        contact_is_the_earliest(c, b, start, head);
        let before = earliest_contact(start, head, c, b);
        let after = earliest_contact(start, events, c, b);
        assert forall|i: int|
            0 <= i < events.len() && is_contact(#[trigger] events[i], c, b) implies !earlier(
            events[i].timestamp,
            after->0,
        ) && after is Some by {
            if i < head.len() {
                assert(is_contact(head[i], c, b));
            }
        }
        if after is Some && start is None {
            if is_contact(events.last(), c, b) {
                assert(is_contact(events[events.len() - 1], c, b));
            } else {
                let i = choose|i: int|
                    0 <= i < head.len() && is_contact(#[trigger] head[i], c, b);
                assert(is_contact(events[i], c, b));
            }
        }
    }
}

/// Contact before the announcement has a range with a number, contact behind it has the range
/// behind the announcement, and no contact has none.
pub proof fn buckets_tell_lead_from_lag(d: int)
    ensures
        bucket(Some(d), false) == "miss"@,
        bucket(None, true) == "miss"@,
        d < 0 <==> bucket(Some(d), true) == "post-announce"@,
        d == 0 <==> bucket(Some(d), true) == "0"@,
{
    reveal_strlit("miss");
    reveal_strlit(">365");
    reveal_strlit("181-365");
    reveal_strlit("91-180");
    reveal_strlit("31-90");
    reveal_strlit("8-30");
    reveal_strlit("1-7");
    reveal_strlit("0");
    reveal_strlit("post-announce");
    assert(">365"@[0] == '>');
    assert("0"@.len() == 1);
    assert("post-announce"@.len() == 13);
    assert("181-365"@.len() == 7);
    assert("91-180"@.len() == 6);
    assert("31-90"@.len() == 5);
    assert("8-30"@.len() == 4);
    assert("1-7"@.len() == 3);
    assert(">365"@.len() == 4);
}

/// An event shows contact of two networks: it names both, in either order, lies in the window, and
/// is a move, an adjacency or a convergence.
pub open spec fn shows_contact(e: EventView, c: CaseView, b: u32) -> bool {
    &&& !earlier(e.timestamp, c.window_start) && !earlier(c.window_end, e.timestamp)
    &&& (e.asn_a == Some(c.asn_a) && e.asn_b == Some(b)) || (e.asn_a == Some(b) && e.asn_b == Some(
        c.asn_a,
    ))
    &&& {
        ||| e.kind == MaEventKind::PrefixMove
        ||| e.kind == MaEventKind::NewAdj
        ||| e.kind == MaEventKind::UpstreamConverge
    }
}

/// The feature at a place is the first of two networks, was seen neither only before nor only
/// behind the window, and counts days of a move, an adjacency or a convergence.
pub open spec fn counts_contact(fs: Seq<FeatureView>, k: int, c: CaseView, b: u32) -> bool {
    &&& 0 <= k < fs.len()
    &&& is_feature_of(fs[k], c.asn_a, b)
    &&& forall|j: int| 0 <= j < k ==> !is_feature_of(#[trigger] fs[j], c.asn_a, b)
    &&& !earlier(fs[k].last_seen, c.window_start) && !earlier(c.window_end, fs[k].first_seen)
    &&& fs[k].prefix_move_days > 0 || fs[k].new_adj_days > 0 || fs[k].upstream_converge_days > 0
}

/// A feature is of two networks.
pub open spec fn is_feature_of(f: FeatureView, a: u32, b: u32) -> bool {
    (a <= b && f.asn_lo == a && f.asn_hi == b) || (b <= a && f.asn_lo == b && f.asn_hi == a)
}

proof fn lemma_pair_feature(fs: Seq<FeatureView>, a: u32, b: u32) -> (k: int)
    ensures
        pair_feature(fs, pair_of(a, b)) is Some ==> 0 <= k < fs.len() && pair_feature(
            fs,
            pair_of(a, b),
        ) == Some(fs[k]) && is_feature_of(fs[k], a, b) && forall|j: int|
            0 <= j < k ==> !is_feature_of(#[trigger] fs[j], a, b),
        pair_feature(fs, pair_of(a, b)) is None ==> forall|j: int|
            0 <= j < fs.len() ==> !is_feature_of(#[trigger] fs[j], a, b),
    decreases fs.len(),
{
    if fs.len() == 0 {
        0
    } else {
        let head = fs.drop_last();
        let k = lemma_pair_feature(head, a, b);
        let p = pair_of(a, b);
        if pair_feature(head, p) is Some {
            assert(head[k] == fs[k]);
            assert forall|j: int| 0 <= j < k implies !is_feature_of(#[trigger] fs[j], a, b) by {
                assert(head[j] == fs[j]);
            }
            k
        } else {
            assert forall|j: int| 0 <= j < head.len() implies !is_feature_of(
                #[trigger] fs[j],
                a,
                b,
            ) by {
                assert(head[j] == fs[j]);
            }
            fs.len() - 1
        }
    }
}

/// Contact of a case's pair is found just where some event shows it or the pair's feature counts
/// it, whatever the kind. It then has a time and a lead: the time lies in the window, comes behind
/// no event that shows contact nor the feature's first time (or the beginning of the window, if
/// that is later), and is the time of one of these. The lead is the days from its day to the day of
/// the announcement. A case of one network has no contact.
pub proof fn contact_is_found_by_every_kind(
    c: CaseView,
    features: Seq<FeatureView>,
    events: Seq<EventView>,
)
    requires
        !earlier(c.window_end, c.window_start),
    ensures
        ({
            let found = contact_of(c, features, events);
            &&& found.0 <==> (c.asn_b matches Some(b) && ((exists|i: int|
                0 <= i < events.len() && shows_contact(#[trigger] events[i], c, b)) || exists|k: int|
                #[trigger] counts_contact(features, k, c, b)))
            &&& found.0 <==> found.1 is Some
            &&& found.0 <==> found.2 is Some
            &&& found.0 ==> (c.asn_b matches Some(b) && exists|t: Instant|
                {
                    &&& #[trigger] in_window(t, c.window_start, c.window_end)
                    &&& found.2 == Some(rfc3339_text(t.secs as int, t.nanos as int))
                    &&& found.1 == Some(announced(c) - t.secs as int / 86_400)
                    &&& forall|i: int|
                        0 <= i < events.len() && shows_contact(#[trigger] events[i], c, b)
                            ==> !earlier(events[i].timestamp, t)
                    &&& forall|k: int| #[trigger]
                        counts_contact(features, k, c, b) ==> !earlier(features[k].first_seen, t)
                            || t == c.window_start
                    &&& (exists|i: int|
                        0 <= i < events.len() && shows_contact(#[trigger] events[i], c, b)
                            && events[i].timestamp == t) || (exists|k: int| #[trigger]
                        counts_contact(features, k, c, b) && (features[k].first_seen == t || (t
                            == c.window_start && earlier(features[k].first_seen, t))))
                })
        }),
{
    if let Some(b) = c.asn_b {
        let p = pair_of(c.asn_a, b);
        let f = pair_feature(features, p);
        let k0 = lemma_pair_feature(features, c.asn_a, b);
        let start = feature_start(f, c);
        contact_is_the_earliest(c, b, start, events);
        lemma_earliest_is_one(c, b, start, events);
        let first = earliest_contact(start, events, c, b);
        assert forall|e: EventView| #[trigger] shows_contact(e, c, b) <==> is_contact(e, c, b) by {}
        assert(start is Some ==> counts_contact(features, k0, c, b));
        assert forall|k: int| #[trigger] counts_contact(features, k, c, b) implies k == k0
            && start is Some by {
            if f is Some {
                if k < k0 {
                    assert(!is_feature_of(features[k], c.asn_a, b));
                } else if k0 < k {
                    assert(!is_feature_of(features[k0], c.asn_a, b));
                }
            }
        }
        if exists|i: int| 0 <= i < events.len() && shows_contact(#[trigger] events[i], c, b) {
            let i = choose|i: int|
                0 <= i < events.len() && shows_contact(#[trigger] events[i], c, b);
            assert(is_contact(events[i], c, b));
        }
        if first is Some {
            let t = first->0;
            assert(in_window(t, c.window_start, c.window_end));
            assert forall|i: int|
                0 <= i < events.len() && shows_contact(#[trigger] events[i], c, b) implies !earlier(
                events[i].timestamp,
                t,
            ) by {
                assert(is_contact(events[i], c, b));
            }
            if start == Some(t) {
                assert(counts_contact(features, k0, c, b));
            } else {
                let i = choose|i: int|
                    0 <= i < events.len() && is_contact(#[trigger] events[i], c, b)
                        && events[i].timestamp == t;
                assert(shows_contact(events[i], c, b));
            }
        }
    }
}

proof fn lemma_earliest_is_one(
    c: CaseView,
    b: u32,
    start: Option<Instant>,
    events: Seq<EventView>,
)
    ensures
        earliest_contact(start, events, c, b) is Some ==> earliest_contact(start, events, c, b)
            == start || exists|i: int|
            0 <= i < events.len() && is_contact(#[trigger] events[i], c, b) && Some(
                events[i].timestamp,
            ) == earliest_contact(start, events, c, b),
    decreases events.len(),
{
    if events.len() > 0 {
        let head = events.drop_last();
        lemma_earliest_is_one(c, b, start, head);
        let before = earliest_contact(start, head, c, b);
        let after = earliest_contact(start, events, c, b);
        if after is Some && after != start {
            if before == after {
                let i = choose|i: int|
                    0 <= i < head.len() && is_contact(#[trigger] head[i], c, b) && Some(
                        head[i].timestamp,
                    ) == before;
                assert(is_contact(events[i], c, b));
            } else {
                assert(is_contact(events[events.len() - 1], c, b));
            }
        }
    }
}

/// A case was announced on the first day that a word of its notes gives behind `announce=`; words
/// that give no day are passed over. Without one it is the last day of its window.
pub proof fn announcements_are_read_from_the_notes(c: CaseView, i: int, day: int)
    requires
        0 <= i <= words_of(c.notes).len(),
        forall|j: int|
            0 <= j < i ==> announced_by(#[trigger] words_of(c.notes)[j]) is None,
        i < words_of(c.notes).len() ==> exists|raw: Seq<char>|
            words_of(c.notes)[i] == "announce="@ + raw && #[trigger] parsed_date(raw) == Some(day),
        i == words_of(c.notes).len() ==> day * 86_400 <= c.window_end.secs < (day + 1) * 86_400,
    ensures
        announced(c) == day,
{
    let ws = words_of(c.notes);
    lemma_none_announced(ws, i);
    if i < ws.len() {
        let raw = choose|raw: Seq<char>|
            ws[i] == "announce="@ + raw && #[trigger] parsed_date(raw) == Some(day);
        let p = "announce="@;
        assert(ws[i].subrange(0, p.len() as int) =~= p);
        assert(ws[i].subrange(p.len() as int, ws[i].len() as int) =~= raw);
        assert(announced_by(ws[i]) == Some(day));
        let next = ws.subrange(0, i + 1);
        assert(next.drop_last() =~= ws.subrange(0, i));
        assert(next.last() == ws[i]);
        lemma_first_announced_stays(ws, i + 1);
    } else {
        assert(ws.subrange(0, i) =~= ws);
    }
}

proof fn lemma_none_announced(ws: Seq<Seq<char>>, n: int)
    requires
        0 <= n <= ws.len(),
        forall|j: int| 0 <= j < n ==> announced_by(#[trigger] ws[j]) is None,
    ensures
        first_announced(ws.subrange(0, n)) is None,
    decreases n,
{
    if n > 0 {
        lemma_none_announced(ws, n - 1);
        assert(ws.subrange(0, n).drop_last() =~= ws.subrange(0, n - 1));
        assert(ws.subrange(0, n).last() == ws[n - 1]);
    }
}

/// A word gives no day unless it begins with `announce=`.
pub proof fn other_words_announce_nothing(word: Seq<char>)
    requires
        word.len() < 9 || word.subrange(0, 9) != "announce="@,
    ensures
        announced_by(word) is None,
{
    reveal_strlit("announce=");
    assert("announce="@.len() == 9);
}

/// Leads have the ranges of days that their names say; days behind the announcement have one of
/// their own.
pub proof fn leads_have_their_ranges(d: int)
    ensures
        d > 365 ==> bucket(Some(d), true) == ">365"@,
        181 <= d <= 365 ==> bucket(Some(d), true) == "181-365"@,
        91 <= d <= 180 ==> bucket(Some(d), true) == "91-180"@,
        31 <= d <= 90 ==> bucket(Some(d), true) == "31-90"@,
        8 <= d <= 30 ==> bucket(Some(d), true) == "8-30"@,
        1 <= d <= 7 ==> bucket(Some(d), true) == "1-7"@,
        d == 0 ==> bucket(Some(d), true) == "0"@,
        d < 0 ==> bucket(Some(d), true) == "post-announce"@,
        bucket(Some(d), false) == "miss"@,
        bucket(None, true) == "miss"@ && bucket(None, false) == "miss"@,
{
}

/// The row of a case says what the case is, what its results against features and events are, and
/// what was found of its pair; and whether its second network, or its first where it has no other,
/// had a step of its footprint in the window.
pub proof fn rows_say_what_was_found(
    cases: Seq<CaseView>,
    features: Seq<FeatureView>,
    events: Seq<EventView>,
    i: int,
)
    requires
        0 <= i < cases.len(),
    ensures
        rows_of(cases, features, events).len() == cases.len(),
        ({
            let c = cases[i];
            let row = rows_of(cases, features, events)[i];
            let found = contact_of(c, features, events);
            let target = if c.asn_b is Some {
                c.asn_b
            } else {
                Some(c.asn_a)
            };
            &&& row.id == c.id && row.asn_a == c.asn_a && row.asn_b == c.asn_b
            &&& row.expect_hit == c.expect_hit
            &&& row.expect_kind == kind_text(c.expect_kind)
            &&& row.announce_end == rfc3339_text(
                c.window_end.secs as int,
                c.window_end.nanos as int,
            )
            &&& row.feature_hit == feature_results(cases, features)[i].hit
            &&& row.passed_feature == feature_results(cases, features)[i].passed
            &&& row.detail == feature_results(cases, features)[i].matched_detail
            &&& row.event_hit == event_results(cases, events)[i].hit
            &&& row.pair_contact_hit == found.0 && row.lead_days == found.1 && row.first_seen
                == found.2
            &&& row.horizon_bucket == bucket(found.1, found.0)
            &&& row.target_footprint_hit <==> exists|j: int|
                0 <= j < events.len() && (#[trigger] events[j]).kind == MaEventKind::FootprintStep
                    && events[j].asn_a == target && !earlier(events[j].timestamp, c.window_start)
                    && !earlier(c.window_end, events[j].timestamp)
        }),
{
    let c = cases[i];
    let target = if c.asn_b is Some {
        c.asn_b
    } else {
        Some(c.asn_a)
    };
    if exists|j: int| 0 <= j < events.len() && is_target_step(#[trigger] events[j], c) {
        let j = choose|j: int| 0 <= j < events.len() && is_target_step(#[trigger] events[j], c);
        assert(events[j].kind == MaEventKind::FootprintStep && events[j].asn_a == target);
    }
    if exists|j: int|
        0 <= j < events.len() && (#[trigger] events[j]).kind == MaEventKind::FootprintStep
            && events[j].asn_a == target && !earlier(events[j].timestamp, c.window_start)
            && !earlier(c.window_end, events[j].timestamp) {
        let j = choose|j: int|
            0 <= j < events.len() && (#[trigger] events[j]).kind == MaEventKind::FootprintStep
                && events[j].asn_a == target && !earlier(events[j].timestamp, c.window_start)
                && !earlier(c.window_end, events[j].timestamp);
        assert(is_target_step(events[j], c));
    }
}

/// A case is in scope of a backtest just where its window ends no earlier than midnight of the
/// first day and begins no later than the last second of the last day.
pub proof fn scopes_are_whole_days(c: CaseView, first: int, last: int)
    ensures
        in_scope(c, first, last) <==> (c.window_end.secs >= first * 86_400 && (c.window_start.secs
            < last * 86_400 + 86_399 || (c.window_start.secs == last * 86_400 + 86_399
            && c.window_start.nanos == 0))),
{
}

/// Every day of the window that lies a whole number of steps behind its first is sampled, and so is
/// its last day; no other day is.
pub proof fn samples_are_steps_and_the_last_day(start: int, days: int, step: int, day: int)
    requires
        days >= 1,
        step >= 1,
    ensures
        samples(start, days, step).contains(day) <==> (start <= day < start + days && (day - start)
            % step == 0) || day == start + days - 1,
{
    let n = sample_count(days, step);
    let regular = Seq::new(n as nat, |k: int| start + k * step);
    let s = samples(start, days, step);
    assert(n >= 1) by (nonlinear_arith)
        requires
            n == (days + step - 1) / step,
            days >= 1,
            step >= 1,
    ;
    lemma_sample_bounds(days, step, n - 1);
    assert(n * step >= days) by (nonlinear_arith)
        requires
            n == (days + step - 1) / step,
            step >= 1,
    ;
    assert(regular.contains(day) <==> start <= day < start + days && (day - start) % step == 0) by {
        if regular.contains(day) {
            let k = choose|k: int| 0 <= k < n && regular[k] == day;
            assert(k * step <= (n - 1) * step) by (nonlinear_arith)
                requires
                    k <= n - 1,
                    step >= 1,
            ;
            assert(k * step >= 0) by (nonlinear_arith)
                requires
                    k >= 0,
                    step >= 1,
            ;
            vstd::arithmetic::div_mod::lemma_mod_multiples_basic(k, step);
        }
        if start <= day < start + days && (day - start) % step == 0 {
            let k = (day - start) / step;
            vstd::arithmetic::div_mod::lemma_fundamental_div_mod(day - start, step);
            assert(step * k == k * step) by (nonlinear_arith);
            assert(0 <= k < n) by (nonlinear_arith)
                requires
                    day - start == k * step,
                    0 <= day - start < days,
                    n * step >= days,
                    step >= 1,
            ;
            assert(regular[k] == day);
        }
    }
    if regular.last() == start + days - 1 {
        assert(regular[n - 1] == start + days - 1);
    } else {
        lemma_seq_contains_after_push(regular, start + days - 1, day);
    }
}

/// The days tried for a sample are those at most three days away, the nearer before the farther and
/// the earlier before the later.
pub proof fn tries_are_near(day: int)
    requires
        day_in_range(day - 3) && day_in_range(day + 3),
    ensures
        tries(day) == seq![day, day - 1, day + 1, day - 2, day + 2, day - 3, day + 3],
{
    reveal(Seq::filter);
    let all = try_order().map_values(|d: int| day + d);
    let want = seq![day, day - 1, day + 1, day - 2, day + 2, day - 3, day + 3];
    assert(all =~= want);
    lemma_all_kept(all, |d: int| day_in_range(d));
}

proof fn lemma_all_kept(s: Seq<int>, keep: spec_fn(int) -> bool)
    requires
        forall|i: int| 0 <= i < s.len() ==> keep(#[trigger] s[i]),
    ensures
        s.filter(keep) == s,
    decreases s.len(),
{
    reveal(Seq::filter);
    if s.len() > 0 {
        let rest = s.drop_last();
        assert forall|i: int| 0 <= i < rest.len() implies keep(#[trigger] rest[i]) by {
            assert(rest[i] == s[i]);
        }
        lemma_all_kept(rest, keep);
        assert(keep(s[s.len() - 1]));
        assert(rest.push(s.last()) =~= s);
    } else {
        assert(s.filter(keep) =~= s);
    }
}

/// A list of networks with commas between them, and blanks around them, is the set of these
/// networks; empty parts name none, and a part that is no number is refused.
pub proof fn focus_lists_name_networks(part: Seq<char>, asn: u32)
    ensures
        trimmed(part) == decimal(asn as nat) ==> focus_part(part) == Some(Some(asn as nat)),
        trimmed(part).len() == 0 ==> focus_part(part) == Some(None::<nat>),
        trimmed(part).len() > 0 && !(exists|i: int|
            0 <= i < trimmed(part).len() && is_digit(#[trigger] trimmed(part)[i])) ==> focus_part(
            part,
        ) is None,
{
    parse_undoes_format(asn as nat, u32::MAX as nat);
    decimal_is_digits(asn as nat);
    let t = trimmed(part);
    if t.len() > 0 && !(exists|i: int| 0 <= i < t.len() && is_digit(#[trigger] t[i])) {
        let d = crate::text::without_plus(t);
        if d.len() > 0 {
            assert(d[0] == t[0] || d[0] == t[1]);
            assert(!is_digit(d[0]));
        }
    }
}

/// A focus list names a network just where one of its parts is the network's number; cases name the
/// networks that stand first or second in one of them.
pub proof fn focus_is_what_is_named(parts: Seq<Seq<char>>, cases: Seq<CaseView>, asn: u32)
    ensures
        focus_asns(parts).contains(asn) <==> exists|i: int|
            0 <= i < parts.len() && trimmed(#[trigger] parts[i]).len() > 0 && number_in(
                trimmed(parts[i]),
                u32::MAX as nat,
            ) == Some(asn as nat),
        case_asns(cases).contains(asn) <==> exists|i: int|
            0 <= i < cases.len() && ((#[trigger] cases[i]).asn_a == asn || cases[i].asn_b == Some(
                asn,
            )),
{
    if focus_asns(parts).contains(asn) {
        let i = choose|i: int|
            0 <= i < parts.len() && focus_part(#[trigger] parts[i]) == Some(Some(asn as nat));
        assert(trimmed(parts[i]).len() > 0);
    }
    if exists|i: int|
        0 <= i < parts.len() && trimmed(#[trigger] parts[i]).len() > 0 && number_in(
            trimmed(parts[i]),
            u32::MAX as nat,
        ) == Some(asn as nat) {
        let i = choose|i: int|
            0 <= i < parts.len() && trimmed(#[trigger] parts[i]).len() > 0 && number_in(
                trimmed(parts[i]),
                u32::MAX as nat,
            ) == Some(asn as nat);
        assert(focus_part(parts[i]) == Some(Some(asn as nat)));
    }
}

} // verus!
