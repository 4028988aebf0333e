//! What changed between two snapshots.

use crate::detect::{collapse, collapsed, prepending_hides_no_neighbours};
use crate::events::{
    canon_pair, event_views, pack, packed, packed_injective, pair_of, AsnPair, EventView, MaEvent,
    MaEventKind,
};
use crate::glue::{default_heuristics, GlueSet, SubjectHeuristics};
use crate::orgs::{copy_texts, count_of, opt_text, subjects_of, OrgMap, OrgState};
use crate::snapshot::{
    counts_fit, origin_count, origin_counts_are_counts, ObsView, RibSnapshot,
};
use crate::text::{
    all_digits, chars_of, decimal, digits_value, format_i64, format_u64, is_decimal, is_digit,
    joined, parse_u64, same_text, signed_decimal, split_char, split_on, split_undoes_join, texts,
};
use crate::time::Instant;
use std::collections::{HashMap, HashSet};
use vstd::prelude::*;
use vstd::seq_lib::{lemma_seq_concat_contains_all_elements, lemma_seq_contains_after_push};
use vstd::string::StringExecFns;

verus! {

broadcast use vstd::std_specs::hash::group_hash_axioms;

/// A ratio of two numbers; one over zero is larger than any other.
#[derive(Clone, Copy, Debug, PartialEq, Eq, Structural)]
pub struct Ratio {
    pub num: u64,
    pub den: u64,
}

/// How snapshots are compared.
#[derive(Clone, Copy, Debug, PartialEq, Eq, Structural)]
pub struct DiffConfig {
    pub heuristics: SubjectHeuristics,
    /// Change of the number of prefixes, relative to what it was, from which on it is a step.
    pub footprint_rel_threshold: Ratio,
    /// Change of the number of prefixes below which it is never a step.
    pub footprint_abs_threshold: u32,
}

impl Default for DiffConfig {
    fn default() -> (r: Self)
        ensures
            r.heuristics == default_heuristics(),
            r.footprint_rel_threshold == (Ratio { num: 1, den: 4 }),
            r.footprint_abs_threshold == 5,
    {
        DiffConfig {
            heuristics: SubjectHeuristics::default(),
            footprint_rel_threshold: Ratio { num: 1, den: 4 },
            footprint_abs_threshold: 5,
        }
    }
}

/// Ten to a power.
pub open spec fn ten_to(n: nat) -> nat
    decreases n,
{
    if n == 0 {
        1
    } else {
        10 * ten_to((n - 1) as nat)
    }
}

/// The ratio that a decimal number spells: digits, with or without a point and digits behind it.
pub open spec fn ratio_text(s: Seq<char>) -> Option<(nat, nat)> {
    let parts = split_on(s, '.');
    if parts.len() == 1 && parts[0].len() > 0 && all_digits(parts[0]) {
        Some((digits_value(parts[0]), 1))
    } else if parts.len() == 2 && parts[0].len() > 0 && all_digits(parts[0]) && parts[1].len() > 0
        && all_digits(parts[1]) {
        Some((digits_value(parts[0] + parts[1]), ten_to(parts[1].len())))
    } else {
        None
    }
}

/// Reads a decimal number as a ratio, where both of its numbers fit.
pub fn parse_ratio(text: &str) -> (r: Option<Ratio>)
    ensures
        match r {
            Some(q) => ratio_text(text@) == Some((q.num as nat, q.den as nat)),
            None => match ratio_text(text@) {
                Some((num, den)) => num > u64::MAX || den > u64::MAX,
                None => true,
            },
        },
{
    let parts = split_char(text, '.');
    let ghost all = texts(parts@);
    if parts.len() == 1 {
        assert(all[0] == parts@[0]@);
        return match digits_of(parts[0].as_str()) {
            Some(n) => Some(Ratio { num: n, den: 1 }),
            None => None,
        };
    }
    if parts.len() != 2 {
        return None;
    }
    assert(all[0] == parts@[0]@);
    assert(all[1] == parts@[1]@);
    let len: usize = chars_of(parts[1].as_str()).len();
    if chars_of(parts[0].as_str()).len() == 0 || len == 0 || !is_decimal(parts[0].as_str())
        || !is_decimal(parts[1].as_str()) {
        return None;
    }
    let mut digits: String = parts[0].clone();
    digits.append(parts[1].as_str());
    assert(all_digits(digits@)) by {
        assert forall|i: int| 0 <= i < digits@.len() implies is_digit(#[trigger] digits@[i]) by {
            if i < all[0].len() {
                assert(digits@[i] == all[0][i]);
            } else {
                assert(digits@[i] == all[1][i - all[0].len()]);
            }
        }
    }
    let num: u64 = match digits_of(digits.as_str()) {
        Some(n) => n,
        None => {
            return None;
        },
    };
    let mut den: u64 = 1;
    let mut i: usize = 0;
    while i < len
        invariant
            i <= len,
            den == ten_to(i as nat),
            den >= 1,
            len == all[1].len(),
            ratio_text(text@) == Some((num as nat, ten_to(len as nat))),
        decreases len - i,
    {
        if den > u64::MAX / 10 {
            proof {
                lemma_ten_to_grows((i + 1) as nat, len as nat);
            }
            return None;
        }
        den = den * 10;
        i += 1;
    }
    Some(Ratio { num, den })
}

proof fn lemma_ten_to_grows(a: nat, b: nat)
    requires
        a <= b,
    ensures
        ten_to(a) <= ten_to(b),
    decreases b - a,
{
    if a < b {
        lemma_ten_to_grows(a, (b - 1) as nat);
    }
}

fn digits_of(s: &str) -> (r: Option<u64>)
    ensures
        match r {
            Some(n) => s@.len() > 0 && all_digits(s@) && digits_value(s@) == n,
            None => s@.len() == 0 || !all_digits(s@) || digits_value(s@) > u64::MAX,
        },
{
    if chars_of(s).len() == 0 || !is_decimal(s) {
        return None;
    }
    assert(is_digit(s@[0]));
    parse_u64(s)
}

// ---- snapshots as compared ----

/// What a comparison reads of a snapshot.
#[verifier::ext_equal]
pub struct Snap {
    pub as_of: Instant,
    pub keys: Seq<Seq<char>>,
    pub seen: Seq<ObsView>,
    pub obs: Map<Seq<char>, ObsView>,
}

/// What a comparison reads of a snapshot.
pub open spec fn snap_of(s: RibSnapshot) -> Snap {
    Snap { as_of: s.as_of, keys: s.keys(), seen: s.seen(), obs: s.obs() }
}

/// What a comparison goes by.
#[verifier::ext_equal]
pub struct DiffContext {
    pub orgs: OrgState,
    pub glue: Set<u32>,
    pub subjects: Set<u32>,
    pub as_of: Instant,
}

/// The identifier of a network's organization.
pub open spec fn org_id_of(st: OrgState, asn: u32) -> Option<Seq<char>> {
    match st.org_of(asn) {
        Some(o) => Some(o.org_id),
        None => None,
    }
}

/// The domains of a network's organization.
pub open spec fn domains_of(st: OrgState, asn: u32) -> Seq<Seq<char>> {
    match st.org_of(asn) {
        Some(o) => o.domains,
        None => Seq::empty(),
    }
}

/// An event between two networks, with their organizations.
pub open spec fn contact(
    kind: MaEventKind,
    c: DiffContext,
    a: u32,
    b: u32,
    prefix: Option<Seq<char>>,
    detail: Seq<char>,
) -> EventView {
    EventView {
        kind,
        timestamp: c.as_of,
        org_a: org_id_of(c.orgs, a),
        org_b: org_id_of(c.orgs, b),
        asn_a: Some(a),
        asn_b: Some(b),
        domains_a: domains_of(c.orgs, a),
        domains_b: domains_of(c.orgs, b),
        prefix,
        detail,
    }
}

/// The identifier of a network's organization.
pub fn org_id_for(org_map: &OrgMap, asn: u32) -> (r: Option<String>)
    requires
        org_map.wf(),
    ensures
        opt_text(r) == org_id_of(org_map.state(), asn),
{
    match org_map.org_for_asn(asn) {
        Some(o) => Some(o.org_id.clone()),
        None => None,
    }
}

/// The domains of a network's organization.
pub fn domains_for(org_map: &OrgMap, asn: u32) -> (r: Vec<String>)
    requires
        org_map.wf(),
    ensures
        texts(r@) == domains_of(org_map.state(), asn),
{
    match org_map.org_for_asn(asn) {
        Some(o) => copy_texts(&o.domains),
        None => {
            let v: Vec<String> = Vec::new();
            assert(texts(v@) =~= Seq::empty());
            v
        },
    }
}

fn contact_event(
    kind: MaEventKind,
    as_of: Instant,
    org_map: &OrgMap,
    a: u32,
    b: u32,
    prefix: Option<String>,
    detail: String,
    c: Ghost<DiffContext>,
) -> (r: MaEvent)
    requires
        org_map.wf(),
        c@.orgs == org_map.state(),
        c@.as_of == as_of,
    ensures
        r@ == contact(kind, c@, a, b, opt_text(prefix), detail@),
{
    MaEvent {
        kind,
        timestamp: as_of,
        org_a: org_id_for(org_map, a),
        org_b: org_id_for(org_map, b),
        asn_a: Some(a),
        asn_b: Some(b),
        domains_a: domains_for(org_map, a),
        domains_b: domains_for(org_map, b),
        prefix,
        detail,
    }
}

// ---- first appearances ----

/// The items of `after` that `before` does not hold, each where it appears first.
pub open spec fn fresh<A>(before: Seq<A>, after: Seq<A>) -> Seq<A>
    decreases after.len(),
{
    if after.len() == 0 {
        Seq::empty()
    } else {
        let head = fresh(before, after.drop_last());
        let x = after.last();
        if before.contains(x) || after.drop_last().contains(x) {
            head
        } else {
            head.push(x)
        }
    }
}

/// Fresh items are just those of the second list that the first does not hold, each once.
pub proof fn fresh_items<A>(before: Seq<A>, after: Seq<A>)
    ensures
        fresh(before, after).no_duplicates(),
        forall|x: A| #[trigger]
            fresh(before, after).contains(x) <==> after.contains(x) && !before.contains(x),
    decreases after.len(),
{
    if after.len() > 0 {
        let rest = after.drop_last();
        let last = after.last();
        fresh_items(before, rest);
        let head = fresh(before, rest);
        let out = fresh(before, after);
        assert(after[after.len() - 1] == last);
        assert forall|x: A| #[trigger] out.contains(x) <==> after.contains(x) && !before.contains(
            x,
        ) by {
            if rest.contains(x) {
                let i = choose|i: int| 0 <= i < rest.len() && rest[i] == x;
                assert(after[i] == x);
            }
            if after.contains(x) && x != last {
                let i = choose|i: int| 0 <= i < after.len() && after[i] == x;
                assert(rest[i] == x);
            }
            if head.contains(x) {
                let i = choose|i: int| 0 <= i < head.len() && head[i] == x;
                assert(out[i] == x);
            }
            if !(before.contains(last) || rest.contains(last)) {
                assert(out[head.len() as int] == last);
                if out.contains(x) && x != last {
                    let i = choose|i: int| 0 <= i < out.len() && out[i] == x;
                    assert(head[i] == x);
                }
            }
        }
        if !(before.contains(last) || rest.contains(last)) {
            assert(!head.contains(last));
            assert forall|i: int, j: int|
                0 <= i < out.len() && 0 <= j < out.len() && i != j implies out[i] != out[j] by {
                if i == head.len() {
                    assert(head.contains(head[j]));
                }
                if j == head.len() {
                    assert(head.contains(head[i]));
                }
            }
        }
    }
}

fn fresh_pairs(before: &[AsnPair], after: &[AsnPair]) -> (r: Vec<AsnPair>)
    ensures
        r@ == fresh(before@, after@),
{
    let mut known: HashSet<u64> = HashSet::new();
    let mut i: usize = 0;
    while i < before.len()
        invariant
            i <= before@.len(),
            forall|p: AsnPair| #[trigger]
                known@.contains(packed(p)) <==> before@.subrange(0, i as int).contains(p),
        decreases before@.len() - i,
    {
        let p = before[i];
        let ghost was = known@;
        known.insert(pack(p.0, p.1));
        proof {
            lemma_known_step(was, known@, before@.subrange(0, i as int), p);
            assert(before@.subrange(0, i as int + 1) =~= before@.subrange(0, i as int).push(p));
        }
        i += 1;
    }
    assert(before@.subrange(0, before@.len() as int) =~= before@);
    let mut out: Vec<AsnPair> = Vec::new();
    let mut k: usize = 0;
    assert(before@ + after@.subrange(0, 0) =~= before@);
    while k < after.len()
        invariant
            k <= after@.len(),
            forall|p: AsnPair| #[trigger]
                known@.contains(packed(p)) <==> (before@ + after@.subrange(0, k as int)).contains(p),
            out@ == fresh(before@, after@.subrange(0, k as int)),
        decreases after@.len() - k,
    {
        let p = after[k];
        let ghost was = known@;
        let ghost done = after@.subrange(0, k as int);
        let ghost next = after@.subrange(0, k as int + 1);
        proof {
            assert(next.drop_last() =~= done);
            assert(next.last() == p);
            assert((before@ + done).contains(p) <==> before@.contains(p) || done.contains(p)) by {
                lemma_seq_concat_contains_all_elements(before@, done, p);
            }
        }
        let key: u64 = pack(p.0, p.1);
        if !known.contains(&key) {
            known.insert(key);
            out.push(p);
        }
        proof {
            assert(before@ + next =~= (before@ + done).push(p));
            if was.contains(packed(p)) {
                assert(was.insert(packed(p)) =~= was);
            }
            lemma_known_step(was, known@, before@ + done, p);
        }
        k += 1;
    }
    assert(after@.subrange(0, after@.len() as int) =~= after@);
    out
}

proof fn lemma_known_step(was: Set<u64>, now: Set<u64>, s: Seq<AsnPair>, p: AsnPair)
    requires
        forall|q: AsnPair| #[trigger] was.contains(packed(q)) <==> s.contains(q),
        now == was.insert(packed(p)),
    ensures
        forall|q: AsnPair| #[trigger] now.contains(packed(q)) <==> s.push(p).contains(q),
{
    assert forall|q: AsnPair| #[trigger] now.contains(packed(q)) <==> s.push(p).contains(q) by {
        packed_injective(p, q);
        lemma_seq_contains_after_push(s, p, q);
        assert(was.contains(packed(q)) <==> s.contains(q));
    }
}

fn distinct(list: &[u32]) -> (r: Vec<u32>)
    ensures
        r@ == fresh(Seq::empty(), list@),
{
    let mut known: HashSet<u32> = HashSet::new();
    let mut out: Vec<u32> = Vec::new();
    let mut k: usize = 0;
    while k < list.len()
        invariant
            k <= list@.len(),
            forall|x: u32| #[trigger]
                known@.contains(x) <==> list@.subrange(0, k as int).contains(x),
            out@ == fresh(Seq::empty(), list@.subrange(0, k as int)),
        decreases list@.len() - k,
    {
        let x: u32 = list[k];
        let ghost was = known@;
        let ghost done = list@.subrange(0, k as int);
        let ghost next = list@.subrange(0, k as int + 1);
        assert(next.drop_last() =~= done);
        assert(next.last() == x);
        if !known.contains(&x) {
            known.insert(x);
            out.push(x);
        }
        proof {
            assert(next =~= done.push(x));
            assert forall|y: u32| #[trigger] known@.contains(y) <==> next.contains(y) by {
                lemma_seq_contains_after_push(done, x, y);
                assert(was.contains(y) <==> done.contains(y));
            }
        }
        k += 1;
    }
    assert(list@.subrange(0, list@.len() as int) =~= list@);
    out
}

// ---- prefix moves ----

/// A prefix that `a` announced before is announced by `b` now, one of them a subject and neither
/// of them glue.
pub open spec fn is_move(c: DiffContext, a: u32, b: u32) -> bool {
    &&& a != b
    &&& c.subjects.contains(a) || c.subjects.contains(b)
    &&& !c.glue.contains(a)
    &&& !c.glue.contains(b)
}

/// The words for a move.
pub open spec fn move_text(a: u32, b: u32) -> Seq<char> {
    "origin "@ + decimal(a as nat) + " -> "@ + decimal(b as nat)
}

/// The moves among the first `n` prefixes of the later snapshot.
pub open spec fn moves(c: DiffContext, before: Snap, after: Snap, n: int) -> Seq<EventView>
    decreases n,
{
    if n <= 0 {
        Seq::empty()
    } else {
        let head = moves(c, before, after, n - 1);
        let k = after.keys[n - 1];
        let b = after.seen[n - 1].origin_asn;
        if before.obs.contains_key(k) && is_move(c, before.obs[k].origin_asn, b) {
            let a = before.obs[k].origin_asn;
            head.push(contact(MaEventKind::PrefixMove, c, a, b, Some(k), move_text(a, b)))
        } else {
            head
        }
    }
}

fn move_words(a: u32, b: u32) -> (r: String)
    ensures
        r@ == move_text(a, b),
{
    let mut s: String = "origin ".to_owned();
    s.append(format_u64(a as u64).as_str());
    s.append(" -> ");
    s.append(format_u64(b as u64).as_str());
    s
}

proof fn lemma_views_push(v: Seq<MaEvent>, e: MaEvent)
    ensures
        event_views(v.push(e)) == event_views(v).push(e@),
{
    assert(event_views(v.push(e)) =~= event_views(v).push(e@));
}

fn push_moves(
    events: &mut Vec<MaEvent>,
    before: &RibSnapshot,
    after: &RibSnapshot,
    org_map: &OrgMap,
    glue: &GlueSet,
    subjects: &HashSet<u32>,
    c: Ghost<DiffContext>,
)
    requires
        before.wf(),
        after.wf(),
        org_map.wf(),
        c@ == (DiffContext {
            orgs: org_map.state(),
            glue: glue@,
            subjects: subjects@,
            as_of: after.as_of,
        }),
    ensures
        event_views(final(events)@) == event_views(old(events)@) + moves(
            c@,
            snap_of(*before),
            snap_of(*after),
            after.keys().len() as int,
        ),
{
    let ghost start = event_views(events@);
    proof {
        after.lemma_wf();
        before.lemma_wf();
    }
    let n: usize = after.prefixes.len();
    let mut i: usize = 0;
    assert(start + moves(c@, snap_of(*before), snap_of(*after), 0) =~= start);
    while i < n
        invariant
            before.wf(),
            after.wf(),
            org_map.wf(),
            c@ == (DiffContext {
                orgs: org_map.state(),
                glue: glue@,
                subjects: subjects@,
                as_of: after.as_of,
            }),
            n == after.keys().len(),
            n == after.seen().len(),
            i <= n,
            event_views(events@) == start + moves(
                c@,
                snap_of(*before),
                snap_of(*after),
                i as int,
            ),
        decreases n - i,
    {
        let prefix = after.prefixes.key_at(i);
        let b: u32 = after.prefixes.value_at(i).origin_asn;
        assert(after.seen()[i as int].origin_asn == b);
        let ghost done = moves(c@, snap_of(*before), snap_of(*after), i as int);
        if let Some(o) = before.prefixes.get(prefix.as_str()) {
            let a: u32 = o.origin_asn;
            assert(before.obs()[prefix@].origin_asn == a);
            if a != b && (subjects.contains(&a) || subjects.contains(&b)) && !glue.contains(a)
                && !glue.contains(b) {
                let ev = contact_event(
                    MaEventKind::PrefixMove,
                    after.as_of,
                    org_map,
                    a,
                    b,
                    Some(prefix.clone()),
                    move_words(a, b),
                    c,
                );
                proof {
                    lemma_views_push(events@, ev);
                    assert((start + done).push(ev@) =~= start + done.push(ev@));
                }
                events.push(ev);
            }
        }
        i += 1;
    }
}

// ---- upstreams ----

/// The pairs of subject and upstream among the first `n` observations.
pub open spec fn subject_upstreams(subjects: Set<u32>, seen: Seq<ObsView>, n: int) -> Seq<AsnPair>
    decreases n,
{
    if n <= 0 {
        Seq::empty()
    } else {
        let head = subject_upstreams(subjects, seen, n - 1);
        let o = seen[n - 1];
        match o.upstream_asn {
            Some(u) => if subjects.contains(o.origin_asn) {
                head.push((o.origin_asn, u))
            } else {
                head
            },
            None => head,
        }
    }
}

/// A new upstream counts: it is a subject, or it is no glue and has an organization; and it is
/// not of the origin's organization.
pub open spec fn is_convergence(c: DiffContext, origin: u32, up: u32) -> bool {
    &&& c.subjects.contains(up) || (!c.glue.contains(up) && c.orgs.org_of(up) is Some)
    &&& !(org_id_of(c.orgs, origin) is Some && org_id_of(c.orgs, origin) == org_id_of(c.orgs, up))
}

/// The words for a new upstream.
pub open spec fn upstream_text(origin: u32, up: u32) -> Seq<char> {
    "origin "@ + decimal(origin as nat) + " gained upstream "@ + decimal(up as nat)
}

/// The convergences among new pairs of subject and upstream.
pub open spec fn convergences(c: DiffContext, pairs: Seq<AsnPair>) -> Seq<EventView>
    decreases pairs.len(),
{
    if pairs.len() == 0 {
        Seq::empty()
    } else {
        let head = convergences(c, pairs.drop_last());
        let (o, u) = pairs.last();
        if is_convergence(c, o, u) {
            head.push(
                contact(MaEventKind::UpstreamConverge, c, o, u, None, upstream_text(o, u)),
            )
        } else {
            head
        }
    }
}

fn collect_upstreams(snap: &RibSnapshot, subjects: &HashSet<u32>) -> (r: Vec<AsnPair>)
    requires
        snap.wf(),
    ensures
        r@ == subject_upstreams(subjects@, snap.seen(), snap.seen().len() as int),
{
    proof {
        snap.lemma_wf();
    }
    let n: usize = snap.prefixes.len();
    let mut out: Vec<AsnPair> = Vec::new();
    let mut i: usize = 0;
    while i < n
        invariant
            snap.wf(),
            n == snap.seen().len(),
            n == snap.keys().len(),
            i <= n,
            out@ == subject_upstreams(subjects@, snap.seen(), i as int),
        decreases n - i,
    {
        let o = snap.prefixes.value_at(i);
        assert(o@ == snap.seen()[i as int]);
        if let Some(u) = o.upstream_asn {
            if subjects.contains(&o.origin_asn) {
                out.push((o.origin_asn, u));
            }
        }
        i += 1;
    }
    out
}

fn same_org(org_map: &OrgMap, a: u32, b: u32) -> (r: bool)
    requires
        org_map.wf(),
    ensures
        r == (org_id_of(org_map.state(), a) is Some && org_id_of(org_map.state(), a) == org_id_of(
            org_map.state(),
            b,
        )),
{
    match (org_map.org_for_asn(a), org_map.org_for_asn(b)) {
        (Some(x), Some(y)) => same_text(x.org_id.as_str(), y.org_id.as_str()),
        _ => false,
    }
}

fn push_convergences(
    events: &mut Vec<MaEvent>,
    pairs: &[AsnPair],
    as_of: Instant,
    org_map: &OrgMap,
    glue: &GlueSet,
    subjects: &HashSet<u32>,
    c: Ghost<DiffContext>,
)
    requires
        org_map.wf(),
        c@ == (DiffContext {
            orgs: org_map.state(),
            glue: glue@,
            subjects: subjects@,
            as_of,
        }),
    ensures
        event_views(final(events)@) == event_views(old(events)@) + convergences(c@, pairs@),
{
    let ghost start = event_views(events@);
    let mut i: usize = 0;
    assert(start + convergences(c@, pairs@.subrange(0, 0)) =~= start);
    while i < pairs.len()
        invariant
            org_map.wf(),
            c@ == (DiffContext {
                orgs: org_map.state(),
                glue: glue@,
                subjects: subjects@,
                as_of,
            }),
            i <= pairs@.len(),
            event_views(events@) == start + convergences(c@, pairs@.subrange(0, i as int)),
        decreases pairs@.len() - i,
    {
        let (o, u) = pairs[i];
        let ghost done = convergences(c@, pairs@.subrange(0, i as int));
        proof {
            let next = pairs@.subrange(0, i as int + 1);
            assert(next.drop_last() =~= pairs@.subrange(0, i as int));
            assert(next.last() == (o, u));
        }
        let tied = subjects.contains(&u) || (!glue.contains(u) && org_map.org_for_asn(
            u,
        ).is_some());
        if tied && !same_org(org_map, o, u) {
            let mut words: String = "origin ".to_owned();
            words.append(format_u64(o as u64).as_str());
            words.append(" gained upstream ");
            words.append(format_u64(u as u64).as_str());
            let ev = contact_event(
                MaEventKind::UpstreamConverge,
                as_of,
                org_map,
                o,
                u,
                None,
                words,
                c,
            );
            proof {
                lemma_views_push(events@, ev);
                assert((start + done).push(ev@) =~= start + done.push(ev@));
            }
            events.push(ev);
        }
        i += 1;
    }
    assert(pairs@.subrange(0, pairs@.len() as int) =~= pairs@);
}

// ---- adjacencies ----

/// Two neighbours are both subjects and neither of them is glue.
pub open spec fn is_watched(subjects: Set<u32>, glue: Set<u32>, a: u32, b: u32) -> bool {
    a != b && !glue.contains(a) && !glue.contains(b) && subjects.contains(a) && subjects.contains(b)
}

/// The pairs of watched neighbours among the first `n` steps of a path.
pub open spec fn watched_steps(
    subjects: Set<u32>,
    glue: Set<u32>,
    path: Seq<u32>,
    n: int,
) -> Seq<AsnPair>
    decreases n,
{
    if n <= 0 {
        Seq::empty()
    } else {
        let head = watched_steps(subjects, glue, path, n - 1);
        let (a, b) = (path[n - 1], path[n]);
        if is_watched(subjects, glue, a, b) {
            head.push(pair_of(a, b))
        } else {
            head
        }
    }
}

/// The pairs of watched neighbours on an AS path, prepending aside.
pub open spec fn adjacencies(subjects: Set<u32>, glue: Set<u32>, path: Seq<u32>) -> Seq<AsnPair> {
    let p = collapsed(path);
    watched_steps(subjects, glue, p, p.len() - 1)
}

/// The pairs of watched neighbours on the paths of the first `n` observations.
pub open spec fn all_adjacencies(
    subjects: Set<u32>,
    glue: Set<u32>,
    seen: Seq<ObsView>,
    n: int,
) -> Seq<AsnPair>
    decreases n,
{
    if n <= 0 {
        Seq::empty()
    } else {
        all_adjacencies(subjects, glue, seen, n - 1) + adjacencies(
            subjects,
            glue,
            seen[n - 1].as_path,
        )
    }
}

/// The words for a new adjacency.
pub open spec fn adjacency_text(a: u32, b: u32) -> Seq<char> {
    "new subject adjacency "@ + decimal(a as nat) + "-"@ + decimal(b as nat)
}

/// The events for new adjacencies.
pub open spec fn adjacency_events(c: DiffContext, pairs: Seq<AsnPair>) -> Seq<EventView> {
    Seq::new(
        pairs.len(),
        |i: int|
            contact(
                MaEventKind::NewAdj,
                c,
                pairs[i].0,
                pairs[i].1,
                None,
                adjacency_text(pairs[i].0, pairs[i].1),
            ),
    )
}

/// Adds the pairs of watched neighbours on an AS path.
fn watchlist_adjacencies(
    out: &mut Vec<AsnPair>,
    path: &[u32],
    subjects: &HashSet<u32>,
    glue: &GlueSet,
)
    ensures
        final(out)@ == old(out)@ + adjacencies(subjects@, glue@, path@),
{
    let ghost start = out@;
    let p = collapse(path);
    let mut i: usize = 0;
    assert(start + watched_steps(subjects@, glue@, p@, 0) =~= start);
    if p.len() == 0 {
        assert(adjacencies(subjects@, glue@, path@) =~= Seq::empty());
        return;
    }
    while i < p.len() - 1
        invariant
            1 <= p@.len(),
            p@ == collapsed(path@),
            i <= p@.len() - 1,
            out@ == start + watched_steps(subjects@, glue@, p@, i as int),
        decreases p@.len() - i,
    {
        let a: u32 = p[i];
        let b: u32 = p[i + 1];
        if a != b && !glue.contains(a) && !glue.contains(b) && subjects.contains(&a)
            && subjects.contains(&b) {
            let ghost done = watched_steps(subjects@, glue@, p@, i as int);
            out.push(canon_pair(a, b));
            assert((start + done).push(pair_of(a, b)) =~= start + done.push(pair_of(a, b)));
        }
        i += 1;
    }
}

fn collect_adjacencies(snap: &RibSnapshot, subjects: &HashSet<u32>, glue: &GlueSet) -> (r: Vec<
    AsnPair,
>)
    requires
        snap.wf(),
    ensures
        r@ == all_adjacencies(subjects@, glue@, snap.seen(), snap.seen().len() as int),
{
    proof {
        snap.lemma_wf();
    }
    let n: usize = snap.prefixes.len();
    let mut out: Vec<AsnPair> = Vec::new();
    let mut i: usize = 0;
    while i < n
        invariant
            snap.wf(),
            n == snap.seen().len(),
            n == snap.keys().len(),
            i <= n,
            out@ == all_adjacencies(subjects@, glue@, snap.seen(), i as int),
        decreases n - i,
    {
        let o = snap.prefixes.value_at(i);
        assert(o@ == snap.seen()[i as int]);
        watchlist_adjacencies(&mut out, o.as_path.as_slice(), subjects, glue);
        i += 1;
    }
    out
}

fn push_adjacencies(
    events: &mut Vec<MaEvent>,
    pairs: &[AsnPair],
    as_of: Instant,
    org_map: &OrgMap,
    c: Ghost<DiffContext>,
)
    requires
        org_map.wf(),
        c@.orgs == org_map.state(),
        c@.as_of == as_of,
    ensures
        event_views(final(events)@) == event_views(old(events)@) + adjacency_events(c@, pairs@),
{
    let ghost start = event_views(events@);
    let mut i: usize = 0;
    assert(start + adjacency_events(c@, pairs@.subrange(0, 0)) =~= start);
    while i < pairs.len()
        invariant
            org_map.wf(),
            c@.orgs == org_map.state(),
            c@.as_of == as_of,
            i <= pairs@.len(),
            event_views(events@) == start + adjacency_events(c@, pairs@.subrange(0, i as int)),
        decreases pairs@.len() - i,
    {
        let (a, b) = pairs[i];
        let ghost done = adjacency_events(c@, pairs@.subrange(0, i as int));
        let mut words: String = "new subject adjacency ".to_owned();
        words.append(format_u64(a as u64).as_str());
        words.append("-");
        words.append(format_u64(b as u64).as_str());
        let ev = contact_event(MaEventKind::NewAdj, as_of, org_map, a, b, None, words, c);
        proof {
            lemma_views_push(events@, ev);
            assert(adjacency_events(c@, pairs@.subrange(0, i as int + 1)) =~= done.push(ev@));
            assert((start + done).push(ev@) =~= start + done.push(ev@));
        }
        events.push(ev);
        i += 1;
    }
    assert(pairs@.subrange(0, pairs@.len() as int) =~= pairs@);
}

// ---- footprints ----

/// The absolute value of a number.
pub open spec fn magnitude(x: int) -> int {
    if x < 0 {
        -x
    } else {
        x
    }
}

/// A number of prefixes changed by a step: by no less than the absolute threshold, and either by
/// no less than the relative one or by no less than four times the absolute one.
pub open spec fn is_step(cfg: DiffConfig, before: nat, after: nat) -> bool {
    let d = magnitude(after - before);
    let base = if before == 0 {
        1
    } else {
        before
    };
    &&& d >= cfg.footprint_abs_threshold
    &&& d * cfg.footprint_rel_threshold.den >= cfg.footprint_rel_threshold.num * base || d >= 4
        * cfg.footprint_abs_threshold
}

/// The words for a step.
pub open spec fn step_text(before: nat, after: nat) -> Seq<char> {
    "prefix_count "@ + decimal(before) + " -> "@ + decimal(after) + " (delta "@ + signed_decimal(
        after - before,
    ) + ")"@
}

/// The event for a step.
pub open spec fn step_event(c: DiffContext, origin: u32, before: nat, after: nat) -> EventView {
    EventView {
        kind: MaEventKind::FootprintStep,
        timestamp: c.as_of,
        org_a: org_id_of(c.orgs, origin),
        org_b: None,
        asn_a: Some(origin),
        asn_b: None,
        domains_a: domains_of(c.orgs, origin),
        domains_b: Seq::empty(),
        prefix: None,
        detail: step_text(before, after),
    }
}

/// The origins of observations.
pub open spec fn origins(seen: Seq<ObsView>) -> Seq<u32> {
    Seq::new(seen.len(), |i: int| seen[i].origin_asn)
}

/// The steps of subjects among these origins.
pub open spec fn steps(
    c: DiffContext,
    cfg: DiffConfig,
    before: Seq<ObsView>,
    after: Seq<ObsView>,
    list: Seq<u32>,
) -> Seq<EventView>
    decreases list.len(),
{
    if list.len() == 0 {
        Seq::empty()
    } else {
        let head = steps(c, cfg, before, after, list.drop_last());
        let o = list.last();
        let (b, a) = (origin_count(before, o), origin_count(after, o));
        if c.subjects.contains(o) && is_step(cfg, b, a) {
            head.push(step_event(c, o, b, a))
        } else {
            head
        }
    }
}

fn collect_origins(out: &mut Vec<u32>, snap: &RibSnapshot)
    requires
        snap.wf(),
    ensures
        final(out)@ == old(out)@ + origins(snap.seen()),
{
    let ghost start = out@;
    proof {
        snap.lemma_wf();
    }
    let n: usize = snap.prefixes.len();
    let mut i: usize = 0;
    while i < n
        invariant
            snap.wf(),
            n == snap.seen().len(),
            n == snap.keys().len(),
            i <= n,
            out@ == start + origins(snap.seen()).subrange(0, i as int),
        decreases n - i,
    {
        out.push(snap.prefixes.value_at(i).origin_asn);
        i += 1;
        assert(out@ =~= start + origins(snap.seen()).subrange(0, i as int));
    }
    assert(origins(snap.seen()).subrange(0, n as int) =~= origins(snap.seen()));
}

fn step_reached(cfg: &DiffConfig, before: u32, after: u32) -> (r: bool)
    ensures
        r == is_step(*cfg, before as nat, after as nat),
{
    let d: u64 = if after >= before {
        (after - before) as u64
    } else {
        (before - after) as u64
    };
    if d < cfg.footprint_abs_threshold as u64 {
        return false;
    }
    let base: u64 = if before == 0 {
        1
    } else {
        before as u64
    };
    let den: u64 = cfg.footprint_rel_threshold.den;
    let num: u64 = cfg.footprint_rel_threshold.num;
    assert(d * den <= 0xffff_ffff * 0xffff_ffff_ffff_ffff) by (nonlinear_arith)
        requires
            d <= 0xffff_ffff,
            den <= 0xffff_ffff_ffff_ffff,
    ;
    assert(num * base <= 0xffff_ffff_ffff_ffff * 0xffff_ffff) by (nonlinear_arith)
        requires
            base <= 0xffff_ffff,
            num <= 0xffff_ffff_ffff_ffff,
    ;
    d as u128 * den as u128 >= num as u128 * base as u128 || d >= 4
        * cfg.footprint_abs_threshold as u64
}

fn count_at(counts: &HashMap<u32, u32>, origin: u32) -> (r: u32)
    ensures
        r == count_of(counts@, origin),
{
    match counts.get(&origin) {
        Some(c) => *c,
        None => 0,
    }
}

fn push_steps(
    events: &mut Vec<MaEvent>,
    before: &RibSnapshot,
    after: &RibSnapshot,
    org_map: &OrgMap,
    subjects: &HashSet<u32>,
    cfg: &DiffConfig,
    c: Ghost<DiffContext>,
)
    requires
        before.wf(),
        after.wf(),
        counts_fit(before.seen()),
        counts_fit(after.seen()),
        org_map.wf(),
        c@.orgs == org_map.state(),
        c@.subjects == subjects@,
        c@.as_of == after.as_of,
    ensures
        event_views(final(events)@) == event_views(old(events)@) + steps(
            c@,
            *cfg,
            before.seen(),
            after.seen(),
            fresh(Seq::empty(), origins(before.seen()) + origins(after.seen())),
        ),
{
    let ghost start = event_views(events@);
    let before_counts = before.prefix_count_by_origin();
    let after_counts = after.prefix_count_by_origin();
    let mut all: Vec<u32> = Vec::new();
    collect_origins(&mut all, before);
    collect_origins(&mut all, after);
    assert(all@ =~= origins(before.seen()) + origins(after.seen()));
    let list = distinct(&all);
    let mut i: usize = 0;
    assert(start + steps(c@, *cfg, before.seen(), after.seen(), list@.subrange(0, 0)) =~= start);
    while i < list.len()
        invariant
            org_map.wf(),
            c@.orgs == org_map.state(),
            c@.subjects == subjects@,
            c@.as_of == after.as_of,
            forall|o: u32| #[trigger]
                count_of(before_counts@, o) == origin_count(before.seen(), o),
            forall|o: u32| #[trigger]
                count_of(after_counts@, o) == origin_count(after.seen(), o),
            i <= list@.len(),
            event_views(events@) == start + steps(
                c@,
                *cfg,
                before.seen(),
                after.seen(),
                list@.subrange(0, i as int),
            ),
        decreases list@.len() - i,
    {
        let origin: u32 = list[i];
        let ghost done = steps(
            c@,
            *cfg,
            before.seen(),
            after.seen(),
            list@.subrange(0, i as int),
        );
        proof {
            let next = list@.subrange(0, i as int + 1);
            assert(next.drop_last() =~= list@.subrange(0, i as int));
            assert(next.last() == origin);
        }
        if subjects.contains(&origin) {
            let b: u32 = count_at(&before_counts, origin);
            let a: u32 = count_at(&after_counts, origin);
            if step_reached(cfg, b, a) {
                let mut words: String = "prefix_count ".to_owned();
                words.append(format_u64(b as u64).as_str());
                words.append(" -> ");
                words.append(format_u64(a as u64).as_str());
                words.append(" (delta ");
                words.append(format_i64(a as i64 - b as i64).as_str());
                words.append(")");
                let none: Vec<String> = Vec::new();
                assert(texts(none@) =~= Seq::empty());
                let ev = MaEvent {
                    kind: MaEventKind::FootprintStep,
                    timestamp: after.as_of,
                    org_a: org_id_for(org_map, origin),
                    org_b: None,
                    asn_a: Some(origin),
                    asn_b: None,
                    domains_a: domains_for(org_map, origin),
                    domains_b: none,
                    prefix: None,
                    detail: words,
                };
                proof {
                    assert(ev@ == step_event(
                        c@,
                        origin,
                        origin_count(before.seen(), origin),
                        origin_count(after.seen(), origin),
                    ));
                    lemma_views_push(events@, ev);
                    assert((start + done).push(ev@) =~= start + done.push(ev@));
                }
                events.push(ev);
            }
        }
        i += 1;
    }
    assert(list@.subrange(0, list@.len() as int) =~= list@);
}

// ---- all of it ----

/// What a comparison goes by.
pub open spec fn diff_context(
    after: Snap,
    orgs: OrgState,
    glue: Set<u32>,
    cfg: DiffConfig,
) -> DiffContext {
    DiffContext { orgs, glue, subjects: subjects_of(orgs, glue, cfg.heuristics), as_of: after.as_of }
}

/// The pairs of subject and upstream that are new.
pub open spec fn new_upstreams(c: DiffContext, before: Snap, after: Snap) -> Seq<AsnPair> {
    fresh(
        subject_upstreams(c.subjects, before.seen, before.seen.len() as int),
        subject_upstreams(c.subjects, after.seen, after.seen.len() as int),
    )
}

/// The pairs of watched neighbours that are new.
pub open spec fn new_adjacencies(c: DiffContext, before: Snap, after: Snap) -> Seq<AsnPair> {
    fresh(
        all_adjacencies(c.subjects, c.glue, before.seen, before.seen.len() as int),
        all_adjacencies(c.subjects, c.glue, after.seen, after.seen.len() as int),
    )
}

/// The events between two snapshots: moves, convergences, adjacencies, steps.
pub open spec fn diff_events(
    before: Snap,
    after: Snap,
    orgs: OrgState,
    glue: Set<u32>,
    cfg: DiffConfig,
) -> Seq<EventView> {
    let c = diff_context(after, orgs, glue, cfg);
    moves(c, before, after, after.keys.len() as int) + convergences(
        c,
        new_upstreams(c, before, after),
    ) + adjacency_events(c, new_adjacencies(c, before, after)) + steps(
        c,
        cfg,
        before.seen,
        after.seen,
        fresh(Seq::empty(), origins(before.seen) + origins(after.seen)),
    )
}

/// Compares two snapshots.
pub fn diff_snapshots(
    before: &RibSnapshot,
    after: &RibSnapshot,
    org_map: &OrgMap,
    glue: &GlueSet,
    cfg: &DiffConfig,
) -> (r: Vec<MaEvent>)
    requires
        before.wf(),
        after.wf(),
        counts_fit(before.seen()),
        counts_fit(after.seen()),
        org_map.wf(),
    ensures
        event_views(r@) == diff_events(
            snap_of(*before),
            snap_of(*after),
            org_map.state(),
            glue@,
            *cfg,
        ),
{
    let subjects = org_map.subject_asns(glue, &cfg.heuristics);
    let ghost c = diff_context(snap_of(*after), org_map.state(), glue@, *cfg);
    let mut events: Vec<MaEvent> = Vec::new();
    let ghost none = event_views(events@);
    assert(none =~= Seq::empty());
    push_moves(&mut events, before, after, org_map, glue, &subjects, Ghost(c));
    let ups_before = collect_upstreams(before, &subjects);
    let ups_after = collect_upstreams(after, &subjects);
    let ups = fresh_pairs(&ups_before, &ups_after);
    push_convergences(&mut events, &ups, after.as_of, org_map, glue, &subjects, Ghost(c));
    let adj_before = collect_adjacencies(before, &subjects, glue);
    let adj_after = collect_adjacencies(after, &subjects, glue);
    let adj = fresh_pairs(&adj_before, &adj_after);
    push_adjacencies(&mut events, &adj, after.as_of, org_map, Ghost(c));
    push_steps(&mut events, before, after, org_map, &subjects, cfg, Ghost(c));
    assert(event_views(events@) =~= diff_events(
        snap_of(*before),
        snap_of(*after),
        org_map.state(),
        glue@,
        *cfg,
    ));
    events
}


// ---- what events say ----

/// The snapshot's parts agree: each prefix's observation stands at its position.
pub open spec fn snap_wf(s: Snap) -> bool {
    &&& s.keys.len() == s.seen.len()
    &&& forall|i: int|
        0 <= i < s.keys.len() ==> s.obs.contains_key(#[trigger] s.keys[i]) && s.obs[s.keys[i]]
            == s.seen[i]
}

proof fn lemma_no_moves(c: DiffContext, s: Snap, n: int)
    requires
        snap_wf(s),
        n <= s.keys.len(),
    ensures
        moves(c, s, s, n) == Seq::<EventView>::empty(),
    decreases n,
{
    if n > 0 {
        lemma_no_moves(c, s, n - 1);
        assert(s.obs[s.keys[n - 1]] == s.seen[n - 1]);
    }
}

proof fn lemma_no_steps(c: DiffContext, cfg: DiffConfig, seen: Seq<ObsView>, list: Seq<u32>)
    requires
        cfg.footprint_abs_threshold > 0,
    ensures
        steps(c, cfg, seen, seen, list) == Seq::<EventView>::empty(),
    decreases list.len(),
{
    if list.len() > 0 {
        lemma_no_steps(c, cfg, seen, list.drop_last());
    }
}

/// Nothing happens between a snapshot and itself, as long as a change of no prefix is no step.
pub proof fn no_change_no_events(s: Snap, orgs: OrgState, glue: Set<u32>, cfg: DiffConfig)
    requires
        snap_wf(s),
        cfg.footprint_abs_threshold > 0,
    ensures
        diff_events(s, s, orgs, glue, cfg) == Seq::<EventView>::empty(),
{
    let c = diff_context(s, orgs, glue, cfg);
    lemma_no_moves(c, s, s.keys.len() as int);
    lemma_no_steps(c, cfg, s.seen, fresh(Seq::empty(), origins(s.seen) + origins(s.seen)));
    let u = subject_upstreams(c.subjects, s.seen, s.seen.len() as int);
    let a = all_adjacencies(c.subjects, c.glue, s.seen, s.seen.len() as int);
    fresh_items(u, u);
    fresh_items(a, a);
    if fresh(u, u).len() > 0 {
        assert(fresh(u, u).contains(fresh(u, u)[0]));
    }
    if fresh(a, a).len() > 0 {
        assert(fresh(a, a).contains(fresh(a, a)[0]));
    }
    assert(fresh(u, u) =~= Seq::empty());
    assert(fresh(a, a) =~= Seq::empty());
    assert(diff_events(s, s, orgs, glue, cfg) =~= Seq::empty());
}

proof fn lemma_moves_at(c: DiffContext, before: Snap, after: Snap, n: int, e: EventView)
    requires
        n <= after.keys.len(),
    ensures
        moves(c, before, after, n).contains(e) <==> exists|i: int|
            0 <= i < n && is_move_of(c, before, after, #[trigger] after.keys[i], i, e),
    decreases n,
{
    if n > 0 {
        lemma_moves_at(c, before, after, n - 1, e);
        let head = moves(c, before, after, n - 1);
        let out = moves(c, before, after, n);
        let k = after.keys[n - 1];
        let b = after.seen[n - 1].origin_asn;
        if before.obs.contains_key(k) && is_move(c, before.obs[k].origin_asn, b) {
            let a = before.obs[k].origin_asn;
            let x = contact(MaEventKind::PrefixMove, c, a, b, Some(k), move_text(a, b));
            lemma_seq_contains_after_push(head, x, e);
            if e == x {
                assert(is_move_of(c, before, after, after.keys[n - 1], n - 1, e));
            }
        }
        if exists|i: int|
            0 <= i < n && is_move_of(c, before, after, #[trigger] after.keys[i], i, e) {
            let i = choose|i: int|
                0 <= i < n && is_move_of(c, before, after, #[trigger] after.keys[i], i, e);
            if i < n - 1 {
                assert(is_move_of(c, before, after, after.keys[i], i, e));
            }
        }
        if head.contains(e) {
            let i = choose|i: int|
                0 <= i < n - 1 && is_move_of(c, before, after, #[trigger] after.keys[i], i, e);
            assert(is_move_of(c, before, after, after.keys[i], i, e));
        }
    }
}

/// `e` is the event for the move of the prefix at position `i`.
pub open spec fn is_move_of(
    c: DiffContext,
    before: Snap,
    after: Snap,
    k: Seq<char>,
    i: int,
    e: EventView,
) -> bool {
    &&& k == after.keys[i]
    &&& before.obs.contains_key(k)
    &&& is_move(c, before.obs[k].origin_asn, after.seen[i].origin_asn)
    &&& e == contact(
        MaEventKind::PrefixMove,
        c,
        before.obs[k].origin_asn,
        after.seen[i].origin_asn,
        Some(k),
        move_text(before.obs[k].origin_asn, after.seen[i].origin_asn),
    )
}

proof fn lemma_convergences_at(c: DiffContext, pairs: Seq<AsnPair>, e: EventView)
    requires
        convergences(c, pairs).contains(e),
    ensures
        exists|i: int|
            0 <= i < pairs.len() && is_convergence(c, (#[trigger] pairs[i]).0, pairs[i].1) && e
                == contact(
                MaEventKind::UpstreamConverge,
                c,
                pairs[i].0,
                pairs[i].1,
                None,
                upstream_text(pairs[i].0, pairs[i].1),
            ),
    decreases pairs.len(),
{
    let rest = pairs.drop_last();
    let head = convergences(c, rest);
    let (o, u) = pairs.last();
    let x = contact(MaEventKind::UpstreamConverge, c, o, u, None, upstream_text(o, u));
    lemma_seq_contains_after_push(head, x, e);
    assert(pairs[pairs.len() - 1] == (o, u));
    if head.contains(e) {
        lemma_convergences_at(c, rest, e);
        let i = choose|i: int|
            0 <= i < rest.len() && is_convergence(c, (#[trigger] rest[i]).0, rest[i].1) && e
                == contact(
                MaEventKind::UpstreamConverge,
                c,
                rest[i].0,
                rest[i].1,
                None,
                upstream_text(rest[i].0, rest[i].1),
            );
        assert(pairs[i] == rest[i]);
    }
}

proof fn lemma_steps_at(
    c: DiffContext,
    cfg: DiffConfig,
    before: Seq<ObsView>,
    after: Seq<ObsView>,
    list: Seq<u32>,
    e: EventView,
)
    requires
        steps(c, cfg, before, after, list).contains(e),
    ensures
        exists|o: u32|
            c.subjects.contains(o) && is_step(cfg, origin_count(before, o), origin_count(after, o))
                && e == #[trigger] step_event(
                c,
                o,
                origin_count(before, o),
                origin_count(after, o),
            ),
    decreases list.len(),
{
    let head = steps(c, cfg, before, after, list.drop_last());
    let o = list.last();
    let x = step_event(c, o, origin_count(before, o), origin_count(after, o));
    lemma_seq_contains_after_push(head, x, e);
    if head.contains(e) {
        lemma_steps_at(c, cfg, before, after, list.drop_last(), e);
    }
}

proof fn lemma_upstreams_are_subjects(subjects: Set<u32>, seen: Seq<ObsView>, n: int, p: AsnPair)
    requires
        subject_upstreams(subjects, seen, n).contains(p),
    ensures
        subjects.contains(p.0),
    decreases n,
{
    if n > 0 {
        let head = subject_upstreams(subjects, seen, n - 1);
        if seen[n - 1].upstream_asn is Some {
            lemma_seq_contains_after_push(
                head,
                (seen[n - 1].origin_asn, seen[n - 1].upstream_asn->0),
                p,
            );
        }
        if head.contains(p) {
            lemma_upstreams_are_subjects(subjects, seen, n - 1, p);
        }
    }
}

proof fn lemma_watched(subjects: Set<u32>, glue: Set<u32>, path: Seq<u32>, n: int, p: AsnPair)
    requires
        watched_steps(subjects, glue, path, n).contains(p),
    ensures
        p.0 < p.1,
        is_watched(subjects, glue, p.0, p.1),
    decreases n,
{
    if n > 0 {
        let head = watched_steps(subjects, glue, path, n - 1);
        lemma_seq_contains_after_push(head, pair_of(path[n - 1], path[n]), p);
        if head.contains(p) {
            lemma_watched(subjects, glue, path, n - 1, p);
        }
    }
}

proof fn lemma_all_watched(subjects: Set<u32>, glue: Set<u32>, seen: Seq<ObsView>, n: int, p: AsnPair)
    requires
        all_adjacencies(subjects, glue, seen, n).contains(p),
    ensures
        p.0 < p.1,
        is_watched(subjects, glue, p.0, p.1),
    decreases n,
{
    if n > 0 {
        let head = all_adjacencies(subjects, glue, seen, n - 1);
        let own = adjacencies(subjects, glue, seen[n - 1].as_path);
        lemma_seq_concat_contains_all_elements(head, own, p);
        if head.contains(p) {
            lemma_all_watched(subjects, glue, seen, n - 1, p);
        } else {
            let path = collapsed(seen[n - 1].as_path);
            lemma_watched(subjects, glue, path, path.len() - 1, p);
        }
    }
}

/// The two sides of an event are as its kind says: the networks of a move differ, one of them is
/// a subject and neither is glue; a convergence starts at a subject; the networks of an adjacency
/// are two subjects, neither of them glue, the lower one first; a step is a subject's.
pub open spec fn sides_fit(c: DiffContext, e: EventView) -> bool {
    match e.kind {
        MaEventKind::PrefixMove => e.asn_a matches Some(a) && e.asn_b matches Some(b) && is_move(
            c,
            a,
            b,
        ) && e.prefix is Some,
        MaEventKind::UpstreamConverge => e.asn_a matches Some(a) && e.asn_b matches Some(b)
            && c.subjects.contains(a) && is_convergence(c, a, b) && e.prefix is None,
        MaEventKind::NewAdj => e.asn_a matches Some(a) && e.asn_b matches Some(b) && a < b
            && is_watched(c.subjects, c.glue, a, b) && e.prefix is None,
        MaEventKind::FootprintStep => e.asn_a matches Some(a) && e.asn_b is None
            && c.subjects.contains(a) && e.prefix is None,
    }
}

/// The two sides of every event between two snapshots are as its kind says, and the event names
/// the later snapshot's time and the sides' organizations.
pub proof fn events_are_attributed(
    before: Snap,
    after: Snap,
    orgs: OrgState,
    glue: Set<u32>,
    cfg: DiffConfig,
    e: EventView,
)
    requires
        diff_events(before, after, orgs, glue, cfg).contains(e),
    ensures
        sides_fit(diff_context(after, orgs, glue, cfg), e),
        e.timestamp == after.as_of,
        e.asn_a matches Some(a) && e.org_a == org_id_of(orgs, a) && e.domains_a == domains_of(
            orgs,
            a,
        ),
        e.asn_b matches Some(b) ==> e.org_b == org_id_of(orgs, b) && e.domains_b == domains_of(
            orgs,
            b,
        ),
{
    let c = diff_context(after, orgs, glue, cfg);
    let m = moves(c, before, after, after.keys.len() as int);
    let ups = new_upstreams(c, before, after);
    let adj = new_adjacencies(c, before, after);
    let list = fresh(Seq::empty(), origins(before.seen) + origins(after.seen));
    let v = convergences(c, ups);
    let w = adjacency_events(c, adj);
    let s = steps(c, cfg, before.seen, after.seen, list);
    lemma_seq_concat_contains_all_elements(m + v + w, s, e);
    lemma_seq_concat_contains_all_elements(m + v, w, e);
    lemma_seq_concat_contains_all_elements(m, v, e);
    if m.contains(e) {
        lemma_moves_at(c, before, after, after.keys.len() as int, e);
    } else if v.contains(e) {
        lemma_convergences_at(c, ups, e);
        let i = choose|i: int|
            0 <= i < ups.len() && is_convergence(c, (#[trigger] ups[i]).0, ups[i].1) && e
                == contact(
                MaEventKind::UpstreamConverge,
                c,
                ups[i].0,
                ups[i].1,
                None,
                upstream_text(ups[i].0, ups[i].1),
            );
        let ub = subject_upstreams(c.subjects, before.seen, before.seen.len() as int);
        let ua = subject_upstreams(c.subjects, after.seen, after.seen.len() as int);
        fresh_items(ub, ua);
        assert(ups.contains(ups[i]));
        lemma_upstreams_are_subjects(c.subjects, after.seen, after.seen.len() as int, ups[i]);
    } else if w.contains(e) {
        let i = choose|i: int| 0 <= i < w.len() && w[i] == e;
        let ab = all_adjacencies(c.subjects, c.glue, before.seen, before.seen.len() as int);
        let aa = all_adjacencies(c.subjects, c.glue, after.seen, after.seen.len() as int);
        fresh_items(ab, aa);
        assert(adj.contains(adj[i]));
        lemma_all_watched(c.subjects, c.glue, after.seen, after.seen.len() as int, adj[i]);
    } else {
        lemma_steps_at(c, cfg, before.seen, after.seen, list, e);
    }
}

/// A prefix whose origin changed between two networks, one of them a subject and neither of them
/// glue, has its move among the events.
pub proof fn moves_are_reported(
    before: Snap,
    after: Snap,
    orgs: OrgState,
    glue: Set<u32>,
    cfg: DiffConfig,
    i: int,
)
    requires
        0 <= i < after.keys.len(),
        before.obs.contains_key(after.keys[i]),
        before.obs[after.keys[i]].origin_asn != after.seen[i].origin_asn,
        !glue.contains(before.obs[after.keys[i]].origin_asn),
        !glue.contains(after.seen[i].origin_asn),
        subjects_of(orgs, glue, cfg.heuristics).contains(before.obs[after.keys[i]].origin_asn)
            || subjects_of(orgs, glue, cfg.heuristics).contains(after.seen[i].origin_asn),
    ensures
        exists|e: EventView| #[trigger]
            diff_events(before, after, orgs, glue, cfg).contains(e) && e.kind
                == MaEventKind::PrefixMove && e.prefix == Some(after.keys[i]) && e.asn_a == Some(
                before.obs[after.keys[i]].origin_asn,
            ) && e.asn_b == Some(after.seen[i].origin_asn) && e.timestamp == after.as_of
                && e.detail == "origin "@ + decimal(
                before.obs[after.keys[i]].origin_asn as nat,
            ) + " -> "@ + decimal(after.seen[i].origin_asn as nat),
{
    let c = diff_context(after, orgs, glue, cfg);
    let a = before.obs[after.keys[i]].origin_asn;
    let b = after.seen[i].origin_asn;
    let e = contact(MaEventKind::PrefixMove, c, a, b, Some(after.keys[i]), move_text(a, b));
    let n = after.keys.len() as int;
    assert(is_move_of(c, before, after, after.keys[i], i, e));
    lemma_moves_at(c, before, after, n, e);
    let m = moves(c, before, after, n);
    let v = convergences(c, new_upstreams(c, before, after));
    let w = adjacency_events(c, new_adjacencies(c, before, after));
    let s = steps(
        c,
        cfg,
        before.seen,
        after.seen,
        fresh(Seq::empty(), origins(before.seen) + origins(after.seen)),
    );
    lemma_seq_concat_contains_all_elements(m, v, e);
    lemma_seq_concat_contains_all_elements(m + v, w, e);
    lemma_seq_concat_contains_all_elements(m + v + w, s, e);
    assert(diff_events(before, after, orgs, glue, cfg).contains(e));
}

proof fn lemma_diff_parts(
    before: Snap,
    after: Snap,
    orgs: OrgState,
    glue: Set<u32>,
    cfg: DiffConfig,
    e: EventView,
)
    ensures
        ({
            let c = diff_context(after, orgs, glue, cfg);
            let list = fresh(Seq::empty(), origins(before.seen) + origins(after.seen));
            diff_events(before, after, orgs, glue, cfg).contains(e) <==> moves(
                c,
                before,
                after,
                after.keys.len() as int,
            ).contains(e) || convergences(c, new_upstreams(c, before, after)).contains(e)
                || adjacency_events(c, new_adjacencies(c, before, after)).contains(e) || steps(
                c,
                cfg,
                before.seen,
                after.seen,
                list,
            ).contains(e)
        }),
{
    let c = diff_context(after, orgs, glue, cfg);
    let m = moves(c, before, after, after.keys.len() as int);
    let v = convergences(c, new_upstreams(c, before, after));
    let w = adjacency_events(c, new_adjacencies(c, before, after));
    let list = fresh(Seq::empty(), origins(before.seen) + origins(after.seen));
    let s = steps(c, cfg, before.seen, after.seen, list);
    lemma_seq_concat_contains_all_elements(m + v + w, s, e);
    lemma_seq_concat_contains_all_elements(m + v, w, e);
    lemma_seq_concat_contains_all_elements(m, v, e);
}

proof fn lemma_kinds(
    before: Snap,
    after: Snap,
    orgs: OrgState,
    glue: Set<u32>,
    cfg: DiffConfig,
    e: EventView,
)
    ensures
        ({
            let c = diff_context(after, orgs, glue, cfg);
            let list = fresh(Seq::empty(), origins(before.seen) + origins(after.seen));
            &&& moves(c, before, after, after.keys.len() as int).contains(e) ==> e.kind
                == MaEventKind::PrefixMove
            &&& convergences(c, new_upstreams(c, before, after)).contains(e) ==> e.kind
                == MaEventKind::UpstreamConverge
            &&& adjacency_events(c, new_adjacencies(c, before, after)).contains(e) ==> e.kind
                == MaEventKind::NewAdj
            &&& steps(c, cfg, before.seen, after.seen, list).contains(e) ==> e.kind
                == MaEventKind::FootprintStep
        }),
{
    let c = diff_context(after, orgs, glue, cfg);
    let list = fresh(Seq::empty(), origins(before.seen) + origins(after.seen));
    if moves(c, before, after, after.keys.len() as int).contains(e) {
        lemma_moves_at(c, before, after, after.keys.len() as int, e);
    }
    if convergences(c, new_upstreams(c, before, after)).contains(e) {
        lemma_convergences_at(c, new_upstreams(c, before, after), e);
    }
    if steps(c, cfg, before.seen, after.seen, list).contains(e) {
        lemma_steps_at(c, cfg, before.seen, after.seen, list, e);
    }
}

/// A move that is reported happened: the prefix was announced before by one network and is now by
/// another, neither of them glue and one of them a subject.
pub proof fn reported_moves_happened(
    before: Snap,
    after: Snap,
    orgs: OrgState,
    glue: Set<u32>,
    cfg: DiffConfig,
    e: EventView,
)
    requires
        diff_events(before, after, orgs, glue, cfg).contains(e),
        e.kind == MaEventKind::PrefixMove,
    ensures
        e.asn_a is Some && e.asn_b is Some && e.asn_a != e.asn_b,
        !glue.contains(e.asn_a->0) && !glue.contains(e.asn_b->0),
        subjects_of(orgs, glue, cfg.heuristics).contains(e.asn_a->0) || subjects_of(
            orgs,
            glue,
            cfg.heuristics,
        ).contains(e.asn_b->0),
        e.prefix matches Some(k) && before.obs.contains_key(k) && before.obs[k].origin_asn
            == e.asn_a->0 && exists|i: int|
            0 <= i < after.keys.len() && #[trigger] after.keys[i] == k && after.seen[i].origin_asn
                == e.asn_b->0,
{
    let c = diff_context(after, orgs, glue, cfg);
    lemma_diff_parts(before, after, orgs, glue, cfg, e);
    lemma_kinds(before, after, orgs, glue, cfg, e);
    lemma_moves_at(c, before, after, after.keys.len() as int, e);
    let i = choose|i: int|
        0 <= i < after.keys.len() && is_move_of(c, before, after, #[trigger] after.keys[i], i, e);
    assert(after.keys[i] == e.prefix->0);
}

proof fn lemma_step_in(
    c: DiffContext,
    cfg: DiffConfig,
    before: Seq<ObsView>,
    after: Seq<ObsView>,
    list: Seq<u32>,
    o: u32,
)
    requires
        list.contains(o),
        c.subjects.contains(o),
        is_step(cfg, origin_count(before, o), origin_count(after, o)),
    ensures
        steps(c, cfg, before, after, list).contains(
            step_event(c, o, origin_count(before, o), origin_count(after, o)),
        ),
    decreases list.len(),
{
    let rest = list.drop_last();
    let x = list.last();
    let head = steps(c, cfg, before, after, rest);
    assert(list =~= rest.push(x));
    lemma_seq_contains_after_push(rest, x, o);
    let e = step_event(c, o, origin_count(before, o), origin_count(after, o));
    if x != o {
        lemma_step_in(c, cfg, before, after, rest, o);
    }
    lemma_seq_contains_after_push(
        head,
        step_event(c, x, origin_count(before, x), origin_count(after, x)),
        e,
    );
}

/// The footprint of a subject that announces prefixes in one of the snapshots changed by a step
/// where it grew or shrank by at least the absolute threshold, and the change is at least the
/// relative threshold of what it was (of one prefix where it was none), or at least four times the
/// absolute one. A step is reported, with both counts and the change.
pub proof fn footprint_steps_are_reported(
    before: Snap,
    after: Snap,
    orgs: OrgState,
    glue: Set<u32>,
    cfg: DiffConfig,
    origin: u32,
    change: int,
)
    requires
        subjects_of(orgs, glue, cfg.heuristics).contains(origin),
        origin_count(before.seen, origin) + origin_count(after.seen, origin) > 0,
        change >= 0,
        origin_count(after.seen, origin) == origin_count(before.seen, origin) + change
            || origin_count(after.seen, origin) == origin_count(before.seen, origin) - change,
        change >= cfg.footprint_abs_threshold,
        change >= 4 * cfg.footprint_abs_threshold || (origin_count(before.seen, origin) > 0
            && change * cfg.footprint_rel_threshold.den >= origin_count(before.seen, origin)
            * cfg.footprint_rel_threshold.num) || (origin_count(before.seen, origin) == 0 && change
            * cfg.footprint_rel_threshold.den >= cfg.footprint_rel_threshold.num),
    ensures
        exists|e: EventView| #[trigger]
            diff_events(before, after, orgs, glue, cfg).contains(e) && e.kind
                == MaEventKind::FootprintStep && e.asn_a == Some(origin) && e.asn_b is None
                && e.prefix is None && e.timestamp == after.as_of && e.detail == "prefix_count "@
                + decimal(origin_count(before.seen, origin)) + " -> "@ + decimal(
                origin_count(after.seen, origin),
            ) + " (delta "@ + (if origin_count(after.seen, origin) < origin_count(
                before.seen,
                origin,
            ) {
                seq!['-'] + decimal(change as nat)
            } else {
                decimal(change as nat)
            }) + ")"@,
{
    let c = diff_context(after, orgs, glue, cfg);
    let b = origin_count(before.seen, origin);
    let a = origin_count(after.seen, origin);
    let all = origins(before.seen) + origins(after.seen);
    let list = fresh(Seq::empty(), all);
    let n = cfg.footprint_rel_threshold.num as int;
    assert(b * n == n * b) by (nonlinear_arith);
    assert(is_step(cfg, b, a));
    fresh_items(Seq::empty(), all);
    origin_counts_are_counts(before.seen, origin);
    origin_counts_are_counts(after.seen, origin);
    lemma_seq_concat_contains_all_elements(origins(before.seen), origins(after.seen), origin);
    if b > 0 {
        let i = choose|i: int|
            0 <= i < before.seen.len() && (#[trigger] before.seen[i]).origin_asn == origin;
        assert(origins(before.seen)[i] == origin);
    } else {
        let i = choose|i: int|
            0 <= i < after.seen.len() && (#[trigger] after.seen[i]).origin_asn == origin;
        assert(origins(after.seen)[i] == origin);
    }
    assert(list.contains(origin));
    lemma_step_in(c, cfg, before.seen, after.seen, list, origin);
    let e = step_event(c, origin, b, a);
    lemma_diff_parts(before, after, orgs, glue, cfg, e);
    assert(signed_decimal(a - b) =~= (if a < b {
        seq!['-'] + decimal(change as nat)
    } else {
        decimal(change as nat)
    }));
    assert(diff_events(before, after, orgs, glue, cfg).contains(e));
}

/// A step that is reported happened: the footprint of a subject changed by at least the absolute
/// threshold, and by at least the relative one or four times the absolute one.
pub proof fn reported_steps_happened(
    before: Snap,
    after: Snap,
    orgs: OrgState,
    glue: Set<u32>,
    cfg: DiffConfig,
    e: EventView,
)
    requires
        diff_events(before, after, orgs, glue, cfg).contains(e),
        e.kind == MaEventKind::FootprintStep,
    ensures
        e.asn_b is None,
        e.asn_a matches Some(o) && subjects_of(orgs, glue, cfg.heuristics).contains(o) && ({
            let b = origin_count(before.seen, o) as int;
            let a = origin_count(after.seen, o) as int;
            let t = cfg.footprint_abs_threshold as int;
            let num = cfg.footprint_rel_threshold.num as int;
            let den = cfg.footprint_rel_threshold.den as int;
            &&& a - b >= t || b - a >= t
            &&& {
                ||| a - b >= 4 * t
                ||| b - a >= 4 * t
                ||| b > 0 && ((a - b) * den >= num * b || (b - a) * den >= num * b)
                ||| b == 0 && a * den >= num
            }
        }),
{
    let c = diff_context(after, orgs, glue, cfg);
    let list = fresh(Seq::empty(), origins(before.seen) + origins(after.seen));
    lemma_diff_parts(before, after, orgs, glue, cfg, e);
    lemma_kinds(before, after, orgs, glue, cfg, e);
    lemma_steps_at(c, cfg, before.seen, after.seen, list, e);
}

proof fn lemma_subject_upstream(subjects: Set<u32>, seen: Seq<ObsView>, n: int, o: u32, u: u32)
    requires
        n <= seen.len(),
    ensures
        subject_upstreams(subjects, seen, n).contains((o, u)) <==> subjects.contains(o) && exists|
            i: int,
        |
            0 <= i < n && (#[trigger] seen[i]).origin_asn == o && seen[i].upstream_asn == Some(u),
    decreases n,
{
    if n > 0 {
        lemma_subject_upstream(subjects, seen, n - 1, o, u);
        let head = subject_upstreams(subjects, seen, n - 1);
        let x = seen[n - 1];
        if x.upstream_asn is Some {
            lemma_seq_contains_after_push(head, (x.origin_asn, x.upstream_asn->0), (o, u));
        }
        if exists|i: int|
            0 <= i < n && (#[trigger] seen[i]).origin_asn == o && seen[i].upstream_asn == Some(u) {
            let i = choose|i: int|
                0 <= i < n && (#[trigger] seen[i]).origin_asn == o && seen[i].upstream_asn == Some(
                    u,
                );
            if i == n - 1 {
                assert(x.origin_asn == o);
            }
        }
    }
}

proof fn lemma_convergence_in(c: DiffContext, pairs: Seq<AsnPair>, o: u32, u: u32)
    requires
        pairs.contains((o, u)),
        is_convergence(c, o, u),
    ensures
        convergences(c, pairs).contains(
            contact(MaEventKind::UpstreamConverge, c, o, u, None, upstream_text(o, u)),
        ),
    decreases pairs.len(),
{
    let rest = pairs.drop_last();
    let (x, y) = pairs.last();
    let e = contact(MaEventKind::UpstreamConverge, c, o, u, None, upstream_text(o, u));
    assert(pairs =~= rest.push((x, y)));
    lemma_seq_contains_after_push(rest, (x, y), (o, u));
    if (x, y) != (o, u) {
        lemma_convergence_in(c, rest, o, u);
    }
    lemma_seq_contains_after_push(
        convergences(c, rest),
        contact(MaEventKind::UpstreamConverge, c, x, y, None, upstream_text(x, y)),
        e,
    );
}

/// A subject announces a prefix through an upstream.
pub open spec fn has_upstream(s: Snap, origin: u32, up: u32) -> bool {
    exists|i: int|
        0 <= i < s.seen.len() && (#[trigger] s.seen[i]).origin_asn == origin
            && s.seen[i].upstream_asn == Some(up)
}

/// A convergence is reported just where a subject announces a prefix through an upstream through
/// which it announced none before, the upstream is a subject or a network with an organization
/// that is no glue, and the two are not known to be of one organization.
pub proof fn convergences_are_reported(
    before: Snap,
    after: Snap,
    orgs: OrgState,
    glue: Set<u32>,
    cfg: DiffConfig,
    origin: u32,
    up: u32,
)
    ensures
        (subjects_of(orgs, glue, cfg.heuristics).contains(origin) && has_upstream(
            after,
            origin,
            up,
        ) && !has_upstream(before, origin, up) && (subjects_of(
            orgs,
            glue,
            cfg.heuristics,
        ).contains(up) || (orgs.org_of(up) is Some && !glue.contains(up))) && (orgs.org_of(
            origin,
        ) is None || orgs.org_of(up) is None || orgs.org_of(origin)->0.org_id != orgs.org_of(
            up,
        )->0.org_id)) <==> exists|e: EventView| #[trigger]
            diff_events(before, after, orgs, glue, cfg).contains(e) && e.kind
                == MaEventKind::UpstreamConverge && e.asn_a == Some(origin) && e.asn_b == Some(up),
        forall|e: EventView| #[trigger]
            diff_events(before, after, orgs, glue, cfg).contains(e) && e.kind
                == MaEventKind::UpstreamConverge && e.asn_a == Some(origin) && e.asn_b == Some(up)
                ==> e.detail == "origin "@ + decimal(origin as nat) + " gained upstream "@
                + decimal(up as nat) && e.prefix is None && e.timestamp == after.as_of,
{
    let c = diff_context(after, orgs, glue, cfg);
    let ub = subject_upstreams(c.subjects, before.seen, before.seen.len() as int);
    let ua = subject_upstreams(c.subjects, after.seen, after.seen.len() as int);
    let ups = new_upstreams(c, before, after);
    fresh_items(ub, ua);
    lemma_subject_upstream(c.subjects, before.seen, before.seen.len() as int, origin, up);
    lemma_subject_upstream(c.subjects, after.seen, after.seen.len() as int, origin, up);
    let x = contact(MaEventKind::UpstreamConverge, c, origin, up, None, upstream_text(origin, up));
    lemma_diff_parts(before, after, orgs, glue, cfg, x);
    if ups.contains((origin, up)) && is_convergence(c, origin, up) {
        lemma_convergence_in(c, ups, origin, up);
        assert(diff_events(before, after, orgs, glue, cfg).contains(x));
    }
    assert forall|e: EventView| #[trigger]
        diff_events(before, after, orgs, glue, cfg).contains(e) && e.kind
            == MaEventKind::UpstreamConverge && e.asn_a == Some(origin) && e.asn_b == Some(
            up,
        ) implies e == x && ups.contains((origin, up)) && is_convergence(c, origin, up) by {
        lemma_diff_parts(before, after, orgs, glue, cfg, e);
        lemma_kinds(before, after, orgs, glue, cfg, e);
        lemma_convergences_at(c, ups, e);
        let i = choose|i: int|
            0 <= i < ups.len() && is_convergence(c, (#[trigger] ups[i]).0, ups[i].1) && e
                == contact(
                MaEventKind::UpstreamConverge,
                c,
                ups[i].0,
                ups[i].1,
                None,
                upstream_text(ups[i].0, ups[i].1),
            );
        assert(ups[i] == (origin, up));
        assert(ups.contains(ups[i]));
    }
}

/// Two networks stand next to each other on a path.
pub open spec fn next_on(path: Seq<u32>, a: u32, b: u32) -> bool {
    exists|k: int|
        0 <= k < path.len() - 1 && ((#[trigger] path[k] == a && path[k + 1] == b) || (path[k] == b
            && path[k + 1] == a))
}

/// Two networks stand next to each other on the path of a prefix.
pub open spec fn are_neighbours(s: Snap, a: u32, b: u32) -> bool {
    exists|i: int| 0 <= i < s.seen.len() && next_on((#[trigger] s.seen[i]).as_path, a, b)
}

proof fn lemma_watched_steps(
    subjects: Set<u32>,
    glue: Set<u32>,
    path: Seq<u32>,
    n: int,
    p: AsnPair,
)
    requires
        n < path.len(),
    ensures
        watched_steps(subjects, glue, path, n).contains(p) <==> p.0 < p.1 && is_watched(
            subjects,
            glue,
            p.0,
            p.1,
        ) && exists|k: int|
            0 <= k < n && ((#[trigger] path[k] == p.0 && path[k + 1] == p.1) || (path[k] == p.1
                && path[k + 1] == p.0)),
    decreases n,
{
    if n > 0 {
        lemma_watched_steps(subjects, glue, path, n - 1, p);
        let head = watched_steps(subjects, glue, path, n - 1);
        let (a, b) = (path[n - 1], path[n]);
        lemma_seq_contains_after_push(head, pair_of(a, b), p);
        if exists|k: int|
            0 <= k < n && ((#[trigger] path[k] == p.0 && path[k + 1] == p.1) || (path[k] == p.1
                && path[k + 1] == p.0)) {
            let k = choose|k: int|
                0 <= k < n && ((#[trigger] path[k] == p.0 && path[k + 1] == p.1) || (path[k] == p.1
                    && path[k + 1] == p.0));
            if k == n - 1 && p.0 < p.1 {
                assert(pair_of(a, b) == p);
            }
        }
        if is_watched(subjects, glue, a, b) && pair_of(a, b) == p {
            let k = n - 1;
            assert((path[k] == p.0 && path[k + 1] == p.1) || (path[k] == p.1 && path[k + 1]
                == p.0));
        }
        if head.contains(p) {
            let k = choose|k: int|
                0 <= k < n - 1 && ((#[trigger] path[k] == p.0 && path[k + 1] == p.1) || (path[k]
                    == p.1 && path[k + 1] == p.0));
            assert((path[k] == p.0 && path[k + 1] == p.1) || (path[k] == p.1 && path[k + 1]
                == p.0));
        }
    }
}

proof fn lemma_path_adjacency(subjects: Set<u32>, glue: Set<u32>, path: Seq<u32>, p: AsnPair)
    ensures
        adjacencies(subjects, glue, path).contains(p) <==> p.0 < p.1 && is_watched(
            subjects,
            glue,
            p.0,
            p.1,
        ) && next_on(path, p.0, p.1),
{
    let c = collapsed(path);
    if path.len() > 0 && p.0 < p.1 {
        prepending_hides_no_neighbours(path, p.0, p.1);
        prepending_hides_no_neighbours(path, p.1, p.0);
        lemma_watched_steps(subjects, glue, c, c.len() - 1, p);
        if next_on(path, p.0, p.1) {
            let k = choose|k: int|
                0 <= k < path.len() - 1 && ((#[trigger] path[k] == p.0 && path[k + 1] == p.1) || (
                path[k] == p.1 && path[k + 1] == p.0));
            assert(path[k] == p.0 || path[k] == p.1);
        }
        if adjacencies(subjects, glue, path).contains(p) {
            let k = choose|k: int|
                0 <= k < c.len() - 1 && ((#[trigger] c[k] == p.0 && c[k + 1] == p.1) || (c[k]
                    == p.1 && c[k + 1] == p.0));
            assert(c[k] == p.0 || c[k] == p.1);
        }
    } else if path.len() > 0 {
        prepending_hides_no_neighbours(path, 0, 1);
        lemma_watched_steps(subjects, glue, c, c.len() - 1, p);
    } else {
        assert(c.len() == 0);
    }
}

proof fn lemma_adjacency(subjects: Set<u32>, glue: Set<u32>, seen: Seq<ObsView>, n: int, p: AsnPair)
    requires
        n <= seen.len(),
    ensures
        all_adjacencies(subjects, glue, seen, n).contains(p) <==> p.0 < p.1 && is_watched(
            subjects,
            glue,
            p.0,
            p.1,
        ) && exists|i: int| 0 <= i < n && next_on((#[trigger] seen[i]).as_path, p.0, p.1),
    decreases n,
{
    if n > 0 {
        lemma_adjacency(subjects, glue, seen, n - 1, p);
        lemma_path_adjacency(subjects, glue, seen[n - 1].as_path, p);
        lemma_seq_concat_contains_all_elements(
            all_adjacencies(subjects, glue, seen, n - 1),
            adjacencies(subjects, glue, seen[n - 1].as_path),
            p,
        );
    }
}

/// An adjacency is reported just where two different subjects, neither of them glue, stand next to
/// each other on the path of a prefix, and stood so on none before, whichever comes first and
/// however often each is repeated. The lower number comes first.
pub proof fn adjacencies_are_reported(
    before: Snap,
    after: Snap,
    orgs: OrgState,
    glue: Set<u32>,
    cfg: DiffConfig,
    lo: u32,
    hi: u32,
)
    ensures
        (lo < hi && subjects_of(orgs, glue, cfg.heuristics).contains(lo) && subjects_of(
            orgs,
            glue,
            cfg.heuristics,
        ).contains(hi) && !glue.contains(lo) && !glue.contains(hi) && are_neighbours(after, lo, hi)
            && !are_neighbours(before, lo, hi)) <==> exists|e: EventView| #[trigger]
            diff_events(before, after, orgs, glue, cfg).contains(e) && e.kind
                == MaEventKind::NewAdj && e.asn_a == Some(lo) && e.asn_b == Some(hi),
        forall|e: EventView| #[trigger]
            diff_events(before, after, orgs, glue, cfg).contains(e) && e.kind
                == MaEventKind::NewAdj && e.asn_a == Some(lo) && e.asn_b == Some(hi) ==> e.detail
                == "new subject adjacency "@ + decimal(lo as nat) + "-"@ + decimal(hi as nat)
                && e.prefix is None && e.timestamp == after.as_of,
{
    let c = diff_context(after, orgs, glue, cfg);
    let ab = all_adjacencies(c.subjects, c.glue, before.seen, before.seen.len() as int);
    let aa = all_adjacencies(c.subjects, c.glue, after.seen, after.seen.len() as int);
    let adj = new_adjacencies(c, before, after);
    let w = adjacency_events(c, adj);
    let p = (lo, hi);
    fresh_items(ab, aa);
    lemma_adjacency(c.subjects, c.glue, before.seen, before.seen.len() as int, p);
    lemma_adjacency(c.subjects, c.glue, after.seen, after.seen.len() as int, p);
    let x = contact(MaEventKind::NewAdj, c, lo, hi, None, adjacency_text(lo, hi));
    lemma_diff_parts(before, after, orgs, glue, cfg, x);
    if adj.contains(p) {
        let i = choose|i: int| 0 <= i < adj.len() && adj[i] == p;
        assert(w[i] == x);
        assert(diff_events(before, after, orgs, glue, cfg).contains(x));
    }
    assert forall|e: EventView| #[trigger]
        diff_events(before, after, orgs, glue, cfg).contains(e) && e.kind == MaEventKind::NewAdj
            && e.asn_a == Some(lo) && e.asn_b == Some(hi) implies e == x && adj.contains(p) by {
        lemma_diff_parts(before, after, orgs, glue, cfg, e);
        lemma_kinds(before, after, orgs, glue, cfg, e);
        let i = choose|i: int| 0 <= i < w.len() && w[i] == e;
        assert(adj[i] == p);
        assert(adj.contains(adj[i]));
    }
}

proof fn lemma_moves_once(c: DiffContext, before: Snap, after: Snap, n: int)
    requires
        n <= after.keys.len(),
        after.keys.no_duplicates(),
    ensures
        moves(c, before, after, n).no_duplicates(),
    decreases n,
{
    if n > 0 {
        lemma_moves_once(c, before, after, n - 1);
        let head = moves(c, before, after, n - 1);
        let out = moves(c, before, after, n);
        if out.len() > head.len() {
            lemma_moves_at(c, before, after, n - 1, out.last());
            if head.contains(out.last()) {
                let i = choose|i: int|
                    0 <= i < n - 1 && is_move_of(
                        c,
                        before,
                        after,
                        #[trigger] after.keys[i],
                        i,
                        out.last(),
                    );
                assert(after.keys[i] == after.keys[n - 1]);
            }
            lemma_push_once(head, out.last());
        }
    }
}

proof fn lemma_push_once<A>(s: Seq<A>, x: A)
    requires
        s.no_duplicates(),
        !s.contains(x),
    ensures
        s.push(x).no_duplicates(),
{
    assert forall|i: int, j: int|
        0 <= i < s.push(x).len() && 0 <= j < s.push(x).len() && i != j implies s.push(x)[i]
        != s.push(x)[j] by {
        if i == s.len() {
            assert(s.contains(s[j]));
        }
        if j == s.len() {
            assert(s.contains(s[i]));
        }
    }
}

proof fn lemma_concat_once<A>(a: Seq<A>, b: Seq<A>)
    requires
        a.no_duplicates(),
        b.no_duplicates(),
        forall|x: A| #[trigger] a.contains(x) ==> !b.contains(x),
    ensures
        (a + b).no_duplicates(),
{
    let s = a + b;
    assert forall|i: int, j: int|
        0 <= i < s.len() && 0 <= j < s.len() && i != j implies s[i] != s[j] by {
        if i < a.len() && j >= a.len() {
            assert(a.contains(a[i]) && b.contains(b[j - a.len()]));
        }
        if j < a.len() && i >= a.len() {
            assert(a.contains(a[j]) && b.contains(b[i - a.len()]));
        }
    }
}

proof fn lemma_convergences_once(c: DiffContext, pairs: Seq<AsnPair>)
    requires
        pairs.no_duplicates(),
    ensures
        convergences(c, pairs).no_duplicates(),
    decreases pairs.len(),
{
    if pairs.len() > 0 {
        let rest = pairs.drop_last();
        let head = convergences(c, rest);
        let (o, u) = pairs.last();
        let x = contact(MaEventKind::UpstreamConverge, c, o, u, None, upstream_text(o, u));
        lemma_convergences_once(c, rest);
        if head.contains(x) {
            lemma_convergences_at(c, rest, x);
            let i = choose|i: int|
                0 <= i < rest.len() && is_convergence(c, (#[trigger] rest[i]).0, rest[i].1) && x
                    == contact(
                    MaEventKind::UpstreamConverge,
                    c,
                    rest[i].0,
                    rest[i].1,
                    None,
                    upstream_text(rest[i].0, rest[i].1),
                );
            assert(pairs[i] == pairs[pairs.len() - 1]);
        }
        if is_convergence(c, o, u) {
            lemma_push_once(head, x);
        }
    }
}

proof fn lemma_steps_from(
    c: DiffContext,
    cfg: DiffConfig,
    before: Seq<ObsView>,
    after: Seq<ObsView>,
    list: Seq<u32>,
    e: EventView,
)
    requires
        steps(c, cfg, before, after, list).contains(e),
    ensures
        e.asn_a matches Some(o) && list.contains(o),
    decreases list.len(),
{
    let rest = list.drop_last();
    let o = list.last();
    assert(list =~= rest.push(o));
    let head = steps(c, cfg, before, after, rest);
    let x = step_event(c, o, origin_count(before, o), origin_count(after, o));
    lemma_seq_contains_after_push(head, x, e);
    assert(list[list.len() - 1] == o);
    if head.contains(e) {
        lemma_steps_from(c, cfg, before, after, rest, e);
        lemma_seq_contains_after_push(rest, o, e.asn_a->0);
    }
}

proof fn lemma_steps_once(
    c: DiffContext,
    cfg: DiffConfig,
    before: Seq<ObsView>,
    after: Seq<ObsView>,
    list: Seq<u32>,
)
    requires
        list.no_duplicates(),
    ensures
        steps(c, cfg, before, after, list).no_duplicates(),
    decreases list.len(),
{
    if list.len() > 0 {
        let rest = list.drop_last();
        let o = list.last();
        let head = steps(c, cfg, before, after, rest);
        let x = step_event(c, o, origin_count(before, o), origin_count(after, o));
        lemma_steps_once(c, cfg, before, after, rest);
        if head.contains(x) {
            lemma_steps_from(c, cfg, before, after, rest, x);
            let i = choose|i: int| 0 <= i < rest.len() && rest[i] == o;
            assert(list[i] == list[list.len() - 1]);
        }
        if steps(c, cfg, before, after, list).len() > head.len() {
            lemma_push_once(head, x);
        }
    }
}

/// No event is reported twice.
pub proof fn events_come_once(
    before: Snap,
    after: Snap,
    orgs: OrgState,
    glue: Set<u32>,
    cfg: DiffConfig,
)
    requires
        after.keys.no_duplicates(),
    ensures
        diff_events(before, after, orgs, glue, cfg).no_duplicates(),
{
    let c = diff_context(after, orgs, glue, cfg);
    let ups = new_upstreams(c, before, after);
    let adj = new_adjacencies(c, before, after);
    let list = fresh(Seq::empty(), origins(before.seen) + origins(after.seen));
    let m = moves(c, before, after, after.keys.len() as int);
    let v = convergences(c, ups);
    let w = adjacency_events(c, adj);
    let s = steps(c, cfg, before.seen, after.seen, list);
    fresh_items(
        subject_upstreams(c.subjects, before.seen, before.seen.len() as int),
        subject_upstreams(c.subjects, after.seen, after.seen.len() as int),
    );
    fresh_items(
        all_adjacencies(c.subjects, c.glue, before.seen, before.seen.len() as int),
        all_adjacencies(c.subjects, c.glue, after.seen, after.seen.len() as int),
    );
    fresh_items(Seq::empty(), origins(before.seen) + origins(after.seen));
    lemma_moves_once(c, before, after, after.keys.len() as int);
    lemma_convergences_once(c, ups);
    lemma_steps_once(c, cfg, before.seen, after.seen, list);
    assert forall|i: int, j: int|
        0 <= i < w.len() && 0 <= j < w.len() && i != j implies w[i] != w[j] by {
        assert(adj[i] != adj[j]);
    }
    assert forall|e: EventView| true implies (m.contains(e) ==> e.kind == MaEventKind::PrefixMove)
        && (v.contains(e) ==> e.kind == MaEventKind::UpstreamConverge) && (w.contains(e) ==> e.kind
        == MaEventKind::NewAdj) && (s.contains(e) ==> e.kind == MaEventKind::FootprintStep) by {
        lemma_kinds(before, after, orgs, glue, cfg, e);
    }
    lemma_concat_once(m, v);
    assert forall|e: EventView| #[trigger] (m + v).contains(e) implies !w.contains(e) by {
        lemma_seq_concat_contains_all_elements(m, v, e);
    }
    lemma_concat_once(m + v, w);
    assert forall|e: EventView| #[trigger] (m + v + w).contains(e) implies !s.contains(e) by {
        lemma_seq_concat_contains_all_elements(m + v, w, e);
        lemma_seq_concat_contains_all_elements(m, v, e);
    }
    lemma_concat_once(m + v + w, s);
}

/// Every event names the organizations of its networks, with their domains, as the map has them;
/// a network without one has none.
pub proof fn events_name_organizations(
    before: Snap,
    after: Snap,
    orgs: OrgState,
    glue: Set<u32>,
    cfg: DiffConfig,
    e: EventView,
)
    requires
        diff_events(before, after, orgs, glue, cfg).contains(e),
    ensures
        e.timestamp == after.as_of,
        e.asn_a is Some,
        orgs.org_of(e.asn_a->0) matches Some(o) ==> e.org_a == Some(o.org_id) && e.domains_a
            == o.domains,
        orgs.org_of(e.asn_a->0) is None ==> e.org_a is None && e.domains_a.len() == 0,
        e.asn_b matches Some(b) ==> (orgs.org_of(b) matches Some(o) ==> e.org_b == Some(o.org_id)
            && e.domains_b == o.domains) && (orgs.org_of(b) is None ==> e.org_b is None
            && e.domains_b.len() == 0),
        e.asn_b is None <==> e.kind == MaEventKind::FootprintStep,
{
    events_are_attributed(before, after, orgs, glue, cfg, e);
}

/// A decimal number is read as the ratio of its digits to the power of ten that its point stands
/// for.
pub proof fn ratios_are_read_from_decimals(whole: Seq<char>, part: Seq<char>)
    requires
        whole.len() > 0 && all_digits(whole),
        part.len() > 0 && all_digits(part),
    ensures
        ratio_text(whole) == Some((digits_value(whole), 1nat)),
        ratio_text(whole + seq!['.'] + part) == Some(
            (digits_value(whole + part), ten_to(part.len())),
        ),
        ten_to(0) == 1 && ten_to(1) == 10 && ten_to(2) == 100,
        ten_to((part.len() + 1) as nat) == 10 * ten_to(part.len()),
        ratio_text(Seq::empty()) is None,
        ratio_text(seq!['-'] + whole) is None,
{
    lemma_no_point(whole);
    lemma_no_point(part);
    let one = seq![whole];
    let two = seq![whole, part];
    split_undoes_join(one, '.');
    split_undoes_join(two, '.');
    assert(two.drop_last() =~= one);
    assert(joined(two, seq!['.']) =~= whole + seq!['.'] + part);
    assert(joined(one, seq!['.']) == whole);
    assert(ten_to(1) == 10 * ten_to(0));
    assert(ten_to(2) == 10 * ten_to(1));
    let none = Seq::<char>::empty();
    let m = seq!['-'] + whole;
    assert(split_on(none, '.')[0].len() == 0);
    assert(m[0] == '-');
    assert(!m.contains('.')) by {
        if m.contains('.') {
            let i = choose|i: int| 0 <= i < m.len() && m[i] == '.';
            assert(whole[i - 1] == '.');
        }
    }
    let minus = seq![m];
    split_undoes_join(minus, '.');
    assert(joined(minus, seq!['.']) == m);
    assert(!is_digit(m[0]));
}

proof fn lemma_no_point(s: Seq<char>)
    requires
        all_digits(s),
    ensures
        !s.contains('.'),
{
    if s.contains('.') {
        let i = choose|i: int| 0 <= i < s.len() && s[i] == '.';
        assert(is_digit(s[i]));
    }
}

} // verus!
