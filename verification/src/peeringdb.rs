//! Organizations from PeeringDB: what to ask for, how to pace it, and the org map it yields.

use crate::glue::{default_heuristics, GlueSet, SubjectHeuristics};
use crate::order::{sort_texts, sort_u32, sort_u64};
use crate::orgs::{
    empty_state, owned, normalize_domain, normalizes, normalizes_all, opt_text, plain_domain,
    registered_all, the_last_record_stays, OrgMap, OrgRecord, OrgView,
};
use crate::text::{
    contains, decimal, decimals, format_u64, has_substring, join, joined, number_in, parse_u64,
    texts, trim, trimmed,
};
use std::collections::HashMap;
use url::Url;
use vstd::prelude::*;
use vstd::string::StringExecFns;

verus! {

broadcast use vstd::std_specs::hash::group_hash_axioms;

/// Where networks are listed.
pub const PEERINGDB_NET: &'static str = "https://www.peeringdb.com/api/net";

/// Where organizations are listed.
pub const PEERINGDB_ORG: &'static str = "https://www.peeringdb.com/api/org";

/// Networks per page.
pub const PAGE: u64 = 250;

/// Organizations per request.
pub const ORG_CHUNK: usize = 100;

/// Anonymous callers may ask 20 times a minute: the least number of milliseconds between two
/// requests.
pub const MIN_INTERVAL_MILLIS: u64 = 3100;

/// How often a request is tried again.
pub const MAX_RETRIES: u32 = 12;

/// A network as listed.
#[derive(Debug)]
pub struct PdbNet {
    pub org_id: u64,
    pub asn: u32,
    pub website: Option<String>,
}

/// An organization as listed.
#[derive(Debug)]
pub struct PdbOrg {
    pub id: u64,
    pub name: String,
    pub website: Option<String>,
}

/// How to build an org map.
#[derive(Debug)]
pub struct PeeringDbBuildOptions {
    pub heuristics: SubjectHeuristics,
    /// The most pages of networks to ask for; all where there is none.
    pub max_net_pages: Option<u64>,
    pub user_agent: String,
}

impl Default for PeeringDbBuildOptions {
    fn default() -> (r: Self)
        ensures
            r.heuristics == default_heuristics(),
            r.max_net_pages is None,
            r.user_agent@ == "bgp-analyzer/0.1 (research; real-data org-map builder)"@,
    {
        PeeringDbBuildOptions {
            heuristics: SubjectHeuristics::default(),
            max_net_pages: None,
            user_agent: "bgp-analyzer/0.1 (research; real-data org-map builder)".to_owned(),
        }
    }
}

// ---- pace ----

/// How many nanoseconds to wait before the next request, when the last one was `elapsed`
/// nanoseconds ago.
pub fn rate_limit_wait(elapsed: Option<u128>) -> (r: u128)
    ensures
        match elapsed {
            Some(e) => r == (if e >= MIN_INTERVAL_MILLIS * 1_000_000 {
                0int
            } else {
                MIN_INTERVAL_MILLIS * 1_000_000 - e
            }),
            None => r == 0,
        },
{
    match elapsed {
        Some(e) => (MIN_INTERVAL_MILLIS as u128 * 1_000_000).saturating_sub(e),
        None => 0,
    }
}

/// Two requests, the second made after the wait, lie at least the least interval apart.
pub proof fn paced_requests(elapsed: u128, wait: u128)
    requires
        wait == (if elapsed >= MIN_INTERVAL_MILLIS * 1_000_000 {
            0int
        } else {
            MIN_INTERVAL_MILLIS * 1_000_000 - elapsed
        }),
    ensures
        elapsed + wait >= MIN_INTERVAL_MILLIS * 1_000_000,
{
}

/// What to do about a reply.
#[derive(Clone, Copy, Debug, PartialEq, Eq, Structural)]
pub enum ReplyAction {
    /// Read the body.
    Accept,
    /// Ask again after so many seconds.
    Retry { seconds: u64 },
    /// Too many tries.
    GiveUp,
    /// The request is refused.
    Refused,
}

/// A reply that asks for patience: too many requests, or a fault of the server.
pub open spec fn transient(status: u16) -> bool {
    status == 429 || 500 <= status <= 599
}

/// The seconds to wait after try `attempt` where the reply does not say.
pub open spec fn backoff(attempt: u32) -> nat {
    vstd::arithmetic::power2::pow2(
        if attempt < 6 {
            attempt as nat
        } else {
            6
        },
    )
}

/// What to do about the reply to try `attempt`, which counts from 1.
pub open spec fn reply_action(status: u16, attempt: u32, retry_after: Option<Seq<char>>) -> ReplyAction {
    if transient(status) {
        if attempt > MAX_RETRIES {
            ReplyAction::GiveUp
        } else {
            match retry_after {
                Some(s) => match number_in(s, u64::MAX as nat) {
                    Some(n) => ReplyAction::Retry { seconds: n as u64 },
                    None => ReplyAction::Retry { seconds: backoff(attempt) as u64 },
                },
                None => ReplyAction::Retry { seconds: backoff(attempt) as u64 },
            }
        }
    } else if 400 <= status <= 499 {
        ReplyAction::Refused
    } else {
        ReplyAction::Accept
    }
}

fn backoff_seconds(attempt: u32) -> (r: u64)
    ensures
        r == backoff(attempt),
        r <= 64,
{
    let e: u32 = if attempt < 6 {
        attempt
    } else {
        6
    };
    let mut r: u64 = 1;
    let mut i: u32 = 0;
    proof {
        vstd::arithmetic::power2::lemma2_to64();
    }
    while i < e
        invariant
            i <= e <= 6,
            r == vstd::arithmetic::power2::pow2(i as nat),
            r <= 64,
            vstd::arithmetic::power2::pow2(6) == 64,
        decreases e - i,
    {
        proof {
            vstd::arithmetic::power2::lemma_pow2_unfold((i + 1) as nat);
            if i + 1 < 6 {
                vstd::arithmetic::power2::lemma_pow2_strictly_increases((i + 1) as nat, 6);
            }
        }
        r = r * 2;
        i += 1;
    }
    r
}

/// Decides what to do about a reply.
pub fn after_reply(status: u16, attempt: u32, retry_after: &Option<String>) -> (r: ReplyAction)
    ensures
        r == reply_action(status, attempt, opt_text(*retry_after)),
{
    if status == 429 || (500 <= status && status <= 599) {
        if attempt > MAX_RETRIES {
            return ReplyAction::GiveUp;
        }
        if let Some(s) = retry_after {
            if let Some(n) = parse_u64(s.as_str()) {
                return ReplyAction::Retry { seconds: n };
            }
        }
        return ReplyAction::Retry { seconds: backoff_seconds(attempt) };
    }
    if 400 <= status && status <= 499 {
        ReplyAction::Refused
    } else {
        ReplyAction::Accept
    }
}

/// A request that keeps failing is tried at most thirteen times.
pub proof fn retries_end(status: u16, attempt: u32, retry_after: Option<Seq<char>>)
    requires
        attempt >= 13,
    ensures
        !(reply_action(status, attempt, retry_after) is Retry),
{
}

// ---- pages ----

/// How far the list of networks has been read.
#[derive(Clone, Copy, Debug, PartialEq, Eq, Structural)]
pub struct NetPages {
    pub pages: u64,
    pub done: bool,
}

/// Where the next page of networks starts.
pub open spec fn net_skip(p: NetPages) -> int {
    p.pages * PAGE
}

/// The address of the page of networks that starts at `skip`.
pub open spec fn net_url(skip: nat) -> Seq<char> {
    PEERINGDB_NET@ + "?limit="@ + decimal(PAGE as nat) + "&skip="@ + decimal(skip)
}

impl NetPages {
    /// Nothing read.
    pub fn start() -> (r: NetPages)
        ensures
            r.pages == 0,
            !r.done,
    {
        NetPages { pages: 0, done: false }
    }

    /// The address of the next page; none after the last one, or after `max` pages.
    pub fn next_url(&self, max: Option<u64>) -> (r: Option<String>)
        requires
            self.pages < u64::MAX / PAGE,
        ensures
            match r {
                Some(u) => !self.done && (max matches Some(m) ==> self.pages < m) && u@ == net_url(
                    net_skip(*self) as nat,
                ),
                None => self.done || (max matches Some(m) && self.pages >= m),
            },
    {
        if self.done {
            return None;
        }
        if let Some(m) = max {
            if self.pages >= m {
                return None;
            }
        }
        assert(self.pages * PAGE <= u64::MAX) by (nonlinear_arith)
            requires
                self.pages < u64::MAX / PAGE,
                PAGE == 250,
        ;
        let mut u: String = PEERINGDB_NET.to_owned();
        u.append("?limit=");
        u.append(format_u64(PAGE).as_str());
        u.append("&skip=");
        u.append(format_u64(self.pages * PAGE).as_str());
        Some(u)
    }

    /// A page with `n` networks came. A page that is not full is the last.
    pub fn received(&mut self, n: u64)
        requires
            old(self).pages < u64::MAX,
        ensures
            final(self).pages == old(self).pages + 1,
            final(self).done == (old(self).done || n < PAGE),
    {
        self.pages = self.pages + 1;
        if n < PAGE {
            self.done = true;
        }
    }
}

/// Identifiers as numbers.
pub open spec fn id_numbers(ids: Seq<u64>) -> Seq<nat> {
    Seq::new(ids.len(), |i: int| ids[i] as nat)
}

/// The address that lists these organizations.
pub open spec fn org_url(ids: Seq<u64>) -> Seq<char> {
    PEERINGDB_ORG@ + "?id__in="@ + joined(decimals(id_numbers(ids)), ","@) + "&limit=100"@
}

/// The `i`-th group of at most a hundred.
pub open spec fn org_chunk(ids: Seq<u64>, i: int) -> Seq<u64> {
    ids.subrange(
        i * ORG_CHUNK,
        if (i + 1) * ORG_CHUNK <= ids.len() {
            (i + 1) * ORG_CHUNK
        } else {
            ids.len() as int
        },
    )
}

/// How many groups of at most a hundred there are.
pub open spec fn org_chunks(ids: Seq<u64>) -> int {
    (ids.len() + ORG_CHUNK - 1) / ORG_CHUNK as int
}

fn one_org_url(ids: &[u64], from: usize, to: usize) -> (r: String)
    requires
        from <= to <= ids@.len(),
    ensures
        r@ == org_url(ids@.subrange(from as int, to as int)),
{
    let ghost part = ids@.subrange(from as int, to as int);
    let mut names: Vec<String> = Vec::new();
    let mut i: usize = from;
    while i < to
        invariant
            from <= i <= to <= ids@.len(),
            part == ids@.subrange(from as int, to as int),
            names@.len() == i - from,
            forall|k: int| 0 <= k < names@.len() ==> (#[trigger] names@[k])@ == decimal(
                part[k] as nat,
            ),
        decreases to - i,
    {
        names.push(format_u64(ids[i]));
        i += 1;
    }
    assert(texts(names@) =~= decimals(id_numbers(part)));
    let mut u: String = PEERINGDB_ORG.to_owned();
    u.append("?id__in=");
    u.append(join(&names, ",").as_str());
    u.append("&limit=100");
    u
}

/// The addresses that list organizations, at most a hundred each.
pub fn org_urls(ids: &[u64]) -> (r: Vec<String>)
    ensures
        r@.len() == org_chunks(ids@),
        forall|i: int| 0 <= i < r@.len() ==> (#[trigger] r@[i])@ == org_url(org_chunk(ids@, i)),
{
    let mut out: Vec<String> = Vec::new();
    let mut from: usize = 0;
    while from < ids.len()
        invariant
            from <= ids@.len(),
            from == ids@.len() || from == out@.len() * ORG_CHUNK,
            from < ids@.len() ==> out@.len() * ORG_CHUNK == from,
            from == ids@.len() ==> out@.len() == org_chunks(ids@),
            forall|i: int|
                0 <= i < out@.len() ==> (#[trigger] out@[i])@ == org_url(org_chunk(ids@, i)),
        decreases ids@.len() - from,
    {
        let ghost k = out@.len() as int;
        let to: usize = if ids.len() - from <= ORG_CHUNK {
            ids.len()
        } else {
            from + ORG_CHUNK
        };
        assert(ids@.subrange(from as int, to as int) == org_chunk(ids@, k));
        out.push(one_org_url(ids, from, to));
        from = to;
    }
    out
}

/// The groups of organizations, put behind one another, are all of them in order.
pub proof fn chunks_cover(ids: Seq<u64>)
    ensures
        chunks_upto(ids, org_chunks(ids)) == ids,
        forall|i: int|
            0 <= i < org_chunks(ids) ==> 0 < (#[trigger] org_chunk(ids, i)).len() <= ORG_CHUNK,
{
    lemma_chunks_upto(ids, org_chunks(ids));
    assert(chunks_upto(ids, org_chunks(ids)) =~= ids);
}

proof fn lemma_chunks_upto(ids: Seq<u64>, n: int)
    requires
        0 <= n <= org_chunks(ids),
    ensures
        chunks_upto(ids, n) == ids.subrange(
            0,
            if n * ORG_CHUNK <= ids.len() {
                n * ORG_CHUNK
            } else {
                ids.len() as int
            },
        ),
    decreases n,
{
    if n > 0 {
        lemma_chunks_upto(ids, n - 1);
        assert(chunks_upto(ids, n) =~= ids.subrange(
            0,
            if n * ORG_CHUNK <= ids.len() {
                n * ORG_CHUNK
            } else {
                ids.len() as int
            },
        ));
    }
}

/// The first `n` groups behind one another.
pub open spec fn chunks_upto(ids: Seq<u64>, n: int) -> Seq<u64>
    decreases n,
{
    if n <= 0 {
        Seq::empty()
    } else {
        chunks_upto(ids, n - 1) + org_chunk(ids, n - 1)
    }
}

// ---- websites ----

/// The host of the URL that a text spells.
pub uninterp spec fn url_host(s: Seq<char>) -> Option<Seq<char>>;

/// `url::Url::parse`, then `Url::host_str`: the host depends on the text alone. It is missing
/// where the text is no URL, or one without a host.
#[verifier::external_body]
fn parse_url_host(s: &str) -> (r: Option<String>)
    ensures
        opt_text(r) == url_host(s@),
{
    Url::parse(s).ok().and_then(|u| u.host_str().map(String::from))
}

/// A website with a scheme: `https` where it names none.
pub open spec fn with_scheme(w: Seq<char>) -> Seq<char> {
    if has_substring(w, "://"@) {
        w
    } else {
        "https://"@ + w
    }
}

/// The plain domain of a host, unless it is empty.
pub open spec fn host_domain(host: Option<Seq<char>>) -> Option<Seq<char>> {
    match host {
        Some(h) => if plain_domain(h).len() > 0 {
            Some(plain_domain(h))
        } else {
            None
        },
        None => None,
    }
}

/// The domain of a website.
pub open spec fn website_domain(w: Seq<char>) -> Option<Seq<char>> {
    if trimmed(w).len() == 0 {
        None
    } else {
        host_domain(url_host(with_scheme(trimmed(w))))
    }
}

/// Takes the domain of a host.
pub fn domain_of_host(host: &Option<String>) -> (r: Option<String>)
    ensures
        opt_text(r) == host_domain(opt_text(*host)),
{
    match host {
        Some(h) => {
            let d = normalize_domain(h.as_str());
            if d.as_str().is_empty() {
                None
            } else {
                Some(d)
            }
        },
        None => None,
    }
}

/// Takes the domain of a website.
pub fn website_to_domain(website: &str) -> (r: Option<String>)
    ensures
        opt_text(r) == website_domain(website@),
{
    let w = trim(website);
    if w.as_str().is_empty() {
        return None;
    }
    let full: String = if contains(w.as_str(), "://") {
        w
    } else {
        let mut s: String = "https://".to_owned();
        s.append(w.as_str());
        s
    };
    let host = parse_url_host(full.as_str());
    domain_of_host(&host)
}

// ---- the map ----

/// The organization has this network listed.
pub open spec fn lists_asn(nets: Seq<PdbNet>, org: u64, asn: u32) -> bool {
    exists|i: int|
        0 <= i < nets.len() && (#[trigger] nets[i]).org_id == org && nets[i].asn == asn
}

/// The organization has this network listed, and the network may be a subject.
pub open spec fn lists_subject(
    nets: Seq<PdbNet>,
    glue: Set<u32>,
    h: SubjectHeuristics,
    org: u64,
    asn: u32,
) -> bool {
    asn > 0 && lists_asn(nets, org, asn) && h.admits(asn, glue, None)
}

/// The position of the last entry for an organization among the first `n`.
pub open spec fn meta_upto(orgs: Seq<PdbOrg>, org: u64, n: int) -> Option<int>
    decreases n,
{
    if n <= 0 {
        None
    } else if orgs[n - 1].id == org {
        Some(n - 1)
    } else {
        meta_upto(orgs, org, n - 1)
    }
}

/// The entry of an organization: the last one listed.
pub open spec fn meta_of(orgs: Seq<PdbOrg>, org: u64) -> Option<PdbOrg> {
    match meta_upto(orgs, org, orgs.len() as int) {
        Some(i) => Some(orgs[i]),
        None => None,
    }
}

/// A website gives this domain.
pub open spec fn gives_domain(website: Option<String>, d: Seq<char>) -> bool {
    website matches Some(w) && website_domain(w@) == Some(d)
}

/// The website of the organization, or of one of its networks, gives this domain.
pub open spec fn lists_domain(
    nets: Seq<PdbNet>,
    orgs: Seq<PdbOrg>,
    org: u64,
    d: Seq<char>,
) -> bool {
    ||| meta_of(orgs, org) matches Some(m) && gives_domain(m.website, d)
    ||| exists|i: int|
        0 <= i < nets.len() && (#[trigger] nets[i]).org_id == org && gives_domain(
            nets[i].website,
            d,
        )
}

/// `rec` is the record of an organization: its subjects, its name, and the domains of its
/// websites.
pub open spec fn is_pdb_record(
    nets: Seq<PdbNet>,
    orgs: Seq<PdbOrg>,
    glue: Set<u32>,
    h: SubjectHeuristics,
    org: u64,
    rec: OrgView,
) -> bool {
    &&& rec.org_id == "pdb:"@ + decimal(org as nat)
    &&& rec.name == (match meta_of(orgs, org) {
        Some(m) => m.name@,
        None => "peeringdb-org-"@ + decimal(org as nat),
    })
    &&& rec.prefix_count_hint is None
    &&& rec.external_id == Some("peeringdb_org:"@ + decimal(org as nat))
    &&& forall|i: int, j: int|
        0 <= i < j < rec.asns.len() ==> #[trigger] rec.asns[i] < #[trigger] rec.asns[j]
    &&& forall|a: u32| #[trigger]
        rec.asns.contains(a) <==> lists_subject(nets, glue, h, org, a)
    &&& forall|i: int, j: int|
        0 <= i < j < rec.domains.len() ==> crate::text::text_less(
            #[trigger] rec.domains[i],
            #[trigger] rec.domains[j],
        )
    &&& forall|d: Seq<char>| #[trigger]
        rec.domains.contains(d) <==> lists_domain(nets, orgs, org, d)
}

/// `ids` are the organizations with a subject, in ascending order, and `recs` their records.
pub open spec fn are_pdb_records(
    nets: Seq<PdbNet>,
    orgs: Seq<PdbOrg>,
    glue: Set<u32>,
    h: SubjectHeuristics,
    ids: Seq<u64>,
    recs: Seq<OrgView>,
) -> bool {
    &&& ids.len() == recs.len()
    &&& forall|i: int, j: int| 0 <= i < j < ids.len() ==> #[trigger] ids[i] < #[trigger] ids[j]
    &&& forall|org: u64| #[trigger]
        ids.contains(org) <==> exists|a: u32| lists_subject(nets, glue, h, org, a)
    &&& forall|i: int|
        0 <= i < recs.len() ==> is_pdb_record(nets, orgs, glue, h, ids[i], #[trigger] recs[i])
}

/// `m` is the map that networks and organizations yield.
pub open spec fn is_pdb_map(
    nets: Seq<PdbNet>,
    orgs: Seq<PdbOrg>,
    glue: Set<u32>,
    h: SubjectHeuristics,
    m: OrgMap,
) -> bool {
    exists|ids: Seq<u64>, recs: Seq<OrgView>, kept: Seq<OrgView>|
        #![trigger are_pdb_records(nets, orgs, glue, h, ids, recs), normalizes_all(recs, kept)]
        are_pdb_records(nets, orgs, glue, h, ids, recs) && normalizes_all(recs, kept) && m.state()
            == registered_all(empty_state(), kept)
}

/// The organizations of networks, ascending, each once.
pub fn org_ids_of(nets: &[PdbNet]) -> (r: Vec<u64>)
    ensures
        forall|i: int, j: int| 0 <= i < j < r@.len() ==> #[trigger] r@[i] < #[trigger] r@[j],
        forall|org: u64| #[trigger]
            r@.contains(org) <==> exists|i: int|
                0 <= i < nets@.len() && (#[trigger] nets@[i]).org_id == org,
{
    let mut ids: Vec<u64> = Vec::new();
    let mut i: usize = 0;
    while i < nets.len()
        invariant
            i <= nets@.len(),
            ids@.len() == i,
            forall|k: int| 0 <= k < i ==> #[trigger] ids@[k] == nets@[k].org_id,
        decreases nets@.len() - i,
    {
        ids.push(nets[i].org_id);
        i += 1;
    }
    let ghost all = ids@;
    let out = sort_u64(ids);
    proof {
        assert forall|org: u64| #[trigger] out@.contains(org) <==> exists|i: int|
            0 <= i < nets@.len() && (#[trigger] nets@[i]).org_id == org by {
            assert(out@.contains(org) <==> all.contains(org));
            if all.contains(org) {
                let k = choose|k: int| 0 <= k < all.len() && all[k] == org;
                assert(nets@[k].org_id == org);
            }
            if exists|i: int| 0 <= i < nets@.len() && (#[trigger] nets@[i]).org_id == org {
                let k = choose|k: int| 0 <= k < nets@.len() && (#[trigger] nets@[k]).org_id == org;
                assert(all[k] == org);
            }
        }
    }
    out
}

/// `ps` are positions of networks of the organization, all of those before `n` among them.
spec fn is_group(nets: Seq<PdbNet>, org: u64, ps: Seq<usize>, n: int) -> bool {
    &&& forall|k: int|
        0 <= k < ps.len() ==> (#[trigger] ps[k]) < nets.len() && nets[ps[k] as int].org_id == org
    &&& forall|i: int|
        0 <= i < n && (#[trigger] nets[i]).org_id == org ==> ps.contains(i as usize)
}

fn group_by_org(nets: &[PdbNet]) -> (r: HashMap<u64, Vec<usize>>)
    ensures
        forall|org: u64| #[trigger]
            r@.contains_key(org) ==> is_group(nets@, org, r@[org]@, nets@.len() as int),
        forall|i: int| 0 <= i < nets@.len() ==> r@.contains_key((#[trigger] nets@[i]).org_id),
{
    let mut map: HashMap<u64, Vec<usize>> = HashMap::new();
    let mut i: usize = 0;
    while i < nets.len()
        invariant
            i <= nets@.len(),
            forall|org: u64| #[trigger]
                map@.contains_key(org) ==> is_group(nets@, org, map@[org]@, i as int),
            forall|k: int| 0 <= k < i ==> map@.contains_key((#[trigger] nets@[k]).org_id),
        decreases nets@.len() - i,
    {
        let org: u64 = nets[i].org_id;
        let ghost before = map@;
        let mut ps: Vec<usize> = match map.remove(&org) {
            Some(v) => v,
            None => Vec::new(),
        };
        let ghost was = ps@;
        ps.push(i);
        proof {
            if !before.contains_key(org) {
                assert forall|k: int| 0 <= k < i implies (#[trigger] nets@[k]).org_id != org by {
                    assert(before.contains_key(nets@[k].org_id));
                }
            }
            assert forall|k: int| 0 <= k < i + 1 && (#[trigger] nets@[k]).org_id == org implies
                ps@.contains(k as usize) by {
                if k == i {
                    assert(ps@[was.len() as int] == i);
                } else {
                    assert(was.contains(k as usize));
                    let q = choose|q: int| 0 <= q < was.len() && was[q] == k as usize;
                    assert(ps@[q] == k as usize);
                }
            }
            assert(is_group(nets@, org, ps@, i + 1));
        }
        map.insert(org, ps);
        proof {
            assert forall|o: u64| #[trigger] map@.contains_key(o) implies is_group(
                nets@,
                o,
                map@[o]@,
                i + 1,
            ) by {
                if o != org {
                    assert(before.contains_key(o));
                    assert(map@[o] == before[o]);
                    assert(is_group(nets@, o, before[o]@, i as int));
                }
            }
        }
        i += 1;
    }
    map
}

fn last_entries(orgs: &[PdbOrg]) -> (r: HashMap<u64, usize>)
    ensures
        forall|org: u64| #[trigger]
            r@.contains_key(org) <==> meta_upto(orgs@, org, orgs@.len() as int) is Some,
        forall|org: u64| #[trigger]
            r@.contains_key(org) ==> r@[org] < orgs@.len() && meta_upto(
                orgs@,
                org,
                orgs@.len() as int,
            ) == Some(r@[org] as int),
{
    let mut map: HashMap<u64, usize> = HashMap::new();
    let mut i: usize = 0;
    while i < orgs.len()
        invariant
            i <= orgs@.len(),
            forall|org: u64| #[trigger]
                map@.contains_key(org) <==> meta_upto(orgs@, org, i as int) is Some,
            forall|org: u64| #[trigger]
                map@.contains_key(org) ==> map@[org] < orgs@.len() && meta_upto(
                    orgs@,
                    org,
                    i as int,
                ) == Some(map@[org] as int),
        decreases orgs@.len() - i,
    {
        map.insert(orgs[i].id, i);
        i += 1;
    }
    map
}

fn add_website(
    domains: &mut Vec<String>,
    website: &Option<String>,
)
    ensures
        forall|d: Seq<char>| #[trigger]
            texts(final(domains)@).contains(d) <==> texts(old(domains)@).contains(d)
                || gives_domain(*website, d),
{
    let ghost before = domains@;
    if let Some(w) = website {
        if let Some(d) = website_to_domain(w.as_str()) {
            domains.push(d);
            proof {
                let bt = texts(before);
                let at = texts(domains@);
                assert(at =~= bt.push(d@));
                assert forall|x: Seq<char>| #[trigger] at.contains(x) <==> bt.contains(x)
                    || gives_domain(*website, x) by {
                    if bt.contains(x) {
                        let k = choose|k: int| 0 <= k < bt.len() && bt[k] == x;
                        assert(at[k] == x);
                    }
                    if x == d@ {
                        assert(at[bt.len() as int] == x);
                    }
                    if at.contains(x) && !bt.contains(x) {
                        let k = choose|k: int| 0 <= k < at.len() && at[k] == x;
                        if k < bt.len() {
                            assert(bt[k] == x);
                        }
                    }
                }
            }
        }
    }
}

fn text_with_number(head: &str, n: u64) -> (r: String)
    ensures
        r@ == head@ + decimal(n as nat),
{
    let mut s: String = head.to_owned();
    s.append(format_u64(n).as_str());
    s
}

/// The subjects of an organization.
fn subjects_of_group(
    nets: &[PdbNet],
    ps: &[usize],
    glue: &GlueSet,
    h: &SubjectHeuristics,
    org: u64,
) -> (r: Vec<u32>)
    requires
        is_group(nets@, org, ps@, nets@.len() as int),
    ensures
        forall|i: int, j: int| 0 <= i < j < r@.len() ==> #[trigger] r@[i] < #[trigger] r@[j],
        forall|a: u32| #[trigger] r@.contains(a) <==> lists_subject(nets@, glue@, *h, org, a),
{
    let mut asns: Vec<u32> = Vec::new();
    let mut k: usize = 0;
    while k < ps.len()
        invariant
            k <= ps@.len(),
            is_group(nets@, org, ps@, nets@.len() as int),
            forall|q: int|
                0 <= q < asns@.len() ==> lists_subject(nets@, glue@, *h, org, #[trigger] asns@[q]),
            forall|q: int|
                0 <= q < k && nets@[(#[trigger] ps@[q]) as int].asn > 0 && h.admits(
                    nets@[ps@[q] as int].asn,
                    glue@,
                    None,
                ) ==> asns@.contains(nets@[ps@[q] as int].asn),
        decreases ps@.len() - k,
    {
        let p: usize = ps[k];
        let asn: u32 = nets[p].asn;
        let ghost before = asns@;
        if asn > 0 && h.is_subject(asn, glue, None) {
            asns.push(asn);
            proof {
                assert(nets@[p as int].org_id == org);
                assert(lists_asn(nets@, org, asn));
                assert(asns@[before.len() as int] == asn);
            }
        }
        proof {
            assert forall|q: int|
                0 <= q < k + 1 && nets@[(#[trigger] ps@[q]) as int].asn > 0 && h.admits(
                    nets@[ps@[q] as int].asn,
                    glue@,
                    None,
                ) implies asns@.contains(nets@[ps@[q] as int].asn) by {
                if q < k {
                    let m = choose|m: int|
                        0 <= m < before.len() && before[m] == nets@[ps@[q] as int].asn;
                    assert(asns@[m] == before[m]);
                }
            }
        }
        k += 1;
    }
    let ghost all = asns@;
    let out = sort_u32(asns);
    assert(nets@.len() == nets.len());
    proof {
        assert forall|a: u32| #[trigger] out@.contains(a) <==> lists_subject(
            nets@,
            glue@,
            *h,
            org,
            a,
        ) by {
            assert(out@.contains(a) <==> all.contains(a));
            if all.contains(a) {
                let q = choose|q: int| 0 <= q < all.len() && all[q] == a;
                assert(lists_subject(nets@, glue@, *h, org, all[q]));
            }
            if lists_subject(nets@, glue@, *h, org, a) {
                let i = choose|i: int|
                    0 <= i < nets@.len() && (#[trigger] nets@[i]).org_id == org && nets@[i].asn == a;
                assert(ps@.contains(i as usize));
                let q = choose|q: int| 0 <= q < ps@.len() && ps@[q] == i as usize;
                assert(nets@[ps@[q] as int].asn == a);
            }
        }
    }
    out
}

/// The domains of an organization.
fn domains_of_group(
    nets: &[PdbNet],
    orgs: &[PdbOrg],
    ps: &[usize],
    meta: Option<usize>,
    org: u64,
) -> (r: Vec<String>)
    requires
        is_group(nets@, org, ps@, nets@.len() as int),
        match meta {
            Some(i) => i < orgs@.len() && meta_upto(orgs@, org, orgs@.len() as int) == Some(
                i as int,
            ),
            None => meta_upto(orgs@, org, orgs@.len() as int) is None,
        },
    ensures
        forall|i: int, j: int|
            0 <= i < j < texts(r@).len() ==> crate::text::text_less(
                #[trigger] texts(r@)[i],
                #[trigger] texts(r@)[j],
            ),
        forall|d: Seq<char>| #[trigger]
            texts(r@).contains(d) <==> lists_domain(nets@, orgs@, org, d),
{
    let mut domains: Vec<String> = Vec::new();
    assert(texts(domains@) =~= Seq::empty());
    if let Some(i) = meta {
        add_website(&mut domains, &orgs[i].website);
    }
    let mut k: usize = 0;
    while k < ps.len()
        invariant
            k <= ps@.len(),
            is_group(nets@, org, ps@, nets@.len() as int),
            forall|d: Seq<char>| #[trigger]
                texts(domains@).contains(d) <==> (meta_of(orgs@, org) matches Some(m)
                    && gives_domain(m.website, d)) || exists|q: int|
                    0 <= q < k && gives_domain(nets@[(#[trigger] ps@[q]) as int].website, d),
        decreases ps@.len() - k,
    {
        let p: usize = ps[k];
        let ghost before = texts(domains@);
        add_website(&mut domains, &nets[p].website);
        proof {
            assert forall|d: Seq<char>| #[trigger] texts(domains@).contains(d) <==> (meta_of(
                orgs@,
                org,
            ) matches Some(m) && gives_domain(m.website, d)) || exists|q: int|
                0 <= q < k + 1 && gives_domain(nets@[(#[trigger] ps@[q]) as int].website, d) by {
                assert(before.contains(d) <==> (meta_of(orgs@, org) matches Some(m)
                    && gives_domain(m.website, d)) || exists|q: int|
                    0 <= q < k && gives_domain(nets@[(#[trigger] ps@[q]) as int].website, d));
                if gives_domain(nets@[p as int].website, d) {
                    assert(gives_domain(nets@[ps@[k as int] as int].website, d));
                }
            }
        }
        k += 1;
    }
    let ghost all = texts(domains@);
    let out = sort_texts(domains);
    assert(nets@.len() == nets.len());
    proof {
        assert forall|d: Seq<char>| #[trigger] texts(out@).contains(d) <==> lists_domain(
            nets@,
            orgs@,
            org,
            d,
        ) by {
            assert(texts(out@).contains(d) <==> all.contains(d));
            if exists|q: int|
                0 <= q < ps@.len() && gives_domain(nets@[(#[trigger] ps@[q]) as int].website, d) {
                let q = choose|q: int|
                    0 <= q < ps@.len() && gives_domain(nets@[(#[trigger] ps@[q]) as int].website, d);
                assert(nets@[ps@[q] as int].org_id == org);
            }
            if exists|i: int|
                0 <= i < nets@.len() && (#[trigger] nets@[i]).org_id == org && gives_domain(
                    nets@[i].website,
                    d,
                ) {
                let i = choose|i: int|
                    0 <= i < nets@.len() && (#[trigger] nets@[i]).org_id == org && gives_domain(
                        nets@[i].website,
                        d,
                    );
                assert(ps@.contains(i as usize));
                let q = choose|q: int| 0 <= q < ps@.len() && ps@[q] == i as usize;
                assert(gives_domain(nets@[ps@[q] as int].website, d));
            }
        }
    }
    out
}

/// Builds the org map of listed networks and organizations: an organization for each that has a
/// network which may be a subject. Prefix counts are not known here.
pub fn build_org_map_from_peeringdb(
    glue: &GlueSet,
    opts: &PeeringDbBuildOptions,
    nets: &[PdbNet],
    orgs: &[PdbOrg],
) -> (r: OrgMap)
    ensures
        r.wf(),
        is_pdb_map(nets@, orgs@, glue@, opts.heuristics, r),
{
    let ids = org_ids_of(nets);
    let groups = group_by_org(nets);
    let entries = last_entries(orgs);
    let ghost h = opts.heuristics;
    let mut map = OrgMap::new();
    let ghost mut kept_ids: Seq<u64> = Seq::empty();
    let ghost mut recs: Seq<OrgView> = Seq::empty();
    let ghost mut kept: Seq<OrgView> = Seq::empty();
    let mut i: usize = 0;
    while i < ids.len()
        invariant
            i <= ids@.len(),
            h == opts.heuristics,
            map.wf(),
            forall|a: int, b: int|
                0 <= a < b < ids@.len() ==> #[trigger] ids@[a] < #[trigger] ids@[b],
            forall|org: u64| #[trigger]
                ids@.contains(org) <==> exists|k: int|
                    0 <= k < nets@.len() && (#[trigger] nets@[k]).org_id == org,
            forall|org: u64| #[trigger]
                groups@.contains_key(org) ==> is_group(
                    nets@,
                    org,
                    groups@[org]@,
                    nets@.len() as int,
                ),
            forall|k: int|
                0 <= k < nets@.len() ==> groups@.contains_key((#[trigger] nets@[k]).org_id),
            forall|org: u64| #[trigger]
                entries@.contains_key(org) <==> meta_upto(orgs@, org, orgs@.len() as int) is Some,
            forall|org: u64| #[trigger]
                entries@.contains_key(org) ==> entries@[org] < orgs@.len() && meta_upto(
                    orgs@,
                    org,
                    orgs@.len() as int,
                ) == Some(entries@[org] as int),
            kept_ids.len() == recs.len(),
            forall|a: int, b: int|
                0 <= a < b < kept_ids.len() ==> #[trigger] kept_ids[a] < #[trigger] kept_ids[b],
            forall|a: int|
                0 <= a < kept_ids.len() ==> exists|k: int|
                    0 <= k < i && ids@[k] == #[trigger] kept_ids[a],
            forall|k: int|
                0 <= k < i ==> (kept_ids.contains(#[trigger] ids@[k]) <==> exists|a: u32|
                    lists_subject(nets@, glue@, h, ids@[k], a)),
            forall|a: int|
                0 <= a < recs.len() ==> is_pdb_record(
                    nets@,
                    orgs@,
                    glue@,
                    h,
                    kept_ids[a],
                    #[trigger] recs[a],
                ),
            normalizes_all(recs, kept),
            map.state() == registered_all(empty_state(), kept),
        decreases ids@.len() - i,
    {
        let org: u64 = ids[i];
        proof {
            assert(ids@.contains(org));
            let k = choose|k: int| 0 <= k < nets@.len() && (#[trigger] nets@[k]).org_id == org;
            assert(groups@.contains_key(nets@[k].org_id));
        }
        let ghost ids0 = kept_ids;
        if let Some(ps) = groups.get(&org) {
            let asns = subjects_of_group(nets, ps, glue, &opts.heuristics, org);
            if asns.len() > 0 {
                let meta: Option<usize> = match entries.get(&org) {
                    Some(e) => Some(*e),
                    None => None,
                };
                let name: String = match meta {
                    Some(e) => orgs[e].name.clone(),
                    None => text_with_number("peeringdb-org-", org),
                };
                let domains = domains_of_group(nets, orgs, ps, meta, org);
                let rec = OrgRecord {
                    org_id: text_with_number("pdb:", org),
                    name,
                    asns,
                    domains,
                    prefix_count_hint: None,
                    external_id: Some(text_with_number("peeringdb_org:", org)),
                };
                let ghost mid = map.state();
                let ghost rv = rec@;
                map.insert(rec);
                proof {
                    assert(asns@.contains(asns@[0]));
                    assert(lists_subject(nets@, glue@, h, org, asns@[0]));
                    assert(is_pdb_record(nets@, orgs@, glue@, h, org, rv));
                    let n = choose|n: OrgView| #[trigger]
                        normalizes(rv, n) && map.state() == crate::orgs::registered(mid, n);
                    let more = kept.push(n);
                    let rmore = recs.push(rv);
                    assert(more.drop_last() =~= kept);
                    assert(normalizes_all(rmore, more)) by {
                        assert forall|q: int|
                            #![trigger rmore[q]]
                            #![trigger more[q]]
                            0 <= q < rmore.len() implies normalizes(rmore[q], more[q]) by {
                            if q < recs.len() {
                                assert(normalizes(recs[q], kept[q]));
                            }
                        }
                    }
                    let imore = kept_ids.push(org);
                    assert forall|a: int, b: int| 0 <= a < b < imore.len() implies
                        #[trigger] imore[a] < #[trigger] imore[b] by {
                        if b == kept_ids.len() {
                            let k = choose|k: int| 0 <= k < i && ids@[k] == kept_ids[a];
                            assert(ids@[k] < ids@[i as int]);
                        }
                    }
                    assert forall|a: int| 0 <= a < imore.len() implies exists|k: int|
                        0 <= k < i + 1 && ids@[k] == #[trigger] imore[a] by {
                        if a < kept_ids.len() {
                            let k = choose|k: int| 0 <= k < i && ids@[k] == kept_ids[a];
                            assert(ids@[k] == imore[a]);
                        } else {
                            assert(ids@[i as int] == imore[a]);
                        }
                    }
                    assert forall|k: int| 0 <= k < i + 1 implies (imore.contains(
                        #[trigger] ids@[k],
                    ) <==> exists|a: u32| lists_subject(nets@, glue@, h, ids@[k], a)) by {
                        if k < i {
                            if kept_ids.contains(ids@[k]) {
                                let q = choose|q: int|
                                    0 <= q < kept_ids.len() && kept_ids[q] == ids@[k];
                                assert(imore[q] == ids@[k]);
                            }
                            if imore.contains(ids@[k]) {
                                let q = choose|q: int| 0 <= q < imore.len() && imore[q] == ids@[k];
                                assert(ids@[k] < ids@[i as int]);
                                assert(kept_ids[q] == ids@[k]);
                            }
                        } else {
                            assert(imore[kept_ids.len() as int] == org);
                        }
                    }
                    assert forall|a: int| 0 <= a < rmore.len() implies is_pdb_record(
                        nets@,
                        orgs@,
                        glue@,
                        h,
                        imore[a],
                        #[trigger] rmore[a],
                    ) by {
                        if a < recs.len() {
                            assert(rmore[a] == recs[a]);
                        }
                    }
                    kept = more;
                    recs = rmore;
                    kept_ids = imore;
                }
            } else {
                proof {
                    assert forall|a: u32| !lists_subject(nets@, glue@, h, org, a) by {
                        assert(!asns@.contains(a));
                    }
                    if kept_ids.contains(org) {
                        let q = choose|q: int| 0 <= q < kept_ids.len() && kept_ids[q] == org;
                        let k = choose|k: int| 0 <= k < i && ids@[k] == kept_ids[q];
                        assert(ids@[k] < ids@[i as int]);
                    }
                }
            }
        }
        i += 1;
    }
    proof {
        assert forall|org: u64| #[trigger] kept_ids.contains(org) <==> exists|a: u32|
            lists_subject(nets@, glue@, h, org, a) by {
            if kept_ids.contains(org) {
                let q = choose|q: int| 0 <= q < kept_ids.len() && kept_ids[q] == org;
                let k = choose|k: int| 0 <= k < i && ids@[k] == kept_ids[q];
                assert(kept_ids.contains(ids@[k]));
            }
            if exists|a: u32| lists_subject(nets@, glue@, h, org, a) {
                let a = choose|a: u32| lists_subject(nets@, glue@, h, org, a);
                assert(ids@.contains(org));
                let k = choose|k: int| 0 <= k < ids@.len() && ids@[k] == org;
                assert(kept_ids.contains(ids@[k]));
            }
        }
        assert(are_pdb_records(nets@, orgs@, glue@, h, kept_ids, recs));
    }
    map
}


proof fn lemma_registered_records(kept: Seq<OrgView>, id: Seq<char>)
    requires
        registered_all(empty_state(), kept).records.contains_key(id),
    ensures
        kept.contains(registered_all(empty_state(), kept).records[id]),
    decreases kept.len(),
{
    if kept.len() > 0 {
        let head = kept.drop_last();
        if kept.last().org_id == id {
            assert(kept[kept.len() - 1] == kept.last());
        } else {
            lemma_registered_records(head, id);
            let rec = registered_all(empty_state(), head).records[id];
            let k = choose|k: int| 0 <= k < head.len() && head[k] == rec;
            assert(kept[k] == rec);
        }
    }
}

/// Every network of a map built from PeeringDB may be a subject; where the heuristics leave glue
/// out, none of them is glue.
pub proof fn pdb_map_holds_subjects(
    nets: Seq<PdbNet>,
    orgs: Seq<PdbOrg>,
    glue: Set<u32>,
    h: SubjectHeuristics,
    m: OrgMap,
    asn: u32,
)
    requires
        is_pdb_map(nets, orgs, glue, h, m),
        owned(m.state(), asn),
    ensures
        h.admits(asn, glue, None),
        h.exclude_glue ==> !glue.contains(asn),
{
    let (ids, recs, kept) = choose|ids: Seq<u64>, recs: Seq<OrgView>, kept: Seq<OrgView>|
        #![trigger are_pdb_records(nets, orgs, glue, h, ids, recs), normalizes_all(recs, kept)]
        are_pdb_records(nets, orgs, glue, h, ids, recs) && normalizes_all(recs, kept) && m.state()
            == registered_all(empty_state(), kept);
    let id = choose|id: Seq<char>|
        m.state().records.contains_key(id) && (#[trigger] m.state().records[id]).asns.contains(
            asn,
        );
    lemma_registered_records(kept, id);
    let k = choose|k: int| 0 <= k < kept.len() && kept[k] == m.state().records[id];
    assert(normalizes(recs[k], kept[k]));
    assert(recs[k].asns.contains(asn));
    assert(lists_subject(nets, glue, h, ids[k], asn));
}

/// A reply of 429, or from 500 to 599, is tried again after what it says, in seconds, or else after
/// twice as long as the time before, from two seconds up to sixty-four. After twelve such replies
/// the request is given up. Other replies from 400 to 499 are refusals; the rest are accepted.
pub proof fn replies_are_tried_again_while_there_is_hope(
    status: u16,
    attempt: u32,
    retry_after: Option<Seq<char>>,
)
    requires
        attempt >= 1,
    ensures
        ({
            let r = reply_action(status, attempt, retry_after);
            let busy = status == 429 || (status >= 500 && status < 600);
            &&& busy && attempt > 12 ==> r == ReplyAction::GiveUp
            &&& busy && attempt <= 12 ==> (r matches ReplyAction::Retry { seconds } && (
            retry_after matches Some(s) && number_in(s, u64::MAX as nat) is Some ==> seconds
                == number_in(retry_after->0, u64::MAX as nat)->0) && (retry_after is None
                || number_in(retry_after->0, u64::MAX as nat) is None ==> seconds == (
            if attempt == 1 {
                2int
            } else if attempt == 2 {
                4
            } else if attempt == 3 {
                8
            } else if attempt == 4 {
                16
            } else if attempt == 5 {
                32
            } else {
                64
            })))
            &&& !busy && status >= 400 && status < 500 ==> r == ReplyAction::Refused
            &&& !busy && !(status >= 400 && status < 500) ==> r == ReplyAction::Accept
        }),
{
    vstd::arithmetic::power2::lemma2_to64();
}

/// Requests lie at least 3.1 seconds apart, which is fewer than twenty a minute.
pub proof fn requests_are_fewer_than_twenty_a_minute()
    ensures
        MIN_INTERVAL_MILLIS == 3_100,
        20 * MIN_INTERVAL_MILLIS > 60_000,
{
}

/// Networks are asked for in pages of 250, each behind the one before it.
pub proof fn pages_follow_each_other(p: NetPages)
    ensures
        net_skip(p) == 250 * p.pages,
        net_url(net_skip(p) as nat) == "https://www.peeringdb.com/api/net"@ + "?limit="@ + decimal(
            250,
        ) + "&skip="@ + decimal((250 * p.pages) as nat),
        PAGE == 250,
{
}

/// Organizations are asked for by their identifiers, with commas between, at most a hundred at a
/// time.
pub proof fn organizations_are_asked_for_by_hundreds(ids: Seq<u64>)
    ensures
        forall|i: int|
            0 <= i < org_chunks(ids) ==> 0 < (#[trigger] org_chunk(ids, i)).len() <= 100,
        chunks_upto(ids, org_chunks(ids)) == ids,
        org_url(ids) == "https://www.peeringdb.com/api/org"@ + "?id__in="@ + joined(
            Seq::new(ids.len(), |i: int| decimal(ids[i] as nat)),
            ","@,
        ) + "&limit=100"@,
{
    chunks_cover(ids);
    assert(decimals(id_numbers(ids)) =~= Seq::new(ids.len(), |i: int| decimal(ids[i] as nat)));
}

/// The domain of a website is its host in plain form; a website without a scheme is read as if it
/// had `https`; a blank one, one that cannot be read, and one whose host is empty have none.
pub proof fn domains_are_hosts(w: Seq<char>, host: Seq<char>)
    ensures
        trimmed(w).len() == 0 ==> website_domain(w) is None,
        trimmed(w).len() > 0 && has_substring(trimmed(w), "://"@) && url_host(trimmed(w)) == Some(
            host,
        ) && plain_domain(host).len() > 0 ==> website_domain(w) == Some(plain_domain(host)),
        trimmed(w).len() > 0 && !has_substring(trimmed(w), "://"@) && url_host(
            "https://"@ + trimmed(w),
        ) == Some(host) && plain_domain(host).len() > 0 ==> website_domain(w) == Some(
            plain_domain(host),
        ),
        has_substring(trimmed(w), "://"@) && url_host(trimmed(w)) is None ==> website_domain(
            w,
        ) is None,
        plain_domain(host).len() == 0 ==> host_domain(Some(host)) is None,
        host_domain(None) is None,
{
}

proof fn lemma_pdb_records_kept(
    nets: Seq<PdbNet>,
    orgs: Seq<PdbOrg>,
    glue: Set<u32>,
    h: SubjectHeuristics,
    ids: Seq<u64>,
    recs: Seq<OrgView>,
    kept: Seq<OrgView>,
    k: int,
)
    requires
        are_pdb_records(nets, orgs, glue, h, ids, recs),
        normalizes_all(recs, kept),
        0 <= k < ids.len(),
    ensures
        registered_all(empty_state(), kept).records.contains_key(
            "pdb:"@ + decimal(ids[k] as nat),
        ),
        registered_all(empty_state(), kept).records["pdb:"@ + decimal(ids[k] as nat)] == kept[k],
        normalizes(recs[k], kept[k]),
        is_pdb_record(nets, orgs, glue, h, ids[k], recs[k]),
{
    assert(is_pdb_record(nets, orgs, glue, h, ids[k], recs[k]));
    assert(normalizes(recs[k], kept[k]));
    assert forall|j: int| k < j < kept.len() implies (#[trigger] kept[j]).org_id
        != kept[k].org_id by {
        assert(is_pdb_record(nets, orgs, glue, h, ids[j], recs[j]));
        assert(normalizes(recs[j], kept[j]));
        assert(ids[k] < ids[j]);
        let a = "pdb:"@ + decimal(ids[k] as nat);
        let b = "pdb:"@ + decimal(ids[j] as nat);
        if a == b {
            let n = "pdb:"@.len() as int;
            assert(a.subrange(n, a.len() as int) =~= decimal(ids[k] as nat));
            assert(b.subrange(n, b.len() as int) =~= decimal(ids[j] as nat));
            crate::text::decimal_injective(ids[k] as nat, ids[j] as nat);
        }
    }
    the_last_record_stays(empty_state(), kept, k);
}

/// A network that the registry lists for an organization, and that is no glue where glue is left
/// out, is in the map: under `pdb:` and the organization's number, with the organization's name
/// where the registry has one. No other network is there.
pub proof fn listed_networks_are_in_the_map(
    nets: Seq<PdbNet>,
    orgs: Seq<PdbOrg>,
    glue: Set<u32>,
    h: SubjectHeuristics,
    m: OrgMap,
    org: u64,
    asn: u32,
)
    requires
        is_pdb_map(nets, orgs, glue, h, m),
    ensures
        ({
            let id = "pdb:"@ + decimal(org as nat);
            let listed = asn > 0 && !(h.exclude_glue && glue.contains(asn)) && exists|i: int|
                0 <= i < nets.len() && (#[trigger] nets[i]).org_id == org && nets[i].asn == asn;
            &&& listed <==> m.state().records.contains_key(id)
                && m.state().records[id].asns.contains(asn)
            &&& listed ==> {
                let rec = m.state().records[id];
                &&& rec.org_id == id
                &&& rec.prefix_count_hint is None
                &&& rec.external_id == Some("peeringdb_org:"@ + decimal(org as nat))
                &&& forall|j: int|
                    #![trigger orgs[j]]
                    0 <= j < orgs.len() && orgs[j].id == org && (forall|k: int|
                        j < k < orgs.len() ==> (#[trigger] orgs[k]).id != org) ==> rec.name
                        == orgs[j].name@
                &&& (forall|j: int| 0 <= j < orgs.len() ==> (#[trigger] orgs[j]).id != org)
                    ==> rec.name == "peeringdb-org-"@ + decimal(org as nat)
            }
        }),
{
    let (ids, recs, kept) = choose|ids: Seq<u64>, recs: Seq<OrgView>, kept: Seq<OrgView>|
        #![trigger are_pdb_records(nets, orgs, glue, h, ids, recs), normalizes_all(recs, kept)]
        are_pdb_records(nets, orgs, glue, h, ids, recs) && normalizes_all(recs, kept) && m.state()
            == registered_all(empty_state(), kept);
    let id = "pdb:"@ + decimal(org as nat);
    let listed = asn > 0 && !(h.exclude_glue && glue.contains(asn)) && exists|i: int|
        0 <= i < nets.len() && (#[trigger] nets[i]).org_id == org && nets[i].asn == asn;
    assert(listed <==> lists_subject(nets, glue, h, org, asn)) by {
        if lists_asn(nets, org, asn) {
            let i = choose|i: int|
                0 <= i < nets.len() && (#[trigger] nets[i]).org_id == org && nets[i].asn == asn;
            assert(nets[i].org_id == org);
        }
    }
    if listed {
        assert(ids.contains(org));
        let k = choose|k: int| 0 <= k < ids.len() && ids[k] == org;
        lemma_pdb_records_kept(nets, orgs, glue, h, ids, recs, kept, k);
        assert(recs[k].asns.contains(asn));
        assert(kept[k].asns.contains(asn));
        assert forall|j: int|
            #![trigger orgs[j]]
            0 <= j < orgs.len() && orgs[j].id == org && (forall|q: int|
                j < q < orgs.len() ==> (#[trigger] orgs[q]).id != org) implies recs[k].name
            == orgs[j].name@ by {
            lemma_last_entry(orgs, org, orgs.len() as int, j);
        }
        if forall|j: int| 0 <= j < orgs.len() ==> (#[trigger] orgs[j]).id != org {
            lemma_no_entry(orgs, org, orgs.len() as int);
        }
    }
    if m.state().records.contains_key(id) && m.state().records[id].asns.contains(asn) {
        lemma_registered_records(kept, id);
        let k = choose|k: int| 0 <= k < kept.len() && kept[k] == m.state().records[id];
        lemma_registered_ids(kept, id);
        lemma_pdb_records_kept(nets, orgs, glue, h, ids, recs, kept, k);
        let a = "pdb:"@ + decimal(ids[k] as nat);
        assert(kept[k].org_id == a);
        assert(a == id);
        let n = "pdb:"@.len() as int;
        assert(a.subrange(n, a.len() as int) =~= decimal(ids[k] as nat));
        assert(id.subrange(n, id.len() as int) =~= decimal(org as nat));
        crate::text::decimal_injective(ids[k] as nat, org as nat);
        assert(recs[k].asns.contains(asn));
        assert(lists_subject(nets, glue, h, org, asn));
    }
}

proof fn lemma_registered_ids(kept: Seq<OrgView>, id: Seq<char>)
    requires
        registered_all(empty_state(), kept).records.contains_key(id),
    ensures
        registered_all(empty_state(), kept).records[id].org_id == id,
    decreases kept.len(),
{
    if kept.len() > 0 && kept.last().org_id != id {
        lemma_registered_ids(kept.drop_last(), id);
    }
}

proof fn lemma_last_entry(orgs: Seq<PdbOrg>, org: u64, n: int, j: int)
    requires
        0 <= j < n <= orgs.len(),
        orgs[j].id == org,
        forall|k: int| j < k < n ==> (#[trigger] orgs[k]).id != org,
    ensures
        meta_upto(orgs, org, n) == Some(j),
    decreases n,
{
    if j < n - 1 {
        assert(orgs[n - 1].id != org);
        lemma_last_entry(orgs, org, n - 1, j);
    }
}

proof fn lemma_no_entry(orgs: Seq<PdbOrg>, org: u64, n: int)
    requires
        n <= orgs.len(),
        forall|k: int| 0 <= k < n ==> (#[trigger] orgs[k]).id != org,
    ensures
        meta_upto(orgs, org, n) is None,
    decreases n,
{
    if n > 0 {
        assert(orgs[n - 1].id != org);
        lemma_no_entry(orgs, org, n - 1);
    }
}

/// An organization in the map has the domain of its website as the registry's last entry for it
/// gives it, and of the websites of its networks, glue among them; and no others.
pub proof fn domains_come_from_websites(
    nets: Seq<PdbNet>,
    orgs: Seq<PdbOrg>,
    glue: Set<u32>,
    h: SubjectHeuristics,
    m: OrgMap,
    org: u64,
    d: Seq<char>,
)
    requires
        is_pdb_map(nets, orgs, glue, h, m),
        m.state().records.contains_key("pdb:"@ + decimal(org as nat)),
        plain_domain(d) == d,
        d.len() > 0,
    ensures
        (exists|i: int|
            0 <= i < nets.len() && (#[trigger] nets[i]).org_id == org && (nets[i].website
                matches Some(w) && website_domain(w@) == Some(d))) ==> m.state().records["pdb:"@
            + decimal(org as nat)].domains.contains(d),
        (exists|j: int|
            0 <= j < orgs.len() && (#[trigger] orgs[j]).id == org && (forall|k: int|
                j < k < orgs.len() ==> (#[trigger] orgs[k]).id != org) && (orgs[j].website
                matches Some(w) && website_domain(w@) == Some(d))) ==> m.state().records["pdb:"@
            + decimal(org as nat)].domains.contains(d),
        m.state().records["pdb:"@ + decimal(org as nat)].domains.contains(d) ==> exists|
            x: Seq<char>,
        | #[trigger]
            plain_domain(x) == d && ((exists|i: int|
                0 <= i < nets.len() && (#[trigger] nets[i]).org_id == org && (nets[i].website
                    matches Some(w) && website_domain(w@) == Some(x))) || (exists|j: int|
                0 <= j < orgs.len() && (#[trigger] orgs[j]).id == org && (orgs[j].website
                    matches Some(w) && website_domain(w@) == Some(x)))),
{
    let (ids, recs, kept) = choose|ids: Seq<u64>, recs: Seq<OrgView>, kept: Seq<OrgView>|
        #![trigger are_pdb_records(nets, orgs, glue, h, ids, recs), normalizes_all(recs, kept)]
        are_pdb_records(nets, orgs, glue, h, ids, recs) && normalizes_all(recs, kept) && m.state()
            == registered_all(empty_state(), kept);
    let id = "pdb:"@ + decimal(org as nat);
    lemma_registered_records(kept, id);
    lemma_registered_ids(kept, id);
    let k = choose|k: int| 0 <= k < kept.len() && kept[k] == m.state().records[id];
    lemma_pdb_records_kept(nets, orgs, glue, h, ids, recs, kept, k);
    let a = "pdb:"@ + decimal(ids[k] as nat);
    let n = "pdb:"@.len() as int;
    assert(a.subrange(n, a.len() as int) =~= decimal(ids[k] as nat));
    assert(id.subrange(n, id.len() as int) =~= decimal(org as nat));
    crate::text::decimal_injective(ids[k] as nat, org as nat);
    if exists|j: int|
        0 <= j < orgs.len() && (#[trigger] orgs[j]).id == org && (forall|k: int|
            j < k < orgs.len() ==> (#[trigger] orgs[k]).id != org) && (orgs[j].website
            matches Some(w) && website_domain(w@) == Some(d)) {
        let j = choose|j: int|
            0 <= j < orgs.len() && (#[trigger] orgs[j]).id == org && (forall|k: int|
                j < k < orgs.len() ==> (#[trigger] orgs[k]).id != org) && (orgs[j].website
                matches Some(w) && website_domain(w@) == Some(d));
        lemma_last_entry(orgs, org, orgs.len() as int, j);
        assert(lists_domain(nets, orgs, org, d));
    }
    if exists|i: int|
        0 <= i < nets.len() && (#[trigger] nets[i]).org_id == org && (nets[i].website
            matches Some(w) && website_domain(w@) == Some(d)) {
        let i = choose|i: int|
            0 <= i < nets.len() && (#[trigger] nets[i]).org_id == org && (nets[i].website
                matches Some(w) && website_domain(w@) == Some(d));
        assert(gives_domain(nets[i].website, d));
        assert(lists_domain(nets, orgs, org, d));
    }
    if lists_domain(nets, orgs, org, d) {
        assert(recs[k].domains.contains(d));
        let q = choose|q: int| 0 <= q < recs[k].domains.len() && recs[k].domains[q] == d;
        assert(plain_domain(recs[k].domains[q]) == d);
        assert(kept[k].domains.contains(d));
    }
    if kept[k].domains.contains(d) {
        let q = choose|q: int|
            0 <= q < recs[k].domains.len() && plain_domain(#[trigger] recs[k].domains[q]) == d;
        let x = recs[k].domains[q];
        assert(recs[k].domains.contains(x));
        assert(lists_domain(nets, orgs, org, x));
        assert(plain_domain(x) == d);
        lemma_entry_bound(orgs, org, orgs.len() as int);
        if exists|i: int|
            0 <= i < nets.len() && (#[trigger] nets[i]).org_id == org && gives_domain(
                nets[i].website,
                x,
            ) {
            let i = choose|i: int|
                0 <= i < nets.len() && (#[trigger] nets[i]).org_id == org && gives_domain(
                    nets[i].website,
                    x,
                );
            assert(nets[i].website matches Some(w) && website_domain(w@) == Some(x));
        } else {
            let j = meta_upto(orgs, org, orgs.len() as int)->0;
            assert(gives_domain(orgs[j].website, x));
            assert(orgs[j].id == org);
        }
    }
}

proof fn lemma_entry_bound(orgs: Seq<PdbOrg>, org: u64, n: int)
    requires
        n <= orgs.len(),
    ensures
        meta_upto(orgs, org, n) matches Some(j) ==> 0 <= j < n && orgs[j].id == org,
    decreases n,
{
    if n > 0 {
        lemma_entry_bound(orgs, org, n - 1);
    }
}

} // verus!
