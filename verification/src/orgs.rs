//! Organizations with their networks and domains.

use crate::glue::{GlueSet, SubjectHeuristics};
use crate::order::{is_sorted_set_of_u32, sort_texts, sort_u32};
use crate::rib::copy_u32;
use crate::text::{
    begins_with, chars_of, is_space, joined, lines, lines_of, lowered,
    lowering_changes_capitals_only, same_text, split_char, split_on, starts_with_char, text_less,
    text_less_irreflexive, text_without_blanks_is_one_word, texts, to_ascii_lower, trim, trim_leading, trimmed, without_leading,
    words, words_hold_no_blank, words_of,
};
use crate::textmap::TextMap;
use std::collections::{HashMap, HashSet};
use vstd::prelude::*;
use vstd::seq_lib::lemma_seq_contains_after_push;

verus! {

broadcast use vstd::std_specs::hash::group_hash_axioms;

/// Stable identifier of an organization.
pub type OrgId = String;

/// An organization with its networks and domains.
#[derive(Debug)]
pub struct OrgRecord {
    pub org_id: OrgId,
    pub name: String,
    pub asns: Vec<u32>,
    pub domains: Vec<String>,
    /// Known number of prefixes, for subject heuristics.
    pub prefix_count_hint: Option<u32>,
    /// Identifier elsewhere.
    pub external_id: Option<String>,
}

/// What a record says.
#[verifier::ext_equal]
pub struct OrgView {
    pub org_id: Seq<char>,
    pub name: Seq<char>,
    pub asns: Seq<u32>,
    pub domains: Seq<Seq<char>>,
    pub prefix_count_hint: Option<u32>,
    pub external_id: Option<Seq<char>>,
}

/// The text of an optional string.
pub open spec fn opt_text(s: Option<String>) -> Option<Seq<char>> {
    match s {
        Some(t) => Some(t@),
        None => None,
    }
}

/// A copy of an optional string.
pub fn copy_opt_text(s: &Option<String>) -> (r: Option<String>)
    ensures
        opt_text(r) == opt_text(*s),
{
    match s {
        Some(t) => Some(t.clone()),
        None => None,
    }
}

/// A copy of a list of strings.
pub fn copy_texts(v: &[String]) -> (r: Vec<String>)
    ensures
        texts(r@) == texts(v@),
{
    let mut out: Vec<String> = Vec::new();
    let mut i: usize = 0;
    while i < v.len()
        invariant
            i <= v.len(),
            out.len() == i,
            forall|k: int| 0 <= k < i ==> (#[trigger] out@[k])@ == v@[k]@,
        decreases v.len() - i,
    {
        out.push(v[i].clone());
        i += 1;
    }
    assert(texts(out@) =~= texts(v@));
    out
}

/// Tells whether a list holds a text.
pub fn has_text(v: &[String], t: &str) -> (r: bool)
    ensures
        r == texts(v@).contains(t@),
{
    let mut i: usize = 0;
    while i < v.len()
        invariant
            i <= v.len(),
            forall|k: int| 0 <= k < i ==> (#[trigger] texts(v@)[k]) != t@,
        decreases v.len() - i,
    {
        assert(texts(v@)[i as int] == v@[i as int]@);
        if same_text(v[i].as_str(), t) {
            return true;
        }
        i += 1;
    }
    false
}

impl View for OrgRecord {
    type V = OrgView;

    open spec fn view(&self) -> OrgView {
        OrgView {
            org_id: self.org_id@,
            name: self.name@,
            asns: self.asns@,
            domains: texts(self.domains@),
            prefix_count_hint: self.prefix_count_hint,
            external_id: opt_text(self.external_id),
        }
    }
}

impl OrgRecord {
    /// A copy of the record.
    pub fn copy(&self) -> (r: OrgRecord)
        ensures
            r@ == self@,
    {
        OrgRecord {
            org_id: self.org_id.clone(),
            name: self.name.clone(),
            asns: copy_u32(self.asns.as_slice()),
            domains: copy_texts(&self.domains),
            prefix_count_hint: self.prefix_count_hint,
            external_id: copy_opt_text(&self.external_id),
        }
    }
}

// ---- domains ----

/// A domain in the form it is compared in: no blanks around, no wildcard or dot in front, lower
/// case.
pub open spec fn plain_domain(raw: Seq<char>) -> Seq<char> {
    lowered(without_leading(without_leading(trimmed(raw), "*."@), "."@))
}

/// Puts a domain in the form it is compared in.
pub fn normalize_domain(raw: &str) -> (r: String)
    ensures
        r@ == plain_domain(raw@),
{
    let t = trim(raw);
    let a = trim_leading(t.as_str(), "*.");
    let b = trim_leading(a.as_str(), ".");
    to_ascii_lower(b.as_str())
}

/// `d` is the plain form of a domain of `raw`, and not empty.
pub open spec fn is_plain_of(raw: Seq<Seq<char>>, d: Seq<char>) -> bool {
    d.len() > 0 && exists|i: int| 0 <= i < raw.len() && plain_domain(#[trigger] raw[i]) == d
}

/// `out` lists the plain forms of the domains of `raw` in ascending order.
pub open spec fn is_domain_list(out: Seq<Seq<char>>, raw: Seq<Seq<char>>) -> bool {
    &&& forall|i: int, j: int|
        0 <= i < j < out.len() ==> text_less(#[trigger] out[i], #[trigger] out[j])
    &&& forall|d: Seq<char>| #[trigger] out.contains(d) <==> is_plain_of(raw, d)
}

fn plain_domains(raw: &[String]) -> (r: Vec<String>)
    ensures
        is_domain_list(texts(r@), texts(raw@)),
{
    let ghost rt = texts(raw@);
    let mut kept: Vec<String> = Vec::new();
    let mut i: usize = 0;
    while i < raw.len()
        invariant
            i <= raw.len(),
            rt == texts(raw@),
            forall|k: int|
                0 <= k < kept@.len() ==> is_plain_of(rt, #[trigger] texts(kept@)[k]),
            forall|k: int|
                0 <= k < i && plain_domain(#[trigger] rt[k]).len() > 0 ==> texts(kept@).contains(
                    plain_domain(rt[k]),
                ),
        decreases raw.len() - i,
    {
        let d = normalize_domain(raw[i].as_str());
        assert(rt[i as int] == raw@[i as int]@);
        if !d.as_str().is_empty() {
            let ghost before = kept@;
            kept.push(d);
            proof {
                let kt = texts(kept@);
                assert(kt =~= texts(before).push(d@));
                assert(is_plain_of(rt, d@));
                assert forall|k: int| 0 <= k < kept@.len() implies is_plain_of(
                    rt,
                    #[trigger] texts(kept@)[k],
                ) by {
                    if k < before.len() {
                        assert(kt[k] == texts(before)[k]);
                    }
                }
                assert forall|k: int|
                    0 <= k < i + 1 && plain_domain(#[trigger] rt[k]).len() > 0 implies texts(
                    kept@,
                ).contains(plain_domain(rt[k])) by {
                    if k < i {
                        let q = choose|q: int|
                            0 <= q < texts(before).len() && texts(before)[q] == plain_domain(rt[k]);
                        assert(kt[q] == plain_domain(rt[k]));
                    } else {
                        assert(kt[before.len() as int] == d@);
                    }
                }
            }
        }
        i += 1;
    }
    let ghost kt = texts(kept@);
    let out = sort_texts(kept);
    proof {
        let ot = texts(out@);
        assert forall|d: Seq<char>| #[trigger] ot.contains(d) <==> is_plain_of(rt, d) by {
            assert(ot.contains(d) <==> kt.contains(d));
            if kt.contains(d) {
                let k = choose|k: int| 0 <= k < kt.len() && kt[k] == d;
                assert(is_plain_of(rt, kt[k]));
            }
            if is_plain_of(rt, d) {
                let k = choose|k: int| 0 <= k < rt.len() && plain_domain(#[trigger] rt[k]) == d;
                assert(kt.contains(plain_domain(rt[k])));
            }
        }
    }
    out
}

/// `n` is the record `r` as the map keeps it: networks ascending without repeats, domains plain
/// and ascending without repeats.
pub open spec fn normalizes(r: OrgView, n: OrgView) -> bool {
    &&& n.org_id == r.org_id
    &&& n.name == r.name
    &&& n.prefix_count_hint == r.prefix_count_hint
    &&& n.external_id == r.external_id
    &&& is_sorted_set_of_u32(n.asns, r.asns)
    &&& is_domain_list(n.domains, r.domains)
}

/// A text is a domain in the form it is compared in.
pub open spec fn is_plain(d: Seq<char>) -> bool {
    d.len() > 0 && exists|raw: Seq<char>| #[trigger] plain_domain(raw) == d
}

/// A record is as the map keeps it: networks ascending without repeats, domains plain and without
/// repeats.
pub open spec fn is_normal(n: OrgView) -> bool {
    &&& forall|i: int, j: int|
        0 <= i < j < n.asns.len() ==> #[trigger] n.asns[i] < #[trigger] n.asns[j]
    &&& n.domains.no_duplicates()
    &&& forall|i: int| 0 <= i < n.domains.len() ==> is_plain(#[trigger] n.domains[i])
}

/// A record as the map keeps it is in normal form.
pub proof fn normalized_records_are_normal(r: OrgView, n: OrgView)
    requires
        normalizes(r, n),
    ensures
        is_normal(n),
{
    assert forall|i: int, j: int|
        0 <= i < n.domains.len() && 0 <= j < n.domains.len() && i != j implies n.domains[i]
        != n.domains[j] by {
        text_less_irreflexive(n.domains[i]);
        if i < j {
            assert(text_less(n.domains[i], n.domains[j]));
        } else {
            assert(text_less(n.domains[j], n.domains[i]));
        }
    }
    assert forall|i: int| 0 <= i < n.domains.len() implies is_plain(#[trigger] n.domains[i]) by {
        assert(n.domains.contains(n.domains[i]));
        let k = choose|k: int|
            0 <= k < r.domains.len() && plain_domain(#[trigger] r.domains[k]) == n.domains[i];
        assert(plain_domain(r.domains[k]) == n.domains[i]);
    }
}

// ---- the map ----

/// The contents of an org map.
#[verifier::ext_equal]
pub struct OrgState {
    /// The organizations in the order in which they came.
    pub keys: Seq<Seq<char>>,
    pub records: Map<Seq<char>, OrgView>,
    /// The organizations registered for each network, in the order in which they came.
    pub asn_ids: Map<u32, Seq<Seq<char>>>,
    /// The organizations registered for each domain, in the order in which they came.
    pub domain_ids: Map<Seq<char>, Seq<Seq<char>>>,
}

/// What an index holds under a key; nothing where it has no such key.
pub open spec fn ids_at<K>(m: Map<K, Seq<Seq<char>>>, k: K) -> Seq<Seq<char>> {
    if m.contains_key(k) {
        m[k]
    } else {
        Seq::empty()
    }
}

/// An index with `id` behind what it holds under `k`.
pub open spec fn add_id<K>(
    m: Map<K, Seq<Seq<char>>>,
    k: K,
    id: Seq<char>,
) -> Map<K, Seq<Seq<char>>> {
    m.insert(k, ids_at(m, k).push(id))
}

/// An index with `id` behind what it holds under each of `ks`.
pub open spec fn add_id_to_all<K>(
    m: Map<K, Seq<Seq<char>>>,
    ks: Seq<K>,
    id: Seq<char>,
) -> Map<K, Seq<Seq<char>>>
    decreases ks.len(),
{
    if ks.len() == 0 {
        m
    } else {
        add_id(add_id_to_all(m, ks.drop_last(), id), ks.last(), id)
    }
}

/// The contents after a record came in.
pub open spec fn registered(st: OrgState, n: OrgView) -> OrgState {
    OrgState {
        keys: if st.records.contains_key(n.org_id) {
            st.keys
        } else {
            st.keys.push(n.org_id)
        },
        records: st.records.insert(n.org_id, n),
        asn_ids: add_id_to_all(st.asn_ids, n.asns, n.org_id),
        domain_ids: add_id_to_all(st.domain_ids, n.domains, n.org_id),
    }
}

impl OrgState {
    /// Keys and records agree; each record stands under its identifier, in normal form; each
    /// network and domain of a record leads to it; and the indexes lead to records only.
    pub open spec fn sound(&self) -> bool {
        &&& self.keys.no_duplicates()
        &&& forall|k: Seq<char>| #[trigger]
            self.keys.contains(k) <==> self.records.contains_key(k)
        &&& forall|k: Seq<char>| #[trigger]
            self.records.contains_key(k) ==> self.records[k].org_id == k && is_normal(
                self.records[k],
            )
        &&& forall|k: Seq<char>, a: u32|
            #![trigger self.records[k].asns.contains(a)]
            self.records.contains_key(k) && self.records[k].asns.contains(a) ==> ids_at(
                self.asn_ids,
                a,
            ).contains(k)
        &&& forall|k: Seq<char>, d: Seq<char>|
            #![trigger self.records[k].domains.contains(d)]
            self.records.contains_key(k) && self.records[k].domains.contains(d) ==> ids_at(
                self.domain_ids,
                d,
            ).contains(k)
        &&& forall|a: u32, i: int|
            #![trigger ids_at(self.asn_ids, a)[i]]
            0 <= i < ids_at(self.asn_ids, a).len() ==> self.records.contains_key(
                ids_at(self.asn_ids, a)[i],
            )
        &&& forall|d: Seq<char>, i: int|
            #![trigger ids_at(self.domain_ids, d)[i]]
            0 <= i < ids_at(self.domain_ids, d).len() ==> self.records.contains_key(
                ids_at(self.domain_ids, d)[i],
            )
    }

    /// The organization of a network: the one registered first.
    pub open spec fn org_of(&self, asn: u32) -> Option<OrgView> {
        let ids = ids_at(self.asn_ids, asn);
        if ids.len() > 0 {
            Some(self.records[ids[0]])
        } else {
            None
        }
    }

    /// The records of a list of identifiers.
    pub open spec fn records_of(&self, ids: Seq<Seq<char>>) -> Seq<OrgView> {
        ids.map_values(|id: Seq<char>| self.records[id])
    }
}

proof fn lemma_add_id_to_all<K>(m: Map<K, Seq<Seq<char>>>, ks: Seq<K>, id: Seq<char>)
    ensures
        forall|k: K| #[trigger]
            ids_at(m, k).is_prefix_of(ids_at(add_id_to_all(m, ks, id), k)),
        forall|k: K, i: int|
            #![trigger ids_at(add_id_to_all(m, ks, id), k)[i]]
            0 <= i < ids_at(add_id_to_all(m, ks, id), k).len() ==> ids_at(
                add_id_to_all(m, ks, id),
                k,
            )[i] == id || (i < ids_at(m, k).len() && ids_at(add_id_to_all(m, ks, id), k)[i]
                == ids_at(m, k)[i]),
        forall|k: K| #[trigger]
            ks.contains(k) ==> ids_at(add_id_to_all(m, ks, id), k).contains(id),
        forall|k: K|
            !ks.contains(k) ==> #[trigger] ids_at(add_id_to_all(m, ks, id), k) == ids_at(m, k),
    decreases ks.len(),
{
    let out = add_id_to_all(m, ks, id);
    if ks.len() == 0 {
        assert forall|k: K| #[trigger] ids_at(m, k).is_prefix_of(ids_at(out, k)) by {
            assert(ids_at(m, k) =~= ids_at(out, k).subrange(0, ids_at(m, k).len() as int));
        }
    } else {
        let head = ks.drop_last();
        let mid = add_id_to_all(m, head, id);
        lemma_add_id_to_all(m, head, id);
        let last = ks.last();
        assert forall|k: K| #[trigger] ids_at(m, k).is_prefix_of(ids_at(out, k)) by {
            assert(ids_at(m, k).is_prefix_of(ids_at(mid, k)));
            if k == last {
                assert(ids_at(out, k) =~= ids_at(mid, k).push(id));
            } else {
                assert(ids_at(out, k) == ids_at(mid, k));
            }
            assert(ids_at(m, k) =~= ids_at(out, k).subrange(0, ids_at(m, k).len() as int));
        }
        assert forall|k: K, i: int|
            #![trigger ids_at(out, k)[i]]
            0 <= i < ids_at(out, k).len() implies ids_at(out, k)[i] == id || (i < ids_at(
            m,
            k,
        ).len() && ids_at(out, k)[i] == ids_at(m, k)[i]) by {
            if k == last && i == ids_at(mid, k).len() {
            } else {
                assert(ids_at(out, k)[i] == ids_at(mid, k)[i]);
            }
        }
        assert forall|k: K| #[trigger] ks.contains(k) implies ids_at(out, k).contains(id) by {
            if k == last {
                assert(ids_at(out, k)[ids_at(mid, k).len() as int] == id);
            } else {
                let j = choose|j: int| 0 <= j < ks.len() && ks[j] == k;
                assert(head[j] == k);
                assert(head.contains(k));
            }
        }
        assert forall|k: K| !ks.contains(k) implies #[trigger] ids_at(out, k) == ids_at(m, k) by {
            assert(ks[ks.len() - 1] == last);
            if head.contains(k) {
                let j = choose|j: int| 0 <= j < head.len() && head[j] == k;
                assert(ks[j] == k);
            }
            assert(ids_at(mid, k) == ids_at(m, k));
            assert(k != last);
            assert(ids_at(out, k) == ids_at(mid, k));
        }
    }
}

proof fn lemma_registered_sound(st: OrgState, n: OrgView)
    requires
        st.sound(),
        is_normal(n),
    ensures
        registered(st, n).sound(),
{
    let out = registered(st, n);
    let id = n.org_id;
    lemma_add_id_to_all(st.asn_ids, n.asns, id);
    lemma_add_id_to_all(st.domain_ids, n.domains, id);
    assert(out.keys.no_duplicates()) by {
        if !st.records.contains_key(id) {
            assert(!st.keys.contains(id));
            assert forall|i: int, j: int|
                0 <= i < out.keys.len() && 0 <= j < out.keys.len() && i != j implies out.keys[i]
                != out.keys[j] by {
                if i == st.keys.len() {
                    assert(st.keys.contains(st.keys[j]));
                }
                if j == st.keys.len() {
                    assert(st.keys.contains(st.keys[i]));
                }
            }
        }
    }
    assert forall|k: Seq<char>| #[trigger] out.keys.contains(k) <==> out.records.contains_key(k) by {
        if st.keys.contains(k) {
            let i = choose|i: int| 0 <= i < st.keys.len() && st.keys[i] == k;
            assert(out.keys[i] == k);
        }
        if k == id && !st.records.contains_key(id) {
            assert(out.keys[st.keys.len() as int] == k);
        }
        if out.keys.contains(k) {
            let i = choose|i: int| 0 <= i < out.keys.len() && out.keys[i] == k;
            if i < st.keys.len() {
                assert(st.keys.contains(st.keys[i]));
            }
        }
        if k == id && st.records.contains_key(id) {
            assert(st.keys.contains(k));
        }
    }
    assert forall|k: Seq<char>, a: u32|
        #![trigger out.records[k].asns.contains(a)]
        out.records.contains_key(k) && out.records[k].asns.contains(a) implies ids_at(
        out.asn_ids,
        a,
    ).contains(k) by {
        if k == id {
            assert(n.asns.contains(a));
        } else {
            assert(st.records[k].asns.contains(a));
            let i = choose|i: int|
                0 <= i < ids_at(st.asn_ids, a).len() && ids_at(st.asn_ids, a)[i] == k;
            assert(ids_at(st.asn_ids, a).is_prefix_of(ids_at(out.asn_ids, a)));
            assert(ids_at(out.asn_ids, a)[i] == k);
        }
    }
    assert forall|k: Seq<char>, d: Seq<char>|
        #![trigger out.records[k].domains.contains(d)]
        out.records.contains_key(k) && out.records[k].domains.contains(d) implies ids_at(
        out.domain_ids,
        d,
    ).contains(k) by {
        if k == id {
            assert(n.domains.contains(d));
        } else {
            assert(st.records[k].domains.contains(d));
            let i = choose|i: int|
                0 <= i < ids_at(st.domain_ids, d).len() && ids_at(st.domain_ids, d)[i] == k;
            assert(ids_at(st.domain_ids, d).is_prefix_of(ids_at(out.domain_ids, d)));
            assert(ids_at(out.domain_ids, d)[i] == k);
        }
    }
}

/// The first organization registered for a network stays its organization, whatever records
/// come in later.
pub proof fn first_registration_wins(st: OrgState, n: OrgView, asn: u32)
    requires
        st.sound(),
        is_normal(n),
    ensures
        registered(st, n).sound(),
        st.org_of(asn) matches Some(o) ==> (registered(st, n).org_of(asn) matches Some(p)
            && p.org_id == o.org_id),
        st.org_of(asn) is None && n.asns.contains(asn) ==> registered(st, n).org_of(asn) == Some(n),
        st.org_of(asn) is None && !n.asns.contains(asn) ==> registered(st, n).org_of(asn) is None,
{
    lemma_registered_sound(st, n);
    lemma_add_id_to_all(st.asn_ids, n.asns, n.org_id);
    let out = registered(st, n);
    let a0 = ids_at(st.asn_ids, asn);
    let a1 = ids_at(out.asn_ids, asn);
    assert(a0.is_prefix_of(a1));
    if a0.len() > 0 {
        assert(a1[0] == a0[0]);
        assert(st.records.contains_key(ids_at(st.asn_ids, asn)[0]));
        assert(out.records.contains_key(a1[0]));
    } else if n.asns.contains(asn) {
        assert(a1.contains(n.org_id));
        assert(ids_at(out.asn_ids, asn)[0] == n.org_id);
    }
}

/// Many-to-many index of networks, organizations and domains.
pub struct OrgMap {
    orgs: TextMap<OrgRecord>,
    asn_to_orgs: HashMap<u32, Vec<String>>,
    domain_to_orgs: TextMap<Vec<String>>,
}

/// The views of the records by identifier.
pub open spec fn record_views(m: Map<Seq<char>, OrgRecord>) -> Map<Seq<char>, OrgView> {
    m.map_values(|r: OrgRecord| r@)
}

/// The texts of the lists of an index.
pub open spec fn list_views<K>(m: Map<K, Vec<String>>) -> Map<K, Seq<Seq<char>>> {
    m.map_values(|v: Vec<String>| texts(v@))
}

impl OrgMap {
    /// The contents.
    pub closed spec fn state(&self) -> OrgState {
        OrgState {
            keys: self.orgs.keys(),
            records: record_views(self.orgs.map()),
            asn_ids: list_views(self.asn_to_orgs@),
            domain_ids: list_views(self.domain_to_orgs.map()),
        }
    }

    /// The contents are sound.
    pub closed spec fn wf(&self) -> bool {
        self.orgs.wf() && self.domain_to_orgs.wf() && self.state().sound()
    }

    /// What well-formedness says of the contents.
    pub proof fn lemma_wf(&self)
        requires
            self.wf(),
        ensures
            self.state().sound(),
    {
    }

    /// A map without organizations.
    pub fn new() -> (r: Self)
        ensures
            r.wf(),
            r.state() == empty_state(),
    {
        let r = OrgMap {
            orgs: TextMap::new(),
            asn_to_orgs: HashMap::new(),
            domain_to_orgs: TextMap::new(),
        };
        proof {
            assert(r.state().records =~= Map::empty());
            assert(r.state().asn_ids =~= Map::empty());
            assert(r.state().domain_ids =~= Map::empty());
            assert(r.state() =~= empty_state());
        }
        r
    }

    /// The number of organizations.
    pub fn len(&self) -> (r: usize)
        requires
            self.wf(),
        ensures
            r == self.state().keys.len(),
    {
        self.orgs.len()
    }

    /// Tells whether there is no organization.
    pub fn is_empty(&self) -> (r: bool)
        requires
            self.wf(),
        ensures
            r == (self.state().keys.len() == 0),
    {
        self.orgs.len() == 0
    }

    /// The organization at a position, in the order in which they came.
    pub fn org_at(&self, i: usize) -> (r: &OrgRecord)
        requires
            self.wf(),
            i < self.state().keys.len(),
        ensures
            r@ == self.state().records[self.state().keys[i as int]],
            self.state().records.contains_key(self.state().keys[i as int]),
    {
        proof {
            self.orgs.lemma_wf();
            assert(self.orgs.map().contains_key(self.orgs.keys()[i as int]));
        }
        self.orgs.value_at(i)
    }

    /// The organizations, in the order in which they came.
    pub fn orgs(&self) -> (r: Vec<&OrgRecord>)
        requires
            self.wf(),
        ensures
            r@.len() == self.state().keys.len(),
            forall|i: int|
                0 <= i < r@.len() ==> (#[trigger] r@[i])@
                    == self.state().records[self.state().keys[i]],
    {
        let mut out: Vec<&OrgRecord> = Vec::new();
        let n: usize = self.len();
        let mut i: usize = 0;
        while i < n
            invariant
                self.wf(),
                n == self.state().keys.len(),
                i <= n,
                out@.len() == i,
                forall|k: int|
                    0 <= k < i ==> (#[trigger] out@[k])@
                        == self.state().records[self.state().keys[k]],
            decreases n - i,
        {
            out.push(self.org_at(i));
            i += 1;
        }
        out
    }

    /// The organization with an identifier.
    pub fn get(&self, org_id: &str) -> (r: Option<&OrgRecord>)
        requires
            self.wf(),
        ensures
            match r {
                Some(o) => self.state().records.contains_key(org_id@) && o@
                    == self.state().records[org_id@],
                None => !self.state().records.contains_key(org_id@),
            },
    {
        self.orgs.get(org_id)
    }

    fn index_asn(&mut self, asn: u32, id: &String)
        requires
            old(self).orgs.wf(),
            old(self).domain_to_orgs.wf(),
        ensures
            final(self).orgs == old(self).orgs,
            final(self).domain_to_orgs == old(self).domain_to_orgs,
            list_views(final(self).asn_to_orgs@) == add_id(
                list_views(old(self).asn_to_orgs@),
                asn,
                id@,
            ),
    {
        let ghost before = list_views(self.asn_to_orgs@);
        let mut ids: Vec<String> = match self.asn_to_orgs.remove(&asn) {
            Some(v) => v,
            None => Vec::new(),
        };
        let ghost was = texts(ids@);
        assert(was =~= ids_at(before, asn));
        ids.push(id.clone());
        assert(texts(ids@) =~= was.push(id@));
        self.asn_to_orgs.insert(asn, ids);
        assert(list_views(self.asn_to_orgs@) =~= add_id(before, asn, id@));
    }

    fn index_domain(&mut self, domain: &String, id: &String)
        requires
            old(self).orgs.wf(),
            old(self).domain_to_orgs.wf(),
        ensures
            final(self).orgs == old(self).orgs,
            final(self).asn_to_orgs == old(self).asn_to_orgs,
            final(self).domain_to_orgs.wf(),
            list_views(final(self).domain_to_orgs.map()) == add_id(
                list_views(old(self).domain_to_orgs.map()),
                domain@,
                id@,
            ),
    {
        let ghost before = list_views(self.domain_to_orgs.map());
        match self.domain_to_orgs.find(domain.as_str()) {
            Some(i) => {
                proof {
                    self.domain_to_orgs.lemma_wf();
                }
                let mut ids = self.domain_to_orgs.set_at(i, Vec::new());
                let ghost was = texts(ids@);
                assert(was == ids_at(before, domain@));
                ids.push(id.clone());
                assert(texts(ids@) =~= was.push(id@));
                self.domain_to_orgs.set_at(i, ids);
            },
            None => {
                let mut ids: Vec<String> = Vec::new();
                ids.push(id.clone());
                assert(texts(ids@) =~= Seq::<Seq<char>>::empty().push(id@));
                self.domain_to_orgs.insert(domain.clone(), ids);
            },
        }
        assert(list_views(self.domain_to_orgs.map()) =~= add_id(before, domain@, id@));
    }

    /// Adds an organization, in place of one with its identifier; registers it for its networks
    /// and domains.
    pub fn insert(&mut self, record: OrgRecord)
        requires
            old(self).wf(),
        ensures
            final(self).wf(),
            exists|n: OrgView| #[trigger]
                normalizes(record@, n) && final(self).state() == registered(old(self).state(), n),
    {
        let ghost before = *self;
        let ghost raw = record@;
        let domains = plain_domains(&record.domains);
        let kept = OrgRecord {
            org_id: record.org_id,
            name: record.name,
            asns: sort_u32(record.asns),
            domains,
            prefix_count_hint: record.prefix_count_hint,
            external_id: record.external_id,
        };
        let ghost n = kept@;
        assert(normalizes(raw, n));
        let org_id = kept.org_id.clone();
        let mut i: usize = 0;
        assert(n.asns.subrange(0, 0) =~= Seq::empty());
        while i < kept.asns.len()
            invariant
                i <= kept.asns@.len(),
                n == kept@,
                org_id@ == n.org_id,
                self.orgs == before.orgs,
                self.domain_to_orgs == before.domain_to_orgs,
                self.orgs.wf(),
                self.domain_to_orgs.wf(),
                list_views(self.asn_to_orgs@) == add_id_to_all(
                    list_views(before.asn_to_orgs@),
                    n.asns.subrange(0, i as int),
                    n.org_id,
                ),
            decreases kept.asns@.len() - i,
        {
            proof {
                let next = n.asns.subrange(0, i as int + 1);
                assert(next.drop_last() =~= n.asns.subrange(0, i as int));
                assert(next.last() == n.asns[i as int]);
            }
            let asn: u32 = kept.asns[i];
            self.index_asn(asn, &org_id);
            i += 1;
        }
        assert(n.asns.subrange(0, n.asns.len() as int) =~= n.asns);
        let mut j: usize = 0;
        assert(n.domains.subrange(0, 0) =~= Seq::empty());
        while j < kept.domains.len()
            invariant
                j <= kept.domains@.len(),
                n == kept@,
                org_id@ == n.org_id,
                self.orgs == before.orgs,
                self.orgs.wf(),
                self.domain_to_orgs.wf(),
                list_views(self.asn_to_orgs@) == add_id_to_all(
                    list_views(before.asn_to_orgs@),
                    n.asns,
                    n.org_id,
                ),
                list_views(self.domain_to_orgs.map()) == add_id_to_all(
                    list_views(before.domain_to_orgs.map()),
                    n.domains.subrange(0, j as int),
                    n.org_id,
                ),
            decreases kept.domains@.len() - j,
        {
            proof {
                let next = n.domains.subrange(0, j as int + 1);
                assert(next.drop_last() =~= n.domains.subrange(0, j as int));
                assert(next.last() == n.domains[j as int]);
                assert(n.domains[j as int] == kept.domains@[j as int]@);
            }
            self.index_domain(&kept.domains[j], &org_id);
            j += 1;
        }
        assert(n.domains.subrange(0, n.domains.len() as int) =~= n.domains);
        self.orgs.insert(org_id, kept);
        proof {
            assert(self.state().records =~= before.state().records.insert(n.org_id, n));
            assert(self.state() =~= registered(before.state(), n));
            normalized_records_are_normal(raw, n);
            lemma_registered_sound(before.state(), n);
        }
    }

    /// The organization of a network: the one registered first.
    pub fn org_for_asn(&self, asn: u32) -> (r: Option<&OrgRecord>)
        requires
            self.wf(),
        ensures
            match r {
                Some(o) => self.state().org_of(asn) == Some(o@),
                None => self.state().org_of(asn) is None,
            },
    {
        match self.asn_to_orgs.get(&asn) {
            Some(ids) => {
                assert(ids_at(self.state().asn_ids, asn) == texts(ids@));
                if ids.len() > 0 {
                    assert(self.state().records.contains_key(
                        ids_at(self.state().asn_ids, asn)[0],
                    ));
                    self.orgs.get(ids[0].as_str())
                } else {
                    None
                }
            },
            None => None,
        }
    }

    fn collect(&self, ids: &[String]) -> (r: Vec<&OrgRecord>)
        requires
            self.wf(),
            forall|i: int|
                0 <= i < ids@.len() ==> self.state().records.contains_key(
                    #[trigger] texts(ids@)[i],
                ),
        ensures
            r@.len() == ids@.len(),
            forall|i: int|
                0 <= i < r@.len() ==> (#[trigger] r@[i])@ == self.state().records[texts(ids@)[i]],
    {
        let mut out: Vec<&OrgRecord> = Vec::new();
        let mut i: usize = 0;
        while i < ids.len()
            invariant
                self.wf(),
                i <= ids.len(),
                forall|k: int|
                    0 <= k < ids@.len() ==> self.state().records.contains_key(
                        #[trigger] texts(ids@)[k],
                    ),
                out@.len() == i,
                forall|k: int|
                    0 <= k < i ==> (#[trigger] out@[k])@ == self.state().records[texts(ids@)[k]],
            decreases ids.len() - i,
        {
            assert(self.state().records.contains_key(texts(ids@)[i as int]));
            if let Some(o) = self.orgs.get(ids[i].as_str()) {
                out.push(o);
            }
            i += 1;
        }
        out
    }

    /// The organizations registered for a network, in the order in which they came.
    pub fn orgs_for_asn(&self, asn: u32) -> (r: Vec<&OrgRecord>)
        requires
            self.wf(),
        ensures
            r@.len() == ids_at(self.state().asn_ids, asn).len(),
            forall|i: int|
                0 <= i < r@.len() ==> (#[trigger] r@[i])@ == self.state().records_of(
                    ids_at(self.state().asn_ids, asn),
                )[i],
    {
        match self.asn_to_orgs.get(&asn) {
            Some(ids) => {
                proof {
                    assert(ids_at(self.state().asn_ids, asn) == texts(ids@));
                    assert forall|i: int|
                        0 <= i < ids@.len() implies self.state().records.contains_key(
                        #[trigger] texts(ids@)[i],
                    ) by {
                        assert(self.state().records.contains_key(
                            ids_at(self.state().asn_ids, asn)[i],
                        ));
                    }
                }
                self.collect(ids)
            },
            None => Vec::new(),
        }
    }

    /// The organizations registered for a domain, in the order in which they came.
    pub fn orgs_for_domain(&self, domain: &str) -> (r: Vec<&OrgRecord>)
        requires
            self.wf(),
        ensures
            r@.len() == ids_at(self.state().domain_ids, plain_domain(domain@)).len(),
            forall|i: int|
                0 <= i < r@.len() ==> (#[trigger] r@[i])@ == self.state().records_of(
                    ids_at(self.state().domain_ids, plain_domain(domain@)),
                )[i],
    {
        let d = normalize_domain(domain);
        match self.domain_to_orgs.get(d.as_str()) {
            Some(ids) => {
                proof {
                    assert(ids_at(self.state().domain_ids, d@) == texts(ids@));
                    assert forall|i: int|
                        0 <= i < ids@.len() implies self.state().records.contains_key(
                        #[trigger] texts(ids@)[i],
                    ) by {
                        assert(self.state().records.contains_key(
                            ids_at(self.state().domain_ids, d@)[i],
                        ));
                    }
                }
                self.collect(ids)
            },
            None => Vec::new(),
        }
    }

    /// The networks of the organizations that may be subjects, going by each organization's
    /// known prefix count.
    pub fn subject_asns(&self, glue: &GlueSet, heuristics: &SubjectHeuristics) -> (r: HashSet<u32>)
        requires
            self.wf(),
        ensures
            r@ == subjects_of(self.state(), glue@, *heuristics),
    {
        let mut out: HashSet<u32> = HashSet::new();
        let n: usize = self.len();
        let ghost st = self.state();
        let mut i: usize = 0;
        assert(subjects_upto(st, glue@, *heuristics, 0) =~= Set::empty());
        while i < n
            invariant
                self.wf(),
                st == self.state(),
                n == st.keys.len(),
                i <= n,
                out@ == subjects_upto(st, glue@, *heuristics, i as int),
            decreases n - i,
        {
            let org = self.org_at(i);
            let hint = org.prefix_count_hint;
            let ghost before = out@;
            let ghost rec = st.records[st.keys[i as int]];
            let mut j: usize = 0;
            while j < org.asns.len()
                invariant
                    j <= org.asns@.len(),
                    org.asns@ == rec.asns,
                    hint == rec.prefix_count_hint,
                    forall|a: u32| #[trigger]
                        out@.contains(a) <==> before.contains(a) || exists|k: int|
                            0 <= k < j && rec.asns[k] == a && heuristics.admits(
                                #[trigger] rec.asns[k],
                                glue@,
                                hint,
                            ),
                decreases org.asns@.len() - j,
            {
                let asn: u32 = org.asns[j];
                let ghost mid = out@;
                if heuristics.is_subject(asn, glue, hint) {
                    out.insert(asn);
                }
                proof {
                    assert forall|a: u32| #[trigger] out@.contains(a) <==> before.contains(a)
                        || exists|k: int|
                        0 <= k < j + 1 && rec.asns[k] == a && heuristics.admits(
                            #[trigger] rec.asns[k],
                            glue@,
                            hint,
                        ) by {
                        assert(mid.contains(a) <==> before.contains(a) || exists|k: int|
                            0 <= k < j && rec.asns[k] == a && heuristics.admits(
                                #[trigger] rec.asns[k],
                                glue@,
                                hint,
                            ));
                        if a == asn && heuristics.admits(asn, glue@, hint) {
                            assert(rec.asns[j as int] == a);
                        }
                    }
                }
                j += 1;
            }
            proof {
                assert forall|a: u32| #[trigger] out@.contains(a) <==> subjects_upto(
                    st,
                    glue@,
                    *heuristics,
                    i + 1,
                ).contains(a) by {
                    if before.contains(a) {
                        let k = choose|k: int|
                            0 <= k < i && is_subject_of(
                                #[trigger] st.records[st.keys[k]],
                                a,
                                glue@,
                                *heuristics,
                            );
                        assert(is_subject_of(st.records[st.keys[k]], a, glue@, *heuristics));
                    } else if out@.contains(a) {
                        let k = choose|k: int|
                            0 <= k < rec.asns.len() && rec.asns[k] == a && heuristics.admits(
                                #[trigger] rec.asns[k],
                                glue@,
                                hint,
                            );
                        assert(rec.asns.contains(a));
                        assert(is_subject_of(st.records[st.keys[i as int]], a, glue@, *heuristics));
                    }
                    if subjects_upto(st, glue@, *heuristics, i + 1).contains(a) {
                        let k = choose|k: int|
                            0 <= k < i + 1 && is_subject_of(
                                #[trigger] st.records[st.keys[k]],
                                a,
                                glue@,
                                *heuristics,
                            );
                        if k == i {
                            let q = choose|q: int| 0 <= q < rec.asns.len() && rec.asns[q] == a;
                            assert(heuristics.admits(rec.asns[q], glue@, hint));
                        } else {
                            assert(before.contains(a));
                        }
                    }
                }
                assert(out@ =~= subjects_upto(st, glue@, *heuristics, i + 1));
            }
            i += 1;
        }
        proof {
            lemma_subjects_upto_all(st, glue@, *heuristics);
        }
        out
    }

    /// The networks of the organizations that may be subjects, going by the prefix counts of a
    /// routing table. A network that the counts do not name has no known size, and no limit on
    /// sizes keeps it out.
    pub fn subject_asns_by_counts(
        &self,
        glue: &GlueSet,
        heuristics: &SubjectHeuristics,
        counts: &HashMap<u32, u32>,
    ) -> (r: HashSet<u32>)
        requires
            self.wf(),
        ensures
            forall|a: u32| #[trigger]
                r@.contains(a) <==> owned(self.state(), a) && heuristics.admits(
                    a,
                    glue@,
                    known_count(counts@, a),
                ),
    {
        let mut out: HashSet<u32> = HashSet::new();
        let n: usize = self.len();
        let ghost st = self.state();
        let mut i: usize = 0;
        while i < n
            invariant
                self.wf(),
                st == self.state(),
                n == st.keys.len(),
                i <= n,
                forall|a: u32| #[trigger]
                    out@.contains(a) <==> owned_upto(st, a, i as int) && heuristics.admits(
                        a,
                        glue@,
                        known_count(counts@, a),
                    ),
            decreases n - i,
        {
            let org = self.org_at(i);
            let ghost before = out@;
            let ghost rec = st.records[st.keys[i as int]];
            let mut j: usize = 0;
            while j < org.asns.len()
                invariant
                    j <= org.asns@.len(),
                    org.asns@ == rec.asns,
                    forall|a: u32| #[trigger]
                        out@.contains(a) <==> before.contains(a) || (rec.asns.subrange(
                            0,
                            j as int,
                        ).contains(a) && heuristics.admits(a, glue@, known_count(counts@, a))),
                decreases org.asns@.len() - j,
            {
                let asn: u32 = org.asns[j];
                let count: Option<u32> = match counts.get(&asn) {
                    Some(c) => Some(*c),
                    None => None,
                };
                let ghost mid = out@;
                if heuristics.is_subject(asn, glue, count) {
                    out.insert(asn);
                }
                proof {
                    let done = rec.asns.subrange(0, j as int);
                    let next = rec.asns.subrange(0, j as int + 1);
                    assert(next =~= done.push(asn));
                    assert forall|a: u32| #[trigger] out@.contains(a) <==> before.contains(a) || (
                    next.contains(a) && heuristics.admits(a, glue@, known_count(counts@, a))) by {
                        assert(mid.contains(a) <==> before.contains(a) || (done.contains(a)
                            && heuristics.admits(a, glue@, known_count(counts@, a))));
                        lemma_seq_contains_after_push(done, asn, a);
                    }
                }
                j += 1;
            }
            proof {
                assert(rec.asns.subrange(0, rec.asns.len() as int) =~= rec.asns);
                assert forall|a: u32| #[trigger] out@.contains(a) <==> owned_upto(st, a, i + 1)
                    && heuristics.admits(a, glue@, known_count(counts@, a)) by {
                    assert(before.contains(a) <==> owned_upto(st, a, i as int)
                        && heuristics.admits(a, glue@, known_count(counts@, a)));
                    if owned_upto(st, a, i as int) {
                        let k = choose|k: int|
                            0 <= k < i && (#[trigger] st.records[st.keys[k]]).asns.contains(a);
                        assert(st.records[st.keys[k]].asns.contains(a));
                    }
                    if rec.asns.contains(a) {
                        assert(st.records[st.keys[i as int]].asns.contains(a));
                    }
                }
            }
            i += 1;
        }
        proof {
            assert forall|a: u32| owned_upto(st, a, st.keys.len() as int) <==> owned(st, a) by {
                if owned_upto(st, a, st.keys.len() as int) {
                    let k = choose|k: int|
                        0 <= k < st.keys.len() && (
                        #[trigger] st.records[st.keys[k]]).asns.contains(a);
                    assert(st.keys.contains(st.keys[k]));
                    assert(st.records.contains_key(st.keys[k]));
                }
                if owned(st, a) {
                    let id = choose|id: Seq<char>|
                        st.records.contains_key(id) && (#[trigger] st.records[id]).asns.contains(
                            a,
                        );
                    assert(st.keys.contains(id));
                    let k = choose|k: int| 0 <= k < st.keys.len() && st.keys[k] == id;
                    assert(st.records[st.keys[k]].asns.contains(a));
                }
            }
        }
        out
    }
}

/// A map without organizations.
pub open spec fn empty_state() -> OrgState {
    OrgState {
        keys: Seq::empty(),
        records: Map::empty(),
        asn_ids: Map::empty(),
        domain_ids: Map::empty(),
    }
}

/// Some organization has the network.
pub open spec fn owned(st: OrgState, asn: u32) -> bool {
    exists|id: Seq<char>|
        st.records.contains_key(id) && (#[trigger] st.records[id]).asns.contains(asn)
}

spec fn owned_upto(st: OrgState, asn: u32, n: int) -> bool {
    exists|i: int| 0 <= i < n && (#[trigger] st.records[st.keys[i]]).asns.contains(asn)
}

/// The prefixes that a table of counts gives for a network, if it names the network.
pub open spec fn known_count(counts: Map<u32, u32>, asn: u32) -> Option<u32> {
    if counts.contains_key(asn) {
        Some(counts[asn])
    } else {
        None
    }
}

/// The count of a network; none where it has no count.
pub open spec fn count_of(counts: Map<u32, u32>, asn: u32) -> u32 {
    if counts.contains_key(asn) {
        counts[asn]
    } else {
        0
    }
}

/// The organization has the network, and the heuristics admit it with the organization's prefix
/// count.
pub open spec fn is_subject_of(
    rec: OrgView,
    asn: u32,
    glue: Set<u32>,
    heuristics: SubjectHeuristics,
) -> bool {
    rec.asns.contains(asn) && heuristics.admits(asn, glue, rec.prefix_count_hint)
}

/// The networks that may be subjects.
pub open spec fn subjects_of(
    st: OrgState,
    glue: Set<u32>,
    heuristics: SubjectHeuristics,
) -> Set<u32> {
    Set::new(
        |a: u32|
            exists|id: Seq<char>|
                st.records.contains_key(id) && is_subject_of(
                    #[trigger] st.records[id],
                    a,
                    glue,
                    heuristics,
                ),
    )
}

spec fn subjects_upto(
    st: OrgState,
    glue: Set<u32>,
    heuristics: SubjectHeuristics,
    n: int,
) -> Set<u32> {
    Set::new(
        |a: u32|
            exists|i: int|
                0 <= i < n && is_subject_of(#[trigger] st.records[st.keys[i]], a, glue, heuristics),
    )
}

proof fn lemma_subjects_upto_all(st: OrgState, glue: Set<u32>, heuristics: SubjectHeuristics)
    requires
        st.sound(),
    ensures
        subjects_upto(st, glue, heuristics, st.keys.len() as int) == subjects_of(
            st,
            glue,
            heuristics,
        ),
{
    let n = st.keys.len() as int;
    assert forall|a: u32|
        subjects_upto(st, glue, heuristics, n).contains(a) <==> subjects_of(
            st,
            glue,
            heuristics,
        ).contains(a) by {
        if subjects_upto(st, glue, heuristics, n).contains(a) {
            let i = choose|i: int|
                0 <= i < n && is_subject_of(#[trigger] st.records[st.keys[i]], a, glue, heuristics);
            assert(st.keys.contains(st.keys[i]));
            assert(is_subject_of(st.records[st.keys[i]], a, glue, heuristics));
        }
        if subjects_of(st, glue, heuristics).contains(a) {
            let id = choose|id: Seq<char>|
                st.records.contains_key(id) && is_subject_of(
                    #[trigger] st.records[id],
                    a,
                    glue,
                    heuristics,
                );
            assert(st.keys.contains(id));
            let i = choose|i: int| 0 <= i < n && st.keys[i] == id;
            assert(is_subject_of(st.records[st.keys[i]], a, glue, heuristics));
        }
    }
    assert(subjects_upto(st, glue, heuristics, n) =~= subjects_of(st, glue, heuristics));
}


// ---- several records at once ----

/// `ns` are the records `rs` as the map keeps them.
pub open spec fn normalizes_all(rs: Seq<OrgView>, ns: Seq<OrgView>) -> bool {
    &&& rs.len() == ns.len()
    &&& forall|i: int|
        #![trigger rs[i]]
        #![trigger ns[i]]
        0 <= i < rs.len() ==> normalizes(rs[i], ns[i])
}

/// The contents after several records came in, one behind the other.
pub open spec fn registered_all(st: OrgState, ns: Seq<OrgView>) -> OrgState
    decreases ns.len(),
{
    if ns.len() == 0 {
        st
    } else {
        registered(registered_all(st, ns.drop_last()), ns.last())
    }
}

/// The views of records.
pub open spec fn org_views(v: Seq<OrgRecord>) -> Seq<OrgView> {
    Seq::new(v.len(), |i: int| v[i]@)
}

/// The records of a map in the order in which they came.
pub open spec fn records_in_order(st: OrgState) -> Seq<OrgView> {
    Seq::new(st.keys.len(), |i: int| st.records[st.keys[i]])
}

proof fn lemma_registered_step(st: OrgState, rs: Seq<OrgView>, ns: Seq<OrgView>, i: int, n: OrgView)
    requires
        0 <= i < rs.len(),
        normalizes_all(rs.subrange(0, i), ns),
        normalizes(rs[i], n),
    ensures
        normalizes_all(rs.subrange(0, i + 1), ns.push(n)),
        registered_all(st, ns.push(n)) == registered(registered_all(st, ns), n),
{
    let more = ns.push(n);
    let r1 = rs.subrange(0, i + 1);
    assert forall|k: int|
        #![trigger r1[k]]
        #![trigger more[k]]
        0 <= k < r1.len() implies normalizes(r1[k], more[k]) by {
        if k < i {
            assert(rs.subrange(0, i)[k] == r1[k]);
            assert(normalizes(rs.subrange(0, i)[k], ns[k]));
        }
    }
    assert(more.drop_last() =~= ns);
}

impl OrgMap {
    /// The map of several records, added one behind the other.
    pub fn from_records(records: Vec<OrgRecord>) -> (r: Self)
        ensures
            r.wf(),
            exists|ns: Seq<OrgView>| #[trigger]
                normalizes_all(org_views(records@), ns) && r.state() == registered_all(
                    empty_state(),
                    ns,
                ),
    {
        let mut map = OrgMap::new();
        map.insert_all(records);
        map
    }

    fn insert_all(&mut self, records: Vec<OrgRecord>)
        requires
            old(self).wf(),
        ensures
            final(self).wf(),
            exists|ns: Seq<OrgView>| #[trigger]
                normalizes_all(org_views(records@), ns) && final(self).state() == registered_all(
                    old(self).state(),
                    ns,
                ),
    {
        let ghost st = self.state();
        let ghost rs = org_views(records@);
        let ghost mut ns: Seq<OrgView> = Seq::empty();
        let mut i: usize = 0;
        while i < records.len()
            invariant
                self.wf(),
                i <= records.len(),
                rs == org_views(records@),
                normalizes_all(rs.subrange(0, i as int), ns),
                self.state() == registered_all(st, ns),
            decreases records.len() - i,
        {
            let rec = records[i].copy();
            assert(rec@ == rs[i as int]);
            let ghost mid = self.state();
            self.insert(rec);
            proof {
                let n = choose|n: OrgView| #[trigger]
                    normalizes(rec@, n) && self.state() == registered(mid, n);
                lemma_registered_step(st, rs, ns, i as int, n);
                ns = ns.push(n);
            }
            i += 1;
        }
        assert(rs.subrange(0, rs.len() as int) =~= rs);
    }
}

/// Adds the organizations of another map, in place of those with their identifiers.
pub fn apply_org_overlay(map: &mut OrgMap, overlay: &OrgMap)
    requires
        old(map).wf(),
        overlay.wf(),
    ensures
        final(map).wf(),
        exists|ns: Seq<OrgView>| #[trigger]
            normalizes_all(records_in_order(overlay.state()), ns) && final(map).state()
                == registered_all(old(map).state(), ns),
{
    let ghost st = map.state();
    let ghost rs = records_in_order(overlay.state());
    let ghost mut ns: Seq<OrgView> = Seq::empty();
    let n: usize = overlay.len();
    let mut i: usize = 0;
    while i < n
        invariant
            map.wf(),
            overlay.wf(),
            n == overlay.state().keys.len(),
            i <= n,
            rs == records_in_order(overlay.state()),
            normalizes_all(rs.subrange(0, i as int), ns),
            map.state() == registered_all(st, ns),
        decreases n - i,
    {
        let rec = overlay.org_at(i).copy();
        assert(rec@ == rs[i as int]);
        let ghost mid = map.state();
        map.insert(rec);
        proof {
            let v = choose|v: OrgView| #[trigger]
                normalizes(rec@, v) && map.state() == registered(mid, v);
            lemma_registered_step(st, rs, ns, i as int, v);
            ns = ns.push(v);
        }
        i += 1;
    }
    assert(rs.subrange(0, rs.len() as int) =~= rs);
}

// ---- domain watchlists ----

/// The record with one more domain.
pub open spec fn with_domain(rec: OrgView, d: Seq<char>) -> OrgView {
    OrgView { domains: rec.domains.push(d), ..rec }
}

/// The contents after a domain was attached to an organization that may have it already.
pub open spec fn attach(st: OrgState, id: Seq<char>, d: Seq<char>) -> OrgState {
    if !st.records.contains_key(id) || st.records[id].domains.contains(d) {
        st
    } else {
        OrgState {
            keys: st.keys,
            records: st.records.insert(id, with_domain(st.records[id], d)),
            asn_ids: st.asn_ids,
            domain_ids: add_id(st.domain_ids, d, id),
        }
    }
}

/// The number of domains that attaching adds.
pub open spec fn attach_count(st: OrgState, id: Seq<char>, d: Seq<char>) -> nat {
    if !st.records.contains_key(id) || st.records[id].domains.contains(d) {
        0
    } else {
        1
    }
}

/// A character stands between the words of a name in lower case: the ASCII characters that no
/// label of a domain has.
pub open spec fn parts_words(c: char) -> bool {
    c <= '\u{7f}' && !('a' <= c <= 'z') && !('0' <= c <= '9') && c != '-'
}

/// The words of a name, in lower case.
pub open spec fn name_words(name: Seq<char>) -> Seq<Seq<char>> {
    words_of(
        lowered(name).map_values(
            |c: char|
                if parts_words(c) {
                    ' '
                } else {
                    c
                },
        ),
    )
}

/// An organization has a label: it is a word of the name, or a label of a domain.
pub open spec fn has_label(rec: OrgView, label: Seq<char>) -> bool {
    ||| name_words(rec.name).contains(label)
    ||| exists|i: int|
        0 <= i < rec.domains.len() && split_on(#[trigger] rec.domains[i], '.').contains(label)
}

/// The contents, and the number of domains added, after a domain was attached to each of the
/// first `n` organizations that have its label.
pub open spec fn attach_by_label(
    st: OrgState,
    d: Seq<char>,
    label: Seq<char>,
    n: int,
) -> (OrgState, nat)
    decreases n,
{
    if n <= 0 {
        (st, 0)
    } else {
        let (mid, count) = attach_by_label(st, d, label, n - 1);
        let id = st.keys[n - 1];
        if has_label(st.records[id], label) {
            (attach(mid, id, d), count + attach_count(mid, id, d))
        } else {
            (mid, count)
        }
    }
}

/// The contents, and the number of domains added, after a line of a watchlist. A domain that is
/// an identifier goes to that organization; another one to those that have its first label, as a
/// word of the name or a label of a domain. A domain that shares no label is passed over.
pub open spec fn enriched_by_line(st: OrgState, line: Seq<char>) -> (OrgState, nat) {
    let d = plain_domain(line);
    let label = split_on(d, '.')[0];
    if d.len() == 0 || d[0] == '#' {
        (st, 0)
    } else if st.records.contains_key(d) {
        (attach(st, d, d), attach_count(st, d, d))
    } else if label.len() == 0 {
        (st, 0)
    } else {
        attach_by_label(st, d, label, st.keys.len() as int)
    }
}

/// The contents, and the number of domains added, after the lines of a watchlist.
pub open spec fn enriched(st: OrgState, lines: Seq<Seq<char>>) -> (OrgState, nat)
    decreases lines.len(),
{
    if lines.len() == 0 {
        (st, 0)
    } else {
        let (mid, count) = enriched(st, lines.drop_last());
        let (end, more) = enriched_by_line(mid, lines.last());
        (end, count + more)
    }
}

proof fn lemma_attach_sound(st: OrgState, id: Seq<char>, d: Seq<char>)
    requires
        st.sound(),
        is_plain(d),
    ensures
        attach(st, id, d).sound(),
        attach(st, id, d).keys == st.keys,
        forall|k: Seq<char>|
            #![trigger attach(st, id, d).records[k]]
            k != id ==> attach(st, id, d).records[k] == st.records[k],
        attach(st, id, d).records.dom() == st.records.dom(),
{
    let out = attach(st, id, d);
    if st.records.contains_key(id) && !st.records[id].domains.contains(d) {
        assert(out.records.dom() =~= st.records.dom());
        assert(ids_at(out.domain_ids, d) == ids_at(st.domain_ids, d).push(id));
        assert(is_normal(with_domain(st.records[id], d)));
        assert forall|k: Seq<char>, x: Seq<char>|
            #![trigger out.records[k].domains.contains(x)]
            out.records.contains_key(k) && out.records[k].domains.contains(x) implies ids_at(
            out.domain_ids,
            x,
        ).contains(k) by {
            if k == id && x == d {
                assert(ids_at(out.domain_ids, d)[ids_at(st.domain_ids, d).len() as int] == id);
            } else {
                if k == id {
                    let i = choose|i: int|
                        0 <= i < out.records[k].domains.len() && out.records[k].domains[i] == x;
                    assert(st.records[k].domains[i] == x);
                }
                assert(st.records[k].domains.contains(x));
                let i = choose|i: int|
                    0 <= i < ids_at(st.domain_ids, x).len() && ids_at(st.domain_ids, x)[i] == k;
                assert(ids_at(out.domain_ids, x)[i] == k);
            }
        }
        assert forall|k: Seq<char>, a: u32|
            #![trigger out.records[k].asns.contains(a)]
            out.records.contains_key(k) && out.records[k].asns.contains(a) implies ids_at(
            out.asn_ids,
            a,
        ).contains(k) by {
            assert(st.records[k].asns.contains(a));
        }
        assert forall|x: Seq<char>, i: int|
            #![trigger ids_at(out.domain_ids, x)[i]]
            0 <= i < ids_at(out.domain_ids, x).len() implies out.records.contains_key(
            ids_at(out.domain_ids, x)[i],
        ) by {
            if x == d && i == ids_at(st.domain_ids, d).len() {
            } else {
                assert(ids_at(out.domain_ids, x)[i] == ids_at(st.domain_ids, x)[i]);
            }
        }
    }
}

proof fn lemma_attach_by_label(st: OrgState, d: Seq<char>, label: Seq<char>, n: int)
    requires
        st.sound(),
        is_plain(d),
        0 <= n <= st.keys.len(),
    ensures
        attach_by_label(st, d, label, n).0.sound(),
        attach_by_label(st, d, label, n).0.keys == st.keys,
        attach_by_label(st, d, label, n).1 <= n,
        forall|k: int|
            #![trigger st.keys[k]]
            n <= k < st.keys.len() ==> attach_by_label(st, d, label, n).0.records[st.keys[k]]
                == st.records[st.keys[k]],
    decreases n,
{
    if n > 0 {
        lemma_attach_by_label(st, d, label, n - 1);
        let mid = attach_by_label(st, d, label, n - 1).0;
        lemma_attach_sound(mid, st.keys[n - 1], d);
        let out = attach_by_label(st, d, label, n).0;
        assert forall|k: int|
            #![trigger st.keys[k]]
            n <= k < st.keys.len() implies out.records[st.keys[k]] == st.records[st.keys[k]] by {
            assert(st.keys[k] != st.keys[n - 1]);
        }
    }
}

/// Attaching a domain only ever adds: no organization, network or domain leaves.
pub proof fn enrichment_only_adds(st: OrgState, line: Seq<char>)
    requires
        st.sound(),
    ensures
        enriched_by_line(st, line).0.sound(),
        enriched_by_line(st, line).0.keys == st.keys,
        enriched_by_line(st, line).0.asn_ids == st.asn_ids,
        forall|id: Seq<char>|
            #![trigger enriched_by_line(st, line).0.records[id]]
            st.records.contains_key(id) ==> enriched_by_line(st, line).0.records.contains_key(id)
                && st.records[id].domains.is_prefix_of(
                enriched_by_line(st, line).0.records[id].domains,
            ),
{
    let d = plain_domain(line);
    let label = split_on(d, '.')[0];
    if d.len() > 0 {
        assert(is_plain(d));
        lemma_attach_sound(st, d, d);
        lemma_attach_by_label(st, d, label, st.keys.len() as int);
        lemma_label_only_adds(st, d, label, st.keys.len() as int);
    }
    assert forall|id: Seq<char>|
        #![trigger enriched_by_line(st, line).0.records[id]]
        st.records.contains_key(id) implies enriched_by_line(st, line).0.records.contains_key(id)
        && st.records[id].domains.is_prefix_of(
        enriched_by_line(st, line).0.records[id].domains,
    ) by {
        assert(st.keys.contains(id));
        let before = st.records[id].domains;
        let after = enriched_by_line(st, line).0.records[id].domains;
        if st.records.contains_key(d) && id != d {
            assert(attach(st, d, d).records[id] == st.records[id]);
        }
        if before.len() <= after.len() {
            assert(before =~= after.subrange(0, before.len() as int));
        }
    }
}

proof fn lemma_label_only_adds(st: OrgState, d: Seq<char>, label: Seq<char>, n: int)
    requires
        st.sound(),
        is_plain(d),
        0 <= n <= st.keys.len(),
    ensures
        attach_by_label(st, d, label, n).0.asn_ids == st.asn_ids,
        forall|id: Seq<char>|
            #![trigger attach_by_label(st, d, label, n).0.records[id]]
            st.records.contains_key(id) ==> st.records[id].domains.is_prefix_of(
                attach_by_label(st, d, label, n).0.records[id].domains,
            ),
    decreases n,
{
    let out = attach_by_label(st, d, label, n).0;
    if n > 0 {
        lemma_attach_by_label(st, d, label, n - 1);
        lemma_label_only_adds(st, d, label, n - 1);
        let mid = attach_by_label(st, d, label, n - 1).0;
        lemma_attach_sound(mid, st.keys[n - 1], d);
        assert forall|id: Seq<char>|
            #![trigger out.records[id]]
            st.records.contains_key(id) implies st.records[id].domains.is_prefix_of(
            out.records[id].domains,
        ) by {
            assert(st.records[id].domains.is_prefix_of(mid.records[id].domains));
            let before = st.records[id].domains;
            if id == st.keys[n - 1] {
                assert(before =~= out.records[id].domains.subrange(0, before.len() as int));
            }
        }
    } else {
        assert forall|id: Seq<char>|
            #![trigger out.records[id]]
            st.records.contains_key(id) implies st.records[id].domains.is_prefix_of(
            out.records[id].domains,
        ) by {
            let before = st.records[id].domains;
            assert(before =~= before.subrange(0, before.len() as int));
        }
    }
}

fn words_of_name(name: &str) -> (r: Vec<String>)
    ensures
        texts(r@) == name_words(name@),
{
    let lower = to_ascii_lower(name);
    let chars = chars_of(lower.as_str());
    let ghost spaced = lower@.map_values(
        |c: char|
            if parts_words(c) {
                ' '
            } else {
                c
            },
    );
    let mut out: String = String::new();
    let mut i: usize = 0;
    assert(out@ =~= spaced.subrange(0, 0));
    while i < chars.len()
        invariant
            i <= chars@.len(),
            chars@.len() == spaced.len(),
            forall|k: int|
                0 <= k < spaced.len() ==> #[trigger] spaced[k] == (if parts_words(chars@[k]) {
                    ' '
                } else {
                    chars@[k]
                }),
            out@ == spaced.subrange(0, i as int),
        decreases chars@.len() - i,
    {
        let c = chars[i];
        let parts = c <= '\u{7f}' && !('a' <= c && c <= 'z') && !('0' <= c && c <= '9') && c
            != '-';
        out.push(
            if parts {
                ' '
            } else {
                c
            },
        );
        i += 1;
        assert(out@ =~= spaced.subrange(0, i as int));
    }
    assert(out@ =~= spaced);
    words(out.as_str())
}

fn record_has_label(rec: &OrgRecord, label: &str) -> (r: bool)
    ensures
        r == has_label(rec@, label@),
{
    if has_text(&words_of_name(rec.name.as_str()), label) {
        return true;
    }
    let mut i: usize = 0;
    while i < rec.domains.len()
        invariant
            i <= rec.domains.len(),
            forall|k: int|
                0 <= k < i ==> !split_on(#[trigger] texts(rec.domains@)[k], '.').contains(label@),
        decreases rec.domains.len() - i,
    {
        assert(texts(rec.domains@)[i as int] == rec.domains@[i as int]@);
        if has_text(&split_char(rec.domains[i].as_str(), '.'), label) {
            assert(split_on(rec@.domains[i as int], '.').contains(label@));
            return true;
        }
        i += 1;
    }
    false
}

impl OrgMap {
    fn attach_domain(&mut self, i: usize, domain: &String) -> (added: bool)
        requires
            old(self).wf(),
            is_plain(domain@),
            i < old(self).state().keys.len(),
        ensures
            final(self).wf(),
            final(self).state() == attach(
                old(self).state(),
                old(self).state().keys[i as int],
                domain@,
            ),
            added == (attach_count(
                old(self).state(),
                old(self).state().keys[i as int],
                domain@,
            ) == 1),
    {
        let ghost before = *self;
        let ghost st = self.state();
        let ghost id = st.keys[i as int];
        proof {
            self.orgs.lemma_wf();
            assert(self.orgs.map().contains_key(self.orgs.keys()[i as int]));
            lemma_attach_sound(st, id, domain@);
        }
        if has_text(&self.orgs.value_at(i).domains, domain.as_str()) {
            return false;
        }
        let mut rec = self.orgs.value_at(i).copy();
        let ghost was = rec@;
        rec.domains.push(domain.clone());
        assert(texts(rec.domains@) =~= was.domains.push(domain@));
        assert(rec@ =~= with_domain(was, domain@));
        let org_id = self.orgs.key_at(i).clone();
        self.index_domain(domain, &org_id);
        self.orgs.set_at(i, rec);
        proof {
            assert(self.state().records =~= st.records.insert(id, with_domain(was, domain@)));
            assert(self.state() =~= attach(st, id, domain@));
        }
        true
    }

    fn enrich_line(&mut self, line: &str) -> (added: usize)
        requires
            old(self).wf(),
        ensures
            final(self).wf(),
            (final(self).state(), added as nat) == enriched_by_line(old(self).state(), line@),
            final(self).state().keys == old(self).state().keys,
            added <= old(self).state().keys.len(),
    {
        let ghost st = self.state();
        proof {
            enrichment_only_adds(st, line@);
        }
        let domain = normalize_domain(line);
        if domain.as_str().is_empty() || starts_with_char(domain.as_str(), '#') {
            return 0;
        }
        if let Some(i) = self.orgs.find(domain.as_str()) {
            assert(st.keys[i as int] == domain@);
            assert(st.keys.contains(domain@));
            return if self.attach_domain(i, &domain) {
                1
            } else {
                0
            };
        }
        let parts = split_char(domain.as_str(), '.');
        proof {
            crate::text::lemma_split_nonempty(domain@, '.');
            assert(texts(parts@).len() == parts@.len());
            assert(texts(parts@)[0] == parts@[0]@);
        }
        let label = &parts[0];
        if label.as_str().is_empty() {
            return 0;
        }
        let n: usize = self.orgs.len();
        let mut added: usize = 0;
        let mut i: usize = 0;
        while i < n
            invariant
                self.wf(),
                st.sound(),
                is_plain(domain@),
                n == st.keys.len(),
                self.state().keys == st.keys,
                i <= n,
                added <= i,
                (self.state(), added as nat) == attach_by_label(st, domain@, label@, i as int),
            decreases n - i,
        {
            proof {
                lemma_attach_by_label(st, domain@, label@, i as int);
                assert(st.keys.contains(st.keys[i as int]));
            }
            let hit = record_has_label(self.org_at(i), label.as_str());
            if hit {
                if self.attach_domain(i, &domain) {
                    added += 1;
                }
            }
            i += 1;
            proof {
                lemma_attach_by_label(st, domain@, label@, i as int);
            }
        }
        added
    }

    /// Attaches the domains of a watchlist, one per line, to organizations; gives the number of
    /// domains attached.
    pub fn enrich_domains_from_watchlist(&mut self, text: &str) -> (added: u128)
        requires
            old(self).wf(),
        ensures
            final(self).wf(),
            (final(self).state(), added as nat) == enriched(old(self).state(), lines_of(text@)),
    {
        let ghost st = self.state();
        let all = lines(text);
        let ghost ls = lines_of(text@);
        let orgs: usize = self.len();
        let mut added: u128 = 0;
        let mut i: usize = 0;
        assert(ls.subrange(0, 0) =~= Seq::empty());
        while i < all.len()
            invariant
                self.wf(),
                texts(all@) == ls,
                i <= all.len(),
                self.state().keys == st.keys,
                st.keys.len() == orgs,
                added <= i * usize::MAX,
                (self.state(), added as nat) == enriched(st, ls.subrange(0, i as int)),
            decreases all.len() - i,
        {
            proof {
                let next = ls.subrange(0, i as int + 1);
                assert(next.drop_last() =~= ls.subrange(0, i as int));
                assert(next.last() == ls[i as int]);
                assert(ls[i as int] == all@[i as int]@);
                assert(i * usize::MAX + usize::MAX == (i + 1) * usize::MAX) by (nonlinear_arith);
                assert((i + 1) * usize::MAX <= usize::MAX * usize::MAX) by (nonlinear_arith)
                    requires
                        i + 1 <= usize::MAX,
                ;
                assert(usize::MAX * usize::MAX <= u128::MAX) by (nonlinear_arith)
                    requires
                        usize::MAX <= 0xffff_ffff_ffff_ffff,
                ;
            }
            let more: usize = self.enrich_line(all[i].as_str());
            added = added + more as u128;
            i += 1;
        }
        assert(ls.subrange(0, ls.len() as int) =~= ls);
        added
    }
}

// ---- loading ----

/// Contents with the domains of a watchlist attached, where there is one.
pub open spec fn enriched_by(st: OrgState, watchlist: Option<Seq<char>>) -> OrgState {
    match watchlist {
        Some(text) => enriched(st, lines_of(text)).0,
        None => st,
    }
}

/// What a borrowed text says, where there is one.
pub open spec fn opt_str(s: Option<&str>) -> Option<Seq<char>> {
    match s {
        Some(t) => Some(t@),
        None => None,
    }
}

/// The records of a map that lies over another, where there is one.
pub open spec fn overlay_records(overlay: Option<&OrgMap>) -> Seq<OrgView> {
    match overlay {
        Some(o) => records_in_order(o.state()),
        None => Seq::empty(),
    }
}

/// Contents made of records, of records over them, and of a watchlist.
pub open spec fn is_loaded(
    records: Seq<OrgView>,
    over: Seq<OrgView>,
    watchlist: Option<Seq<char>>,
    out: OrgState,
) -> bool {
    exists|ns: Seq<OrgView>, os: Seq<OrgView>| #[trigger]
        normalizes_all(records, ns) && #[trigger] normalizes_all(over, os) && out == enriched_by(
            registered_all(registered_all(empty_state(), ns), os),
            watchlist,
        )
}

/// The map of records, with those of another map over them, and with the domains of a watchlist
/// attached.
pub fn load_org_map(
    records: Vec<OrgRecord>,
    extra: Option<&str>,
    overlay: Option<&OrgMap>,
) -> (r: OrgMap)
    requires
        overlay is Some ==> overlay->0.wf(),
    ensures
        r.wf(),
        is_loaded(org_views(records@), overlay_records(overlay), opt_str(extra), r.state()),
{
    let ghost rs = org_views(records@);
    let mut map = OrgMap::from_records(records);
    let ghost ns = choose|ns: Seq<OrgView>| #[trigger]
        normalizes_all(rs, ns) && map.state() == registered_all(empty_state(), ns);
    let ghost st = map.state();
    let ghost mut os: Seq<OrgView> = Seq::empty();
    if let Some(o) = overlay {
        apply_org_overlay(&mut map, o);
        proof {
            os = choose|os: Seq<OrgView>| #[trigger]
                normalizes_all(records_in_order(o.state()), os) && map.state() == registered_all(
                    st,
                    os,
                );
        }
    }
    assert(normalizes_all(overlay_records(overlay), os));
    assert(map.state() == registered_all(st, os));
    if let Some(t) = extra {
        let _ = map.enrich_domains_from_watchlist(t);
    }
    map
}

// ---- laws ----

/// A domain in plain form stays as it is, and is what it is with a wildcard, a dot or blanks before
/// it, or with blanks behind it. The plain form has no capital letters.
pub proof fn plain_domains_stay_plain(d: Seq<char>, blanks: Seq<char>)
    requires
        d.len() > 0,
        !is_space(d[0]) && !is_space(d.last()),
        d[0] != '*' && d[0] != '.',
        lowered(d) == d,
        forall|i: int| 0 <= i < blanks.len() ==> is_space(#[trigger] blanks[i]),
    ensures
        plain_domain(d) == d,
        plain_domain("*."@ + d) == d,
        plain_domain("."@ + d) == d,
        plain_domain(blanks + d + blanks) == d,
        lowered(plain_domain(blanks)) == plain_domain(blanks),
{
    reveal_strlit("*.");
    reveal_strlit(".");
    lemma_plain(d, d);
    let w = "*."@ + d;
    assert(w[0] == '*' && w.last() == d.last());
    lemma_untrimmed(w);
    assert(begins_with(w, "*."@)) by {
        assert(w.subrange(0, 2) =~= "*."@);
    }
    assert(w.subrange(2, w.len() as int) =~= d);
    lemma_not_leading(d, "*."@);
    lemma_not_leading(d, "."@);
    let p = "."@ + d;
    assert(p[0] == '.' && p.last() == d.last());
    lemma_untrimmed(p);
    lemma_not_leading(p, "*."@);
    assert(begins_with(p, "."@)) by {
        assert(p.subrange(0, 1) =~= "."@);
    }
    assert(p.subrange(1, p.len() as int) =~= d);
    lemma_blanks_trim(blanks, d, blanks);
    lemma_untrimmed(d);
    let x = without_leading(without_leading(trimmed(blanks), "*."@), "."@);
    if x.len() > 0 {
        lowering_changes_capitals_only(x, 0);
    } else {
        assert(lowered(lowered(x)) =~= lowered(x));
    }
}

proof fn lemma_plain(d: Seq<char>, t: Seq<char>)
    requires
        d.len() > 0,
        !is_space(d[0]) && !is_space(d.last()),
        d[0] != '*' && d[0] != '.',
        lowered(d) == d,
        trimmed(t) == d,
    ensures
        plain_domain(t) == d,
{
    reveal_strlit("*.");
    reveal_strlit(".");
    lemma_not_leading(d, "*."@);
    lemma_not_leading(d, "."@);
}

proof fn lemma_not_leading(s: Seq<char>, p: Seq<char>)
    requires
        s.len() > 0,
        p.len() > 0,
        s[0] != p[0],
    ensures
        without_leading(s, p) == s,
{
    if begins_with(s, p) {
        assert(s.subrange(0, p.len() as int)[0] == p[0]);
    }
}

proof fn lemma_untrimmed(s: Seq<char>)
    requires
        s.len() > 0,
        !is_space(s[0]) && !is_space(s.last()),
    ensures
        trimmed(s) == s,
{
}

proof fn lemma_blanks_trim(a: Seq<char>, d: Seq<char>, b: Seq<char>)
    requires
        d.len() > 0,
        !is_space(d[0]) && !is_space(d.last()),
        forall|i: int| 0 <= i < a.len() ==> is_space(#[trigger] a[i]),
        forall|i: int| 0 <= i < b.len() ==> is_space(#[trigger] b[i]),
    ensures
        trimmed(a + d + b) == d,
    decreases a.len() + b.len(),
{
    let s = a + d + b;
    if a.len() > 0 {
        let rest = a.subrange(1, a.len() as int);
        assert(s[0] == a[0]);
        assert(s.subrange(1, s.len() as int) =~= rest + d + b);
        assert forall|i: int| 0 <= i < rest.len() implies is_space(#[trigger] rest[i]) by {
            assert(rest[i] == a[i + 1]);
        }
        lemma_blanks_trim(rest, d, b);
    } else if b.len() > 0 {
        let rest = b.drop_last();
        assert(s[0] == d[0]);
        assert(s.last() == b.last());
        assert(is_space(b[b.len() - 1]));
        assert(s.drop_last() =~= a + d + rest);
        lemma_blanks_trim(a, d, rest);
        assert((a + d + rest)[0] == d[0]);
    } else {
        assert(s =~= d);
        lemma_untrimmed(d);
    }
}

/// The subjects of a map are the networks that some organization of it has, that are no glue, as
/// long as that is asked for, and whose organization's number of prefixes, where it is given, is
/// neither above the most nor below the least.
pub proof fn subjects_are_owned_and_admitted(
    st: OrgState,
    glue: Set<u32>,
    h: SubjectHeuristics,
    asn: u32,
)
    ensures
        subjects_of(st, glue, h).contains(asn) <==> exists|id: Seq<char>|
            #![trigger st.records[id]]
            {
                &&& st.records.contains_key(id)
                &&& st.records[id].asns.contains(asn)
                &&& !(h.exclude_glue && glue.contains(asn))
                &&& st.records[id].prefix_count_hint matches Some(n) ==> (h.max_prefixes is None || n
                    <= h.max_prefixes->0) && (h.min_prefixes is None || n >= h.min_prefixes->0)
            },
{
    if subjects_of(st, glue, h).contains(asn) {
        let id = choose|id: Seq<char>|
            st.records.contains_key(id) && is_subject_of(#[trigger] st.records[id], asn, glue, h);
        assert(st.records[id].asns.contains(asn));
    }
    if exists|id: Seq<char>|
        #![trigger st.records[id]]
        {
            &&& st.records.contains_key(id)
            &&& st.records[id].asns.contains(asn)
            &&& !(h.exclude_glue && glue.contains(asn))
            &&& st.records[id].prefix_count_hint matches Some(n) ==> (h.max_prefixes is None || n
                <= h.max_prefixes->0) && (h.min_prefixes is None || n >= h.min_prefixes->0)
        } {
        let id = choose|id: Seq<char>|
            #![trigger st.records[id]]
            {
                &&& st.records.contains_key(id)
                &&& st.records[id].asns.contains(asn)
                &&& !(h.exclude_glue && glue.contains(asn))
                &&& st.records[id].prefix_count_hint matches Some(n) ==> (h.max_prefixes is None || n
                    <= h.max_prefixes->0) && (h.min_prefixes is None || n >= h.min_prefixes->0)
            };
        assert(is_subject_of(st.records[id], asn, glue, h));
    }
}

/// A network is owned just where an organization of the map has it; a count is known just where the
/// table of counts has it.
pub proof fn owners_and_counts_are_listed(st: OrgState, asn: u32, counts: Map<u32, u32>)
    ensures
        owned(st, asn) <==> exists|id: Seq<char>|
            st.records.contains_key(id) && (#[trigger] st.records[id]).asns.contains(asn),
        known_count(counts, asn) is Some <==> counts.contains_key(asn),
        counts.contains_key(asn) ==> known_count(counts, asn) == Some(counts[asn]) && count_of(
            counts,
            asn,
        ) == counts[asn],
        !counts.contains_key(asn) ==> count_of(counts, asn) == 0,
{
}

/// A record that comes in is found under its identifier, with its name, hint and reference, its
/// networks in ascending order and without repeats, and the plain forms of its domains. It takes
/// the place of one with its identifier; every other record is as it was, and the order of
/// organizations too.
pub proof fn records_are_found_as_they_came(st: OrgState, r: OrgView, n: OrgView, other: Seq<char>)
    requires
        st.sound(),
        normalizes(r, n),
    ensures
        ({
            let after = registered(st, n);
            let kept = after.records[r.org_id];
            &&& after.records.contains_key(r.org_id)
            &&& kept.org_id == r.org_id && kept.name == r.name && kept.prefix_count_hint
                == r.prefix_count_hint && kept.external_id == r.external_id
            &&& forall|i: int, j: int|
                0 <= i < j < kept.asns.len() ==> #[trigger] kept.asns[i] < #[trigger] kept.asns[j]
            &&& forall|a: u32| #[trigger] kept.asns.contains(a) <==> r.asns.contains(a)
            &&& forall|i: int, j: int|
                0 <= i < j < kept.domains.len() ==> text_less(
                    #[trigger] kept.domains[i],
                    #[trigger] kept.domains[j],
                )
            &&& forall|d: Seq<char>| #[trigger]
                kept.domains.contains(d) <==> d.len() > 0 && exists|i: int|
                    0 <= i < r.domains.len() && plain_domain(#[trigger] r.domains[i]) == d
            &&& other != r.org_id ==> (after.records.contains_key(other)
                <==> st.records.contains_key(other)) && (st.records.contains_key(other)
                ==> after.records[other] == st.records[other])
            &&& st.records.contains_key(r.org_id) ==> after.keys == st.keys
            &&& !st.records.contains_key(r.org_id) ==> after.keys == st.keys.push(r.org_id)
        }),
{
}

/// After a record came in, each of its networks and domains leads to it, behind what it led to
/// before; what leads from others is as it was.
pub proof fn records_are_found_by_network_and_domain(st: OrgState, n: OrgView, a: u32, d: Seq<char>)
    requires
        is_normal(n),
    ensures
        n.asns.contains(a) ==> ids_at(registered(st, n).asn_ids, a) == ids_at(st.asn_ids, a).push(
            n.org_id,
        ),
        !n.asns.contains(a) ==> ids_at(registered(st, n).asn_ids, a) == ids_at(st.asn_ids, a),
        n.domains.contains(d) ==> ids_at(registered(st, n).domain_ids, d) == ids_at(
            st.domain_ids,
            d,
        ).push(n.org_id),
        !n.domains.contains(d) ==> ids_at(registered(st, n).domain_ids, d) == ids_at(
            st.domain_ids,
            d,
        ),
{
    assert(n.asns.no_duplicates());
    lemma_added_once(st.asn_ids, n.asns, n.org_id, a);
    lemma_added_once(st.domain_ids, n.domains, n.org_id, d);
}

proof fn lemma_added_once<K>(m: Map<K, Seq<Seq<char>>>, ks: Seq<K>, id: Seq<char>, k: K)
    requires
        ks.no_duplicates(),
    ensures
        ids_at(add_id_to_all(m, ks, id), k) == (if ks.contains(k) {
            ids_at(m, k).push(id)
        } else {
            ids_at(m, k)
        }),
    decreases ks.len(),
{
    if ks.len() > 0 {
        let rest = ks.drop_last();
        let last = ks.last();
        assert(ks =~= rest.push(last));
        assert(rest.no_duplicates()) by {
            assert forall|i: int, j: int|
                0 <= i < rest.len() && 0 <= j < rest.len() && i != j implies rest[i] != rest[j] by {
                assert(ks[i] != ks[j]);
            }
        }
        lemma_added_once(m, rest, id, k);
        lemma_seq_contains_after_push(rest, last, k);
        if rest.contains(last) {
            let i = choose|i: int| 0 <= i < rest.len() && rest[i] == last;
            assert(ks[i] == ks[ks.len() - 1]);
        }
    }
}

/// A line of a watchlist gives its domain to the organization whose identifier it is; or else to
/// each that has its first label as a word of its name or as a label of a domain of its. It takes
/// nothing away, gives no domain twice, and changes nothing else; blank lines and those that begin
/// with `#` give nothing.
pub proof fn watchlists_give_domains_by_label(st: OrgState, line: Seq<char>, id: Seq<char>)
    requires
        st.sound(),
        st.records.contains_key(id),
    ensures
        ({
            let d = plain_domain(line);
            let label = split_on(d, '.')[0];
            let rec = st.records[id];
            let after = enriched_by_line(st, line).0.records[id];
            let shares = label.len() > 0 && (name_words(rec.name).contains(label) || exists|i: int|
                0 <= i < rec.domains.len() && split_on(#[trigger] rec.domains[i], '.').contains(
                    label,
                ));
            let given = d.len() > 0 && d[0] != '#' && !rec.domains.contains(d) && (
            if st.records.contains_key(d) {
                id == d
            } else {
                shares
            });
            &&& given ==> after == (OrgView { domains: rec.domains.push(d), ..rec })
            &&& !given ==> after == rec
        }),
{
    let d = plain_domain(line);
    let label = split_on(d, '.')[0];
    if d.len() > 0 && d[0] != '#' && !st.records.contains_key(d) && label.len() > 0 {
        assert(is_plain(d));
        assert(st.keys.contains(id));
        let k = choose|k: int| 0 <= k < st.keys.len() && st.keys[k] == id;
        lemma_given_at(st, d, label, st.keys.len() as int, k);
    }
}

proof fn lemma_given_at(st: OrgState, d: Seq<char>, label: Seq<char>, n: int, k: int)
    requires
        st.sound(),
        is_plain(d),
        0 <= k < n <= st.keys.len(),
    ensures
        ({
            let rec = st.records[st.keys[k]];
            let after = attach_by_label(st, d, label, n).0.records[st.keys[k]];
            after == (if has_label(rec, label) && !rec.domains.contains(d) {
                with_domain(rec, d)
            } else {
                rec
            })
        }),
    decreases n,
{
    let id = st.keys[k];
    assert(st.keys.contains(id));
    lemma_attach_by_label(st, d, label, n - 1);
    let mid = attach_by_label(st, d, label, n - 1).0;
    lemma_attach_sound(mid, st.keys[n - 1], d);
    assert(mid.keys.contains(id));
    if k == n - 1 {
        assert(mid.records[id] == st.records[id]);
    } else {
        lemma_given_at(st, d, label, n - 1, k);
        assert(st.keys[n - 1] != id);
    }
}

/// The words of a name are in lower case and hold letters, digits and hyphens of ASCII, or
/// characters outside it.
pub proof fn words_of_names_are_labels(name: Seq<char>, i: int, k: int)
    requires
        0 <= i < name_words(name).len(),
        0 <= k < name_words(name)[i].len(),
    ensures
        name_words(name)[i].len() > 0,
        !('A' <= name_words(name)[i][k] <= 'Z'),
        !is_space(name_words(name)[i][k]),
        'a' <= name_words(name)[i][k] <= 'z' || '0' <= name_words(name)[i][k] <= '9' || name_words(
            name,
        )[i][k] == '-' || name_words(name)[i][k] > '\u{7f}',
{
    let s = lowered(name).map_values(
        |c: char|
            if parts_words(c) {
                ' '
            } else {
                c
            },
    );
    words_hold_no_blank(s);
    let w = name_words(name)[i];
    let c = w[k];
    lemma_word_chars(s, c, i, k);
    let j = choose|j: int| 0 <= j < s.len() && s[j] == c;
    lowering_changes_capitals_only(name, j);
}

proof fn lemma_word_chars(s: Seq<char>, c: char, i: int, k: int)
    requires
        0 <= i < words_of(s).len(),
        0 <= k < words_of(s)[i].len(),
        words_of(s)[i][k] == c,
    ensures
        s.contains(c),
{
    words_hold_no_blank(s);
    lemma_joined_holds(words_of(s), i, k);
    let pred = |x: char| !is_space(x);
    assert(s.filter(pred).contains(c));
    s.lemma_filter_contains_rev(pred, c);
}

proof fn lemma_joined_holds(parts: Seq<Seq<char>>, i: int, k: int)
    requires
        0 <= i < parts.len(),
        0 <= k < parts[i].len(),
    ensures
        joined(parts, Seq::empty()).contains(parts[i][k]),
    decreases parts.len(),
{
    let all = joined(parts, Seq::empty());
    if parts.len() == 1 {
        assert(all[k] == parts[i][k]);
    } else {
        let head = joined(parts.drop_last(), Seq::empty());
        if i < parts.len() - 1 {
            lemma_joined_holds(parts.drop_last(), i, k);
            let j = choose|j: int| 0 <= j < head.len() && head[j] == parts[i][k];
            assert(all[j] == parts[i][k]);
        } else {
            assert(all[head.len() + k] == parts[i][k]);
        }
    }
}

/// Records that come in one behind the other: each identifier leads to the last record that has it.
pub proof fn the_last_record_stays(st: OrgState, ns: Seq<OrgView>, i: int)
    requires
        0 <= i < ns.len(),
        forall|j: int| i < j < ns.len() ==> (#[trigger] ns[j]).org_id != ns[i].org_id,
    ensures
        registered_all(st, ns).records.contains_key(ns[i].org_id),
        registered_all(st, ns).records[ns[i].org_id] == ns[i],
    decreases ns.len(),
{
    let rest = ns.drop_last();
    if i < rest.len() {
        assert(rest[i] == ns[i]);
        assert forall|j: int| i < j < rest.len() implies (#[trigger] rest[j]).org_id
            != rest[i].org_id by {
            assert(rest[j] == ns[j]);
        }
        the_last_record_stays(st, rest, i);
        assert(ns[ns.len() - 1].org_id != ns[i].org_id);
    }
}

/// A map that lies over another brings all its organizations, and leaves the others as they were.
pub proof fn overlays_leave_the_others(st: OrgState, ns: Seq<OrgView>, id: Seq<char>)
    requires
        forall|j: int| 0 <= j < ns.len() ==> (#[trigger] ns[j]).org_id != id,
    ensures
        registered_all(st, ns).records.contains_key(id) <==> st.records.contains_key(id),
        st.records.contains_key(id) ==> registered_all(st, ns).records[id] == st.records[id],
    decreases ns.len(),
{
    if ns.len() > 0 {
        let rest = ns.drop_last();
        assert forall|j: int| 0 <= j < rest.len() implies (#[trigger] rest[j]).org_id != id by {
            assert(rest[j] == ns[j]);
        }
        overlays_leave_the_others(st, rest, id);
        assert(ns[ns.len() - 1].org_id != id);
    }
}

/// The organization of a network is the first that the network leads to; a list of identifiers
/// leads to their records, in order.
pub proof fn networks_lead_to_their_first_organization(
    st: OrgState,
    asn: u32,
    ids: Seq<Seq<char>>,
    i: int,
)
    ensures
        st.asn_ids.contains_key(asn) && st.asn_ids[asn].len() > 0 ==> st.org_of(asn) == Some(
            st.records[st.asn_ids[asn][0]],
        ),
        !st.asn_ids.contains_key(asn) || st.asn_ids[asn].len() == 0 ==> st.org_of(asn) is None,
        st.records_of(ids).len() == ids.len(),
        0 <= i < ids.len() ==> st.records_of(ids)[i] == st.records[ids[i]],
{
}

/// The number of domains that a line of a watchlist gives is that of the organizations that it
/// changes; lines add up.
pub proof fn given_domains_are_counted(st: OrgState, line: Seq<char>, lines: Seq<Seq<char>>)
    requires
        st.sound(),
    ensures
        enriched_by_line(st, line).1 == st.keys.filter(
            |id: Seq<char>| enriched_by_line(st, line).0.records[id] != st.records[id],
        ).len(),
        enriched(st, lines.push(line)).1 == enriched(st, lines).1 + enriched_by_line(
            enriched(st, lines).0,
            line,
        ).1,
        enriched(st, lines.push(line)).0 == enriched_by_line(enriched(st, lines).0, line).0,
        enriched(st, Seq::empty()) == (st, 0nat),
{
    assert(lines.push(line).drop_last() =~= lines);
    let d = plain_domain(line);
    let label = split_on(d, '.')[0];
    let after = enriched_by_line(st, line).0;
    let changed = |id: Seq<char>| after.records[id] != st.records[id];
    let n = st.keys.len() as int;
    assert(st.keys.subrange(0, n) =~= st.keys);
    if d.len() == 0 || d[0] == '#' || (!st.records.contains_key(d) && label.len() == 0) {
        lemma_none_kept(st.keys, changed);
    } else if st.records.contains_key(d) {
        assert(st.keys.contains(d));
        if st.records[d].domains.contains(d) {
            lemma_none_kept(st.keys, changed);
        } else {
            let k = choose|k: int| 0 <= k < n && st.keys[k] == d;
            assert(after.records[d].domains.len() == st.records[d].domains.len() + 1);
            lemma_one_kept(st.keys, changed, k);
        }
    } else {
        assert(is_plain(d));
        lemma_given_count(st, d, label, n, changed);
    }
}

proof fn lemma_none_kept(keys: Seq<Seq<char>>, keep: spec_fn(Seq<char>) -> bool)
    requires
        forall|i: int| 0 <= i < keys.len() ==> !keep(#[trigger] keys[i]),
    ensures
        keys.filter(keep).len() == 0,
    decreases keys.len(),
{
    reveal(Seq::filter);
    if keys.len() > 0 {
        let rest = keys.drop_last();
        assert forall|i: int| 0 <= i < rest.len() implies !keep(#[trigger] rest[i]) by {
            assert(rest[i] == keys[i]);
        }
        lemma_none_kept(rest, keep);
        assert(!keep(keys[keys.len() - 1]));
    }
}

proof fn lemma_one_kept(keys: Seq<Seq<char>>, keep: spec_fn(Seq<char>) -> bool, k: int)
    requires
        0 <= k < keys.len(),
        keep(keys[k]),
        forall|i: int| 0 <= i < keys.len() && i != k ==> !keep(#[trigger] keys[i]),
    ensures
        keys.filter(keep).len() == 1,
    decreases keys.len(),
{
    reveal(Seq::filter);
    let rest = keys.drop_last();
    if k < rest.len() {
        assert(rest[k] == keys[k]);
        assert forall|i: int| 0 <= i < rest.len() && i != k implies !keep(#[trigger] rest[i]) by {
            assert(rest[i] == keys[i]);
        }
        lemma_one_kept(rest, keep, k);
        assert(!keep(keys[keys.len() - 1]));
    } else {
        assert forall|i: int| 0 <= i < rest.len() implies !keep(#[trigger] rest[i]) by {
            assert(rest[i] == keys[i]);
        }
        lemma_none_kept(rest, keep);
    }
}

proof fn lemma_given_count(
    st: OrgState,
    d: Seq<char>,
    label: Seq<char>,
    n: int,
    changed: spec_fn(Seq<char>) -> bool,
)
    requires
        st.sound(),
        is_plain(d),
        0 <= n <= st.keys.len(),
        changed == (|id: Seq<char>|
            attach_by_label(st, d, label, st.keys.len() as int).0.records[id] != st.records[id]),
    ensures
        attach_by_label(st, d, label, n).1 == st.keys.subrange(0, n).filter(changed).len(),
    decreases n,
{
    reveal(Seq::filter);
    if n > 0 {
        lemma_given_count(st, d, label, n - 1, changed);
        let all = st.keys.subrange(0, n);
        assert(all.drop_last() =~= st.keys.subrange(0, n - 1));
        assert(all.last() == st.keys[n - 1]);
        let id = st.keys[n - 1];
        assert(st.keys.contains(id));
        lemma_given_at(st, d, label, st.keys.len() as int, n - 1);
        lemma_attach_by_label(st, d, label, n - 1);
        let mid = attach_by_label(st, d, label, n - 1).0;
        assert(mid.keys.contains(id));
        assert(mid.records[id] == st.records[id]);
        let rec = st.records[id];
        assert(with_domain(rec, d).domains.len() == rec.domains.len() + 1);
    }
}

proof fn lemma_lines_keep_records(st: OrgState, lines: Seq<Seq<char>>, id: Seq<char>)
    requires
        st.sound(),
        st.records.contains_key(id),
    ensures
        ({
            let after = enriched(st, lines).0;
            &&& after.sound()
            &&& after.records.contains_key(id)
            &&& after.records[id].org_id == st.records[id].org_id
            &&& after.records[id].name == st.records[id].name
            &&& after.records[id].asns == st.records[id].asns
            &&& after.records[id].external_id == st.records[id].external_id
            &&& after.records[id].prefix_count_hint == st.records[id].prefix_count_hint
            &&& forall|d: Seq<char>| #[trigger]
                st.records[id].domains.contains(d) ==> after.records[id].domains.contains(d)
        }),
    decreases lines.len(),
{
    if lines.len() > 0 {
        lemma_lines_keep_records(st, lines.drop_last(), id);
        let mid = enriched(st, lines.drop_last()).0;
        let line = lines.last();
        enrichment_only_adds(mid, line);
        watchlists_give_domains_by_label(mid, line, id);
        let d = plain_domain(line);
        assert forall|x: Seq<char>| #[trigger] mid.records[id].domains.contains(x) implies enriched_by_line(
            mid,
            line,
        ).0.records[id].domains.contains(x) by {
            lemma_seq_contains_after_push(mid.records[id].domains, d, x);
        }
    }
}

proof fn lemma_registered_all_sound(st: OrgState, rs: Seq<OrgView>, ns: Seq<OrgView>)
    requires
        st.sound(),
        normalizes_all(rs, ns),
    ensures
        registered_all(st, ns).sound(),
    decreases ns.len(),
{
    if ns.len() > 0 {
        let r = rs.drop_last();
        let n = ns.drop_last();
        assert forall|i: int|
            #![trigger r[i]]
            #![trigger n[i]]
            0 <= i < r.len() implies normalizes(r[i], n[i]) by {
            assert(normalizes(rs[i], ns[i]));
        }
        lemma_registered_all_sound(st, r, n);
        assert(normalizes(rs[ns.len() - 1], ns[ns.len() - 1]));
        normalized_records_are_normal(rs.last(), ns.last());
        lemma_registered_sound(registered_all(st, n), ns.last());
    }
}

/// A loaded map holds the records that lie over the others as they came, the last of each
/// identifier; and of the others those whose identifiers are not among them. A watchlist gives
/// domains and takes nothing away.
pub proof fn overlays_win(
    records: Seq<OrgView>,
    over: Seq<OrgView>,
    watchlist: Option<Seq<char>>,
    out: OrgState,
    i: int,
)
    requires
        is_loaded(records, over, watchlist, out),
    ensures
        0 <= i < over.len() && (forall|j: int|
            i < j < over.len() ==> (#[trigger] over[j]).org_id != over[i].org_id) ==> {
            let rec = out.records[over[i].org_id];
            &&& out.records.contains_key(over[i].org_id)
            &&& rec.name == over[i].name && rec.external_id == over[i].external_id
                && rec.prefix_count_hint == over[i].prefix_count_hint
            &&& forall|a: u32| #[trigger] rec.asns.contains(a) <==> over[i].asns.contains(a)
        },
        0 <= i < records.len() && (forall|j: int|
            i < j < records.len() ==> (#[trigger] records[j]).org_id != records[i].org_id) && (
        forall|j: int| 0 <= j < over.len() ==> (#[trigger] over[j]).org_id != records[i].org_id)
            ==> {
            let rec = out.records[records[i].org_id];
            &&& out.records.contains_key(records[i].org_id)
            &&& rec.name == records[i].name && rec.external_id == records[i].external_id
                && rec.prefix_count_hint == records[i].prefix_count_hint
            &&& forall|a: u32| #[trigger] rec.asns.contains(a) <==> records[i].asns.contains(a)
        },
{
    let (ns, os) = choose|ns: Seq<OrgView>, os: Seq<OrgView>| #[trigger]
        normalizes_all(records, ns) && #[trigger] normalizes_all(over, os) && out == enriched_by(
            registered_all(registered_all(empty_state(), ns), os),
            watchlist,
        );
    let base = registered_all(empty_state(), ns);
    let st = registered_all(base, os);
    assert(empty_state().sound());
    lemma_registered_all_sound(empty_state(), records, ns);
    lemma_registered_all_sound(base, over, os);
    assert forall|j: int| 0 <= j < over.len() implies (#[trigger] os[j]).org_id == over[j].org_id by {
        assert(normalizes(over[j], os[j]));
    }
    assert forall|j: int| 0 <= j < records.len() implies (#[trigger] ns[j]).org_id
        == records[j].org_id by {
        assert(normalizes(records[j], ns[j]));
    }
    if 0 <= i < over.len() && (forall|j: int|
        i < j < over.len() ==> (#[trigger] over[j]).org_id != over[i].org_id) {
        assert(normalizes(over[i], os[i]));
        assert forall|j: int| i < j < os.len() implies (#[trigger] os[j]).org_id
            != os[i].org_id by {
            assert(over[j].org_id != over[i].org_id);
        }
        the_last_record_stays(base, os, i);
        if let Some(t) = watchlist {
            lemma_lines_keep_records(st, lines_of(t), over[i].org_id);
        }
    }
    if 0 <= i < records.len() && (forall|j: int|
        i < j < records.len() ==> (#[trigger] records[j]).org_id != records[i].org_id) && (forall|
        j: int,
    | 0 <= j < over.len() ==> (#[trigger] over[j]).org_id != records[i].org_id) {
        let id = records[i].org_id;
        assert(normalizes(records[i], ns[i]));
        assert forall|j: int| i < j < ns.len() implies (#[trigger] ns[j]).org_id
            != ns[i].org_id by {
            assert(records[j].org_id != records[i].org_id);
        }
        the_last_record_stays(empty_state(), ns, i);
        assert forall|j: int| 0 <= j < os.len() implies (#[trigger] os[j]).org_id != id by {
            assert(over[j].org_id != id);
        }
        overlays_leave_the_others(base, os, id);
        if let Some(t) = watchlist {
            lemma_lines_keep_records(st, lines_of(t), id);
        }
    }
}

/// A name of letters, digits and hyphens of ASCII is one word: itself in lower case.
pub proof fn plain_names_are_one_word(name: Seq<char>)
    requires
        name.len() > 0,
        forall|i: int|
            0 <= i < name.len() ==> ('a' <= #[trigger] name[i] <= 'z' || 'A' <= name[i] <= 'Z'
                || '0' <= name[i] <= '9' || name[i] == '-'),
    ensures
        name_words(name) == seq![lowered(name)],
{
    let s = lowered(name).map_values(
        |c: char|
            if parts_words(c) {
                ' '
            } else {
                c
            },
    );
    assert forall|i: int| 0 <= i < s.len() implies #[trigger] s[i] == lowered(name)[i] && !is_space(
        s[i],
    ) by {
        lowering_changes_capitals_only(name, i);
        let c = lowered(name)[i];
        assert('a' <= name[i] <= 'z' || 'A' <= name[i] <= 'Z' || '0' <= name[i] <= '9' || name[i]
            == '-');
        if 'A' <= name[i] <= 'Z' {
            assert(c as int == name[i] as int + 32);
            assert('a' <= c <= 'z');
        }
        assert(!parts_words(c));
    }
    assert(s =~= lowered(name));
    text_without_blanks_is_one_word(s);
}

} // verus!
