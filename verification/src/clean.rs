//! Which pairs are no contact between two organizations: glue, leasing, unattributed networks,
//! and networks of one organization or one corporate family.

use crate::diff::{domains_for, domains_of};
use crate::features::{feature_views, AsnPairFeature, FeatureView};
use crate::glue::{collect_set, GlueSet};
use crate::orgs::{opt_str, opt_text, OrgMap, OrgState};
use crate::rib::copy_u32;
use crate::suffixes::{class_label, inner_class, is_class_label, is_inner_class};
use crate::text::{
    all_digits, is_decimal, join, joined, same_text, split_char, split_on, split_undoes_join, texts,
};
use std::collections::HashSet;
use vstd::prelude::*;
use vstd::seq_lib::lemma_seq_contains_after_push;

verus! {

broadcast use vstd::std_specs::hash::group_hash_axioms;

/// Why a pair is dropped.
#[derive(Clone, Copy, Debug, PartialEq, Eq, Structural)]
pub enum CleanDropReason {
    /// One of the two is glue.
    Glue,
    /// One of the two leases out addresses.
    Leasing,
    /// One of the two has no organization.
    Unattributed,
    /// Both are of one organization.
    SameOrg,
    /// Their organizations share a registrable domain.
    SameFamily,
}

// ---- leasing ----

/// The marketplaces and lessors of addresses that are known.
pub const DEFAULT_LEASING_ASNS: [u32; 6] = [834, 396998, 211585, 49999, 61138, 43260];

/// The marketplaces and lessors of addresses that are known.
pub open spec fn leasing_asns() -> Seq<u32> {
    DEFAULT_LEASING_ASNS@
}

/// The known lessors, and others.
pub fn leasing_set(extra: &[u32]) -> (r: HashSet<u32>)
    ensures
        r@ == leasing_asns().to_set().union(extra@.to_set()),
{
    let known = copy_u32(&DEFAULT_LEASING_ASNS);
    let mut set = collect_set(&known);
    let ghost base = set@;
    let mut i: usize = 0;
    assert(extra@.subrange(0, 0).to_set() =~= Set::empty());
    assert(set@ =~= base.union(extra@.subrange(0, 0).to_set()));
    while i < extra.len()
        invariant
            i <= extra@.len(),
            set@ == base.union(extra@.subrange(0, i as int).to_set()),
        decreases extra@.len() - i,
    {
        let ghost done = extra@.subrange(0, i as int);
        let ghost next = extra@.subrange(0, i as int + 1);
        let ghost was = set@;
        set.insert(extra[i]);
        proof {
            assert(next =~= done.push(extra@[i as int]));
            assert forall|x: u32| set@.contains(x) <==> base.union(next.to_set()).contains(x) by {
                lemma_seq_contains_after_push(done, extra@[i as int], x);
                assert(was.contains(x) <==> base.contains(x) || done.to_set().contains(x));
            }
            assert(set@ =~= base.union(next.to_set()));
        }
        i += 1;
    }
    assert(extra@.subrange(0, extra@.len() as int) =~= extra@);
    set
}

// ---- registrable domains ----

/// The labels of a domain name, without empty ones.
pub open spec fn labels_of(domain: Seq<char>) -> Seq<Seq<char>> {
    split_on(domain, '.').filter(|l: Seq<char>| l.len() > 0)
}

/// A label stands for a country.
pub open spec fn is_country_label(l: Seq<char>) -> bool {
    l.len() == 2
}

/// How many labels at the end of a name make up its registrable domain: those of the suffix under
/// which it was handed out, and one more. An address, whose last label is a number, counts as a
/// whole, and so does a name that is no longer than a suffix.
pub open spec fn registrable_len(labels: Seq<Seq<char>>) -> int {
    let n = labels.len() as int;
    if n <= 2 || all_digits(labels[n - 1]) {
        n
    } else if !is_country_label(labels[n - 1]) {
        2
    } else if n > 3 && is_inner_class(labels[n - 1], labels[n - 2], labels[n - 3]) {
        4
    } else if is_class_label(labels[n - 1], labels[n - 2]) {
        3
    } else {
        2
    }
}

/// The registrable domain of a domain name: the label that a registry hands out with the suffix
/// under which it does. Suffixes are the top-level domains, and the classes of names under those
/// of countries.
pub open spec fn registrable(domain: Seq<char>) -> Option<Seq<char>> {
    let labels = labels_of(domain);
    let n = labels.len() as int;
    if n == 0 {
        None
    } else {
        Some(joined(labels.subrange(n - registrable_len(labels), n), "."@))
    }
}

fn domain_labels(domain: &str) -> (r: Vec<String>)
    ensures
        texts(r@) == labels_of(domain@),
{
    let parts = split_char(domain, '.');
    let ghost all = texts(parts@);
    let ghost pred = |l: Seq<char>| l.len() > 0;
    let mut out: Vec<String> = Vec::new();
    let mut i: usize = 0;
    proof {
        reveal(Seq::filter);
        assert(all.subrange(0, 0) =~= Seq::empty());
        assert(texts(out@) =~= Seq::empty());
    }
    while i < parts.len()
        invariant
            i <= parts@.len(),
            all == texts(parts@),
            pred == (|l: Seq<char>| l.len() > 0),
            texts(out@) == all.subrange(0, i as int).filter(pred),
        decreases parts@.len() - i,
    {
        let ghost before = out@;
        let p = parts[i].clone();
        proof {
            reveal(Seq::filter);
            let next = all.subrange(0, i as int + 1);
            assert(next.drop_last() =~= all.subrange(0, i as int));
            assert(next.last() == p@);
            reveal_strlit("");
            assert(p@.len() == 0 ==> p@ =~= ""@);
        }
        if !same_text(p.as_str(), "") {
            out.push(p);
            assert(texts(out@) =~= texts(before).push(p@));
        }
        i += 1;
    }
    assert(all.subrange(0, all.len() as int) =~= all);
    out
}

/// The registrable domain of a domain name.
pub fn registrable_domain(domain: &str) -> (r: Option<String>)
    ensures
        opt_text(r) == registrable(domain@),
{
    let labels = domain_labels(domain);
    let ghost all = texts(labels@);
    let n: usize = labels.len();
    if n == 0 {
        return None;
    }
    let keep: usize = if n <= 2 || is_decimal(labels[n - 1].as_str()) {
        n
    } else {
        let last = labels[n - 1].as_str();
        let class = labels[n - 2].as_str();
        assert(all[n - 1] == labels@[n - 1]@);
        assert(all[n - 2] == labels@[n - 2]@);
        if crate::text::chars_of(last).len() != 2 {
            2
        } else {
            assert(n > 3 ==> all[n - 3] == labels@[n - 3]@);
            if n > 3 && inner_class(last, class, labels[n - 3].as_str()) {
                4
            } else if class_label(last, class) {
                3
            } else {
                2
            }
        }
    };
    assert(all[n - 1] == labels@[n - 1]@);
    assert(keep == registrable_len(all));
    let mut tail: Vec<String> = Vec::new();
    let mut i: usize = n - keep;
    assert(texts(tail@) =~= all.subrange(n - keep, n - keep));
    while i < n
        invariant
            n == labels@.len(),
            keep <= n,
            n - keep <= i <= n,
            all == texts(labels@),
            texts(tail@) == all.subrange(n - keep, i as int),
        decreases n - i,
    {
        let ghost before = tail@;
        tail.push(labels[i].clone());
        proof {
            assert(texts(tail@) =~= texts(before).push(all[i as int]));
            assert(all.subrange(n - keep, i + 1) =~= all.subrange(n - keep, i as int).push(
                all[i as int],
            ));
        }
        i += 1;
    }
    Some(join(&tail, "."))
}

/// Two lists of domains share a registrable domain.
pub open spec fn share_registrable(a: Seq<Seq<char>>, b: Seq<Seq<char>>) -> bool {
    exists|i: int, j: int|
        0 <= i < a.len() && 0 <= j < b.len() && registrable(#[trigger] a[i]) is Some
            && registrable(a[i]) == registrable(#[trigger] b[j])
}

/// Tells whether two lists of domains share a registrable domain.
pub fn same_family(a: &[String], b: &[String]) -> (r: bool)
    ensures
        r == share_registrable(texts(a@), texts(b@)),
{
    let ghost ta = texts(a@);
    let ghost tb = texts(b@);
    let mut i: usize = 0;
    while i < a.len()
        invariant
            i <= a@.len(),
            ta == texts(a@),
            tb == texts(b@),
            forall|x: int, y: int|
                0 <= x < i && 0 <= y < tb.len() ==> !(registrable(#[trigger] ta[x]) is Some
                    && registrable(ta[x]) == registrable(#[trigger] tb[y])),
        decreases a@.len() - i,
    {
        let mine = registrable_domain(a[i].as_str());
        assert(ta[i as int] == a@[i as int]@);
        if let Some(d) = mine {
            let mut j: usize = 0;
            while j < b.len()
                invariant
                    i < a@.len(),
                    j <= b@.len(),
                    ta == texts(a@),
                    tb == texts(b@),
                    registrable(ta[i as int]) == Some(d@),
                    forall|y: int|
                        0 <= y < j ==> registrable(ta[i as int]) != registrable(#[trigger] tb[y]),
                decreases b@.len() - j,
            {
                assert(tb[j as int] == b@[j as int]@);
                if let Some(e) = registrable_domain(b[j].as_str()) {
                    if same_text(d.as_str(), e.as_str()) {
                        assert(registrable(ta[i as int]) == registrable(tb[j as int]));
                        return true;
                    }
                }
                j += 1;
            }
        }
        i += 1;
    }
    false
}

/// Being of one family does not depend on the order of the two.
pub proof fn family_is_mutual(a: Seq<Seq<char>>, b: Seq<Seq<char>>)
    ensures
        share_registrable(a, b) == share_registrable(b, a),
{
    if share_registrable(a, b) {
        let (i, j) = choose|i: int, j: int|
            0 <= i < a.len() && 0 <= j < b.len() && registrable(#[trigger] a[i]) is Some
                && registrable(a[i]) == registrable(#[trigger] b[j]);
        assert(registrable(b[j]) is Some && registrable(b[j]) == registrable(a[i]));
    }
    if share_registrable(b, a) {
        let (j, i) = choose|j: int, i: int|
            0 <= j < b.len() && 0 <= i < a.len() && registrable(#[trigger] b[j]) is Some
                && registrable(b[j]) == registrable(#[trigger] a[i]);
        assert(registrable(a[i]) is Some && registrable(a[i]) == registrable(b[j]));
    }
}

// ---- reasons ----

/// An organization is given: its identifier is there and not empty.
pub open spec fn attributed(org: Option<Seq<char>>) -> bool {
    org is Some && org->0.len() > 0
}

/// Why a pair is dropped, by its networks and organizations alone.
pub open spec fn pair_drop_reason(
    lo: u32,
    hi: u32,
    org_lo: Option<Seq<char>>,
    org_hi: Option<Seq<char>>,
    leasing: Set<u32>,
) -> Option<CleanDropReason> {
    if leasing.contains(lo) || leasing.contains(hi) {
        Some(CleanDropReason::Leasing)
    } else if !attributed(org_lo) || !attributed(org_hi) {
        Some(CleanDropReason::Unattributed)
    } else if org_lo == org_hi {
        Some(CleanDropReason::SameOrg)
    } else {
        None
    }
}

/// Why a pair is dropped, by its networks and organizations alone.
pub fn clean_drop_reason(
    lo: u32,
    hi: u32,
    org_lo: Option<&str>,
    org_hi: Option<&str>,
    leasing: &HashSet<u32>,
) -> (r: Option<CleanDropReason>)
    ensures
        r == pair_drop_reason(lo, hi, opt_str(org_lo), opt_str(org_hi), leasing@),
{
    if leasing.contains(&lo) || leasing.contains(&hi) {
        return Some(CleanDropReason::Leasing);
    }
    proof {
        reveal_strlit("");
    }
    if let (Some(a), Some(b)) = (org_lo, org_hi) {
        assert(a@.len() == 0 ==> a@ =~= ""@);
        assert(b@.len() == 0 ==> b@ =~= ""@);
        if same_text(a, "") || same_text(b, "") {
            return Some(CleanDropReason::Unattributed);
        }
        if same_text(a, b) {
            return Some(CleanDropReason::SameOrg);
        }
        None
    } else {
        Some(CleanDropReason::Unattributed)
    }
}

/// What the clean filter goes by.
pub struct CleanContext<'a> {
    pub leasing: &'a HashSet<u32>,
    pub glue: &'a GlueSet,
    pub org_map: &'a OrgMap,
}

/// Why a feature is dropped.
pub open spec fn drop_reason(
    f: FeatureView,
    leasing: Set<u32>,
    glue: Set<u32>,
    orgs: OrgState,
) -> Option<CleanDropReason> {
    if glue.contains(f.asn_lo) || glue.contains(f.asn_hi) {
        Some(CleanDropReason::Glue)
    } else {
        match pair_drop_reason(f.asn_lo, f.asn_hi, f.org_lo, f.org_hi, leasing) {
            Some(r) => Some(r),
            None => if share_registrable(domains_of(orgs, f.asn_lo), domains_of(orgs, f.asn_hi)) {
                Some(CleanDropReason::SameFamily)
            } else {
                None
            },
        }
    }
}

fn borrowed(s: &Option<String>) -> (r: Option<&str>)
    ensures
        opt_str(r) == opt_text(*s),
{
    match s {
        Some(t) => Some(t.as_str()),
        None => None,
    }
}

impl<'a> CleanContext<'a> {
    /// Why a feature is dropped.
    pub fn reason(&self, f: &AsnPairFeature) -> (r: Option<CleanDropReason>)
        requires
            self.org_map.wf(),
        ensures
            r == drop_reason(f@, self.leasing@, self.glue@, self.org_map.state()),
    {
        if self.glue.contains(f.asn_lo) || self.glue.contains(f.asn_hi) {
            return Some(CleanDropReason::Glue);
        }
        match clean_drop_reason(
            f.asn_lo,
            f.asn_hi,
            borrowed(&f.org_lo),
            borrowed(&f.org_hi),
            self.leasing,
        ) {
            Some(r) => Some(r),
            None => {
                let lo = domains_for(self.org_map, f.asn_lo);
                let hi = domains_for(self.org_map, f.asn_hi);
                if same_family(&lo, &hi) {
                    Some(CleanDropReason::SameFamily)
                } else {
                    None
                }
            },
        }
    }
}

/// The features that are kept, in order.
pub open spec fn kept_features(
    fs: Seq<FeatureView>,
    leasing: Set<u32>,
    glue: Set<u32>,
    orgs: OrgState,
) -> Seq<FeatureView>
    decreases fs.len(),
{
    if fs.len() == 0 {
        Seq::empty()
    } else {
        let head = kept_features(fs.drop_last(), leasing, glue, orgs);
        if drop_reason(fs.last(), leasing, glue, orgs) is None {
            head.push(fs.last())
        } else {
            head
        }
    }
}

/// The features that are dropped, in order, each with its reason.
pub open spec fn dropped_features(
    fs: Seq<FeatureView>,
    leasing: Set<u32>,
    glue: Set<u32>,
    orgs: OrgState,
) -> Seq<(FeatureView, CleanDropReason)>
    decreases fs.len(),
{
    if fs.len() == 0 {
        Seq::empty()
    } else {
        let head = dropped_features(fs.drop_last(), leasing, glue, orgs);
        match drop_reason(fs.last(), leasing, glue, orgs) {
            Some(r) => head.push((fs.last(), r)),
            None => head,
        }
    }
}

/// What dropped features say.
pub open spec fn dropped_views(v: Seq<(AsnPairFeature, CleanDropReason)>) -> Seq<
    (FeatureView, CleanDropReason),
> {
    Seq::new(v.len(), |i: int| (v[i].0@, v[i].1))
}

/// Parts features into those that are kept and those that are dropped.
pub fn filter_clean_features(features: &[AsnPairFeature], ctx: &CleanContext) -> (r: (
    Vec<AsnPairFeature>,
    Vec<(AsnPairFeature, CleanDropReason)>,
))
    requires
        ctx.org_map.wf(),
    ensures
        feature_views(r.0@) == kept_features(
            feature_views(features@),
            ctx.leasing@,
            ctx.glue@,
            ctx.org_map.state(),
        ),
        dropped_views(r.1@) == dropped_features(
            feature_views(features@),
            ctx.leasing@,
            ctx.glue@,
            ctx.org_map.state(),
        ),
{
    let ghost fs = feature_views(features@);
    let ghost l = ctx.leasing@;
    let ghost g = ctx.glue@;
    let ghost st = ctx.org_map.state();
    let mut kept: Vec<AsnPairFeature> = Vec::new();
    let mut dropped: Vec<(AsnPairFeature, CleanDropReason)> = Vec::new();
    let mut i: usize = 0;
    proof {
        assert(fs.subrange(0, 0) =~= Seq::empty());
        assert(feature_views(kept@) =~= Seq::empty());
        assert(dropped_views(dropped@) =~= Seq::empty());
    }
    while i < features.len()
        invariant
            i <= features@.len(),
            ctx.org_map.wf(),
            fs == feature_views(features@),
            l == ctx.leasing@,
            g == ctx.glue@,
            st == ctx.org_map.state(),
            feature_views(kept@) == kept_features(fs.subrange(0, i as int), l, g, st),
            dropped_views(dropped@) == dropped_features(fs.subrange(0, i as int), l, g, st),
        decreases features@.len() - i,
    {
        let f = &features[i];
        let ghost kept0 = kept@;
        let ghost dropped0 = dropped@;
        proof {
            let next = fs.subrange(0, i as int + 1);
            assert(next.drop_last() =~= fs.subrange(0, i as int));
            assert(next.last() == f@);
        }
        let c = f.copy();
        match ctx.reason(f) {
            Some(r) => {
                dropped.push((c, r));
                assert(dropped_views(dropped@) =~= dropped_views(dropped0).push((f@, r)));
            },
            None => {
                kept.push(c);
                assert(feature_views(kept@) =~= feature_views(kept0).push(f@));
            },
        }
        i += 1;
    }
    assert(fs.subrange(0, fs.len() as int) =~= fs);
    (kept, dropped)
}

// ---- laws ----

/// Each feature is either kept or dropped: what is kept has no reason to be dropped, what is
/// dropped has the reason given, and nothing is lost.
pub proof fn cleaning_parts_features(
    fs: Seq<FeatureView>,
    leasing: Set<u32>,
    glue: Set<u32>,
    orgs: OrgState,
)
    ensures
        kept_features(fs, leasing, glue, orgs).len() + dropped_features(
            fs,
            leasing,
            glue,
            orgs,
        ).len() == fs.len(),
        forall|f: FeatureView| #[trigger]
            kept_features(fs, leasing, glue, orgs).contains(f) <==> fs.contains(f) && drop_reason(
                f,
                leasing,
                glue,
                orgs,
            ) is None,
        forall|f: FeatureView, r: CleanDropReason| #[trigger]
            dropped_features(fs, leasing, glue, orgs).contains((f, r)) <==> fs.contains(f)
                && drop_reason(f, leasing, glue, orgs) == Some(r),
    decreases fs.len(),
{
    let kept = kept_features(fs, leasing, glue, orgs);
    let dropped = dropped_features(fs, leasing, glue, orgs);
    if fs.len() > 0 {
        let head = fs.drop_last();
        let last = fs.last();
        cleaning_parts_features(head, leasing, glue, orgs);
        let kept0 = kept_features(head, leasing, glue, orgs);
        let dropped0 = dropped_features(head, leasing, glue, orgs);
        assert(fs =~= head.push(last));
        assert forall|f: FeatureView| #[trigger] kept.contains(f) <==> fs.contains(f)
            && drop_reason(f, leasing, glue, orgs) is None by {
            lemma_seq_contains_after_push(head, last, f);
            lemma_seq_contains_after_push(kept0, last, f);
            assert(kept0.contains(f) <==> head.contains(f) && drop_reason(
                f,
                leasing,
                glue,
                orgs,
            ) is None);
        }
        assert forall|f: FeatureView, r: CleanDropReason| #[trigger]
            dropped.contains((f, r)) <==> fs.contains(f) && drop_reason(f, leasing, glue, orgs)
                == Some(r) by {
            lemma_seq_contains_after_push(head, last, f);
            if let Some(q) = drop_reason(last, leasing, glue, orgs) {
                lemma_seq_contains_after_push(dropped0, (last, q), (f, r));
            }
            assert(dropped0.contains((f, r)) <==> head.contains(f) && drop_reason(
                f,
                leasing,
                glue,
                orgs,
            ) == Some(r));
        }
    }
}

/// What is kept is contact between two organizations: neither network is glue or leases out
/// addresses, both are attributed, to different organizations that share no registrable domain.
pub proof fn kept_pairs_are_contacts(
    f: FeatureView,
    leasing: Set<u32>,
    glue: Set<u32>,
    orgs: OrgState,
)
    requires
        drop_reason(f, leasing, glue, orgs) is None,
    ensures
        !glue.contains(f.asn_lo) && !glue.contains(f.asn_hi),
        !leasing.contains(f.asn_lo) && !leasing.contains(f.asn_hi),
        attributed(f.org_lo) && attributed(f.org_hi),
        f.org_lo != f.org_hi,
        !share_registrable(domains_of(orgs, f.asn_lo), domains_of(orgs, f.asn_hi)),
{
}

/// A pair is kept just where neither network is glue or leases out addresses, both have an
/// organization with an identifier, these differ, and the organizations share no registrable
/// domain. What keeps it from being kept is told in this order.
pub proof fn pairs_are_dropped_for_the_first_reason(
    f: FeatureView,
    leasing: Set<u32>,
    glue: Set<u32>,
    orgs: OrgState,
)
    ensures
        ({
            let r = drop_reason(f, leasing, glue, orgs);
            let is_glue = glue.contains(f.asn_lo) || glue.contains(f.asn_hi);
            let leases = leasing.contains(f.asn_lo) || leasing.contains(f.asn_hi);
            let unknown = f.org_lo is None || f.org_hi is None || f.org_lo->0.len() == 0
                || f.org_hi->0.len() == 0;
            let same = f.org_lo == f.org_hi;
            let family = exists|i: int, j: int|
                0 <= i < domains_of(orgs, f.asn_lo).len() && 0 <= j < domains_of(
                    orgs,
                    f.asn_hi,
                ).len() && registrable(#[trigger] domains_of(orgs, f.asn_lo)[i]) is Some
                    && registrable(domains_of(orgs, f.asn_lo)[i]) == registrable(
                    #[trigger] domains_of(orgs, f.asn_hi)[j],
                );
            &&& r == Some(CleanDropReason::Glue) <==> is_glue
            &&& r == Some(CleanDropReason::Leasing) <==> !is_glue && leases
            &&& r == Some(CleanDropReason::Unattributed) <==> !is_glue && !leases && unknown
            &&& r == Some(CleanDropReason::SameOrg) <==> !is_glue && !leases && !unknown && same
            &&& r == Some(CleanDropReason::SameFamily) <==> !is_glue && !leases && !unknown && !same
                && family
            &&& r is None <==> !is_glue && !leases && !unknown && !same && !family
        }),
{
}

/// The networks that lease out addresses are these, and those that are named besides.
pub proof fn lessors_are_known()
    ensures
        leasing_asns() == seq![834u32, 396998, 211585, 49999, 61138, 43260],
{
    assert(leasing_asns() =~= seq![834u32, 396998, 211585, 49999, 61138, 43260]);
}

/// The registrable domain of a name of at most two labels is the name. Of a longer one it is the
/// last two labels, unless the last is a number, when it is the name, or the label of a country
/// with a class before it, when it is the last three, or four where the class has classes of its
/// own.
pub proof fn registrable_domains_are_last_labels(labels: Seq<Seq<char>>)
    requires
        labels.len() > 0,
        forall|i: int|
            0 <= i < labels.len() ==> (#[trigger] labels[i]).len() > 0 && !labels[i].contains('.'),
    ensures
        ({
            let n = labels.len() as int;
            let r = registrable(joined(labels, seq!['.']));
            let last = labels[n - 1];
            &&& n <= 2 ==> r == Some(joined(labels, "."@))
            &&& n > 2 && last.len() != 2 && !all_digits(last) ==> r == Some(
                joined(labels.subrange(n - 2, n), "."@),
            )
            &&& n > 2 && all_digits(last) ==> r == Some(joined(labels, "."@))
            &&& n == 3 && last.len() == 2 && !all_digits(last) ==> r == Some(
                joined(
                    if is_class_label(last, labels[n - 2]) {
                        labels
                    } else {
                        labels.subrange(1, 3)
                    },
                    "."@,
                ),
            )
            &&& n > 3 && last.len() == 2 && !all_digits(last) ==> r == Some(
                joined(
                    labels.subrange(
                        if is_inner_class(last, labels[n - 2], labels[n - 3]) {
                            n - 4
                        } else if is_class_label(last, labels[n - 2]) {
                            n - 3
                        } else {
                            n - 2
                        },
                        n,
                    ),
                    "."@,
                ),
            )
        }),
{
    let n = labels.len() as int;
    let name = joined(labels, seq!['.']);
    split_undoes_join(labels, '.');
    lemma_no_empty_labels(labels);
    assert(labels_of(name) == labels);
    assert(labels.subrange(0, n) =~= labels);
}

proof fn lemma_no_empty_labels(labels: Seq<Seq<char>>)
    requires
        forall|i: int| 0 <= i < labels.len() ==> (#[trigger] labels[i]).len() > 0,
    ensures
        labels.filter(|l: Seq<char>| l.len() > 0) == labels,
    decreases labels.len(),
{
    reveal(Seq::filter);
    if labels.len() > 0 {
        let rest = labels.drop_last();
        assert forall|i: int| 0 <= i < rest.len() implies (#[trigger] rest[i]).len() > 0 by {
            assert(rest[i] == labels[i]);
        }
        lemma_no_empty_labels(rest);
        assert(labels[labels.len() - 1].len() > 0);
        assert(rest.push(labels.last()) =~= labels);
    } else {
        assert(labels.filter(|l: Seq<char>| l.len() > 0) =~= labels);
    }
}

/// What is kept and what is dropped stay in the order in which they came.
pub proof fn cleaning_keeps_the_order(
    fs: Seq<FeatureView>,
    leasing: Set<u32>,
    glue: Set<u32>,
    orgs: OrgState,
)
    ensures
        kept_features(fs, leasing, glue, orgs) == fs.filter(
            |f: FeatureView| drop_reason(f, leasing, glue, orgs) is None,
        ),
    decreases fs.len(),
{
    reveal(Seq::filter);
    if fs.len() > 0 {
        cleaning_keeps_the_order(fs.drop_last(), leasing, glue, orgs);
    } else {
        assert(kept_features(fs, leasing, glue, orgs) =~= fs.filter(
            |f: FeatureView| drop_reason(f, leasing, glue, orgs) is None,
        ));
    }
}

} // verus!
