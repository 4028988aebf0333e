//! Network-contact events.

use crate::orgs::{copy_opt_text, copy_texts, opt_text};
use crate::text::texts;
use crate::time::Instant;
use vstd::prelude::*;

verus! {

/// Kind of network-contact event.
#[derive(Clone, Copy, Debug, PartialEq, Eq, Structural)]
pub enum MaEventKind {
    /// A prefix changed its origin.
    PrefixMove,
    /// A subject gained an upstream of another organization.
    UpstreamConverge,
    /// Two subjects became neighbours on an AS path.
    NewAdj,
    /// A subject's number of prefixes changed much.
    FootprintStep,
}

/// The name of a kind of event.
pub open spec fn kind_text(k: MaEventKind) -> Seq<char> {
    match k {
        MaEventKind::PrefixMove => "prefix_move"@,
        MaEventKind::UpstreamConverge => "upstream_converge"@,
        MaEventKind::NewAdj => "new_adj"@,
        MaEventKind::FootprintStep => "footprint_step"@,
    }
}

impl MaEventKind {
    /// The name of the kind.
    pub fn name(&self) -> (r: &'static str)
        ensures
            r@ == kind_text(*self),
    {
        match self {
            MaEventKind::PrefixMove => "prefix_move",
            MaEventKind::UpstreamConverge => "upstream_converge",
            MaEventKind::NewAdj => "new_adj",
            MaEventKind::FootprintStep => "footprint_step",
        }
    }
}

/// A network-contact event, with the organizations and domains of the networks it names.
#[derive(Debug)]
pub struct MaEvent {
    pub kind: MaEventKind,
    pub timestamp: Instant,
    pub org_a: Option<String>,
    pub org_b: Option<String>,
    pub asn_a: Option<u32>,
    pub asn_b: Option<u32>,
    pub domains_a: Vec<String>,
    pub domains_b: Vec<String>,
    pub prefix: Option<String>,
    pub detail: String,
}

/// What an event says.
#[verifier::ext_equal]
pub struct EventView {
    pub kind: MaEventKind,
    pub timestamp: Instant,
    pub org_a: Option<Seq<char>>,
    pub org_b: Option<Seq<char>>,
    pub asn_a: Option<u32>,
    pub asn_b: Option<u32>,
    pub domains_a: Seq<Seq<char>>,
    pub domains_b: Seq<Seq<char>>,
    pub prefix: Option<Seq<char>>,
    pub detail: Seq<char>,
}

impl View for MaEvent {
    type V = EventView;

    open spec fn view(&self) -> EventView {
        EventView {
            kind: self.kind,
            timestamp: self.timestamp,
            org_a: opt_text(self.org_a),
            org_b: opt_text(self.org_b),
            asn_a: self.asn_a,
            asn_b: self.asn_b,
            domains_a: texts(self.domains_a@),
            domains_b: texts(self.domains_b@),
            prefix: opt_text(self.prefix),
            detail: self.detail@,
        }
    }
}

impl MaEvent {
    /// A copy of the event.
    pub fn copy(&self) -> (r: MaEvent)
        ensures
            r@ == self@,
    {
        MaEvent {
            kind: self.kind,
            timestamp: self.timestamp,
            org_a: copy_opt_text(&self.org_a),
            org_b: copy_opt_text(&self.org_b),
            asn_a: self.asn_a,
            asn_b: self.asn_b,
            domains_a: copy_texts(&self.domains_a),
            domains_b: copy_texts(&self.domains_b),
            prefix: copy_opt_text(&self.prefix),
            detail: self.detail.clone(),
        }
    }
}

/// What events say.
pub open spec fn event_views(v: Seq<MaEvent>) -> Seq<EventView> {
    Seq::new(v.len(), |i: int| v[i]@)
}

// ---- pairs ----

/// An unordered pair of networks, the lower number first.
pub type AsnPair = (u32, u32);

/// The pair of two networks.
pub open spec fn pair_of(a: u32, b: u32) -> AsnPair {
    if a <= b {
        (a, b)
    } else {
        (b, a)
    }
}

/// The pair of two networks.
pub fn canon_pair(a: u32, b: u32) -> (r: AsnPair)
    ensures
        r == pair_of(a, b),
{
    if a <= b {
        (a, b)
    } else {
        (b, a)
    }
}

/// A pair does not depend on the order of its networks, holds both, and stands in order.
pub proof fn pair_is_unordered(a: u32, b: u32)
    ensures
        pair_of(a, b) == pair_of(b, a),
        pair_of(a, b).0 <= pair_of(a, b).1,
        pair_of(a, b) == (a, b) || pair_of(a, b) == (b, a),
        pair_of(pair_of(a, b).0, pair_of(a, b).1) == pair_of(a, b),
{
}

/// A pair as one number.
pub open spec fn packed(p: AsnPair) -> u64 {
    (p.0 * 0x1_0000_0000 + p.1) as u64
}

/// Packs a pair into one number.
pub fn pack(a: u32, b: u32) -> (r: u64)
    ensures
        r == packed((a, b)),
        r == a * 0x1_0000_0000 + b,
{
    a as u64 * 0x1_0000_0000 + b as u64
}

/// Different pairs are different numbers.
pub proof fn packed_injective(p: AsnPair, q: AsnPair)
    ensures
        packed(p) == packed(q) <==> p == q,
{
}

// ---- laws ----

/// The lower number of a pair comes first, whichever is given first, and no number is lost.
pub proof fn pairs_are_ordered(a: u32, b: u32)
    ensures
        pair_of(a, b).0 <= pair_of(a, b).1,
        pair_of(a, b) == pair_of(b, a),
        pair_of(a, b) == (a, b) || pair_of(a, b) == (b, a),
{
}

/// Kinds of events go by these names.
pub proof fn kinds_have_names()
    ensures
        kind_text(MaEventKind::PrefixMove) == "prefix_move"@,
        kind_text(MaEventKind::UpstreamConverge) == "upstream_converge"@,
        kind_text(MaEventKind::NewAdj) == "new_adj"@,
        kind_text(MaEventKind::FootprintStep) == "footprint_step"@,
{
}

} // verus!
