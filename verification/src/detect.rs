//! Valley-free path checks and the alerts they lead to.

use crate::orgs::opt_text;
use crate::prefix::{prefix_text, Prefix};
use crate::rib::copy_u32;
use crate::rpki::{state_name, RpkiState};
use crate::text::{
    all_digits, chars_of, decimal, decimal_is_digits, digits_value, is_digit, joined, lines,
    lines_of, number_in, parse_u32, parse_undoes_format, slice_text, split_char, split_on,
    split_undoes_join, starts_with_char, texts,
};
use crate::time::{rfc3339_text, to_rfc3339, Instant};
use std::collections::HashSet;
use valley_free::{Topology, TopologyExt};
use vstd::prelude::*;
use vstd::seq_lib::lemma_seq_contains_after_push;
use vstd::utf8::{decode_utf8, valid_utf8};

verus! {

broadcast use vstd::std_specs::hash::group_hash_axioms;

/// Commercial relationship of one network toward another.
#[derive(Clone, Copy, Debug, PartialEq, Eq, Structural)]
pub enum RelType {
    CustomerToProvider,
    PeerToPeer,
    ProviderToCustomer,
}

/// Outcome of the valley-free check of an AS path.
#[derive(Clone, Copy, Debug, PartialEq, Eq, Structural)]
pub enum PathVerdict {
    /// The path obeys the valley-free rule.
    ValleyFree,
    /// The path climbs, or crosses to a peer, after it crossed to a peer or went down.
    LeakSuspected,
    /// The relationship of some neighbours on the path is not known.
    Incomplete,
    /// Fewer than two networks.
    TooShort,
}

/// What keeps relationships from being loaded.
#[derive(Debug)]
pub enum DetectError {
    /// The source could not be read.
    Load { path: String, source: String },
    /// The content is not a relationship table.
    Parse(String),
}

// ---- the topology ----

/// `valley_free::Topology`.
#[verifier::external_type_specification]
#[verifier::external_body]
pub struct ExTopology(Topology);

/// The providers of each network of a topology.
pub uninterp spec fn topology_providers(t: Topology) -> Map<u32, Set<u32>>;

/// The customers of each network of a topology.
pub uninterp spec fn topology_customers(t: Topology) -> Map<u32, Set<u32>>;

/// The peers of each network of a topology.
pub uninterp spec fn topology_peers(t: Topology) -> Map<u32, Set<u32>>;

/// Some edge names the network.
pub open spec fn on_edge(edges: Seq<(u32, u32, RelType)>, asn: u32) -> bool {
    exists|i: int|
        0 <= i < edges.len() && ((#[trigger] edges[i]).0 == asn || edges[i].1 == asn)
}

/// An edge says that `from` stands in the relationship `rel` to `to`; the edge may be written
/// from either end.
pub open spec fn edge_says(
    edges: Seq<(u32, u32, RelType)>,
    from: u32,
    to: u32,
    rel: RelType,
) -> bool {
    let reverse = match rel {
        RelType::CustomerToProvider => RelType::ProviderToCustomer,
        RelType::PeerToPeer => RelType::PeerToPeer,
        RelType::ProviderToCustomer => RelType::CustomerToProvider,
    };
    edges.contains((from, to, rel)) || edges.contains((to, from, reverse))
}

/// For each network on an edge, those to which it stands in the relationship `rel`.
pub open spec fn related(edges: Seq<(u32, u32, RelType)>, rel: RelType) -> Map<u32, Set<u32>> {
    Map::new(
        |a: u32| on_edge(edges, a),
        |a: u32| Set::new(|b: u32| edge_says(edges, a, b, rel)),
    )
}

/// The topology's relationships are those of the edges.
pub open spec fn built_from(t: Topology, edges: Seq<(u32, u32, RelType)>) -> bool {
    &&& topology_providers(t) == related(edges, RelType::CustomerToProvider)
    &&& topology_customers(t) == related(edges, RelType::ProviderToCustomer)
    &&& topology_peers(t) == related(edges, RelType::PeerToPeer)
}

/// `Topology::from_edges`: a topology with just these edges. Networks and edges are numbered in
/// 32 bits, which bounds the number of edges.
#[verifier::external_body]
fn topology_from_edges(edges: Vec<(u32, u32, RelType)>) -> (r: Topology)
    requires
        edges@.len() < 0x8000_0000,
    ensures
        built_from(r, edges@),
{
    let convert = |rel: RelType| match rel {
        RelType::CustomerToProvider => valley_free::RelType::CustomerToProvider,
        RelType::PeerToPeer => valley_free::RelType::PeerToPeer,
        RelType::ProviderToCustomer => valley_free::RelType::ProviderToCustomer,
    };
    Topology::from_edges(edges.into_iter().map(|(a, b, r)| (a, b, convert(r))).collect())
}

/// `TopologyExt::providers_of`: the providers of a network of the topology.
#[verifier::external_body]
fn topology_providers_of(t: &Topology, asn: u32) -> (r: Option<HashSet<u32>>)
    ensures
        match r {
            Some(s) => topology_providers(*t).contains_key(asn) && s@ == topology_providers(
                *t,
            )[asn],
            None => !topology_providers(*t).contains_key(asn),
        },
{
    t.providers_of(asn)
}

/// `TopologyExt::customers_of`: the customers of a network of the topology.
#[verifier::external_body]
fn topology_customers_of(t: &Topology, asn: u32) -> (r: Option<HashSet<u32>>)
    ensures
        match r {
            Some(s) => topology_customers(*t).contains_key(asn) && s@ == topology_customers(
                *t,
            )[asn],
            None => !topology_customers(*t).contains_key(asn),
        },
{
    t.customers_of(asn)
}

/// `TopologyExt::peers_of`: the peers of a network of the topology.
#[verifier::external_body]
fn topology_peers_of(t: &Topology, asn: u32) -> (r: Option<HashSet<u32>>)
    ensures
        match r {
            Some(s) => topology_peers(*t).contains_key(asn) && s@ == topology_peers(*t)[asn],
            None => !topology_peers(*t).contains_key(asn),
        },
{
    t.peers_of(asn)
}

// ---- relationship tables ----

/// What a line of a relationship table holds.
pub enum RelLine {
    Comment,
    Edge(u32, u32, RelType),
    /// Readable so far, with a field missing.
    Short,
    Bad,
}

/// The relationship that a code stands for: `0` for peers, `-1` for provider to customer.
pub open spec fn rel_of_code(s: Seq<char>) -> Option<RelType> {
    let d = if s.len() > 0 && (s[0] == '-' || s[0] == '+') {
        s.subrange(1, s.len() as int)
    } else {
        s
    };
    if d.len() == 0 || !all_digits(d) {
        None
    } else if digits_value(d) == 0 {
        Some(RelType::PeerToPeer)
    } else if digits_value(d) == 1 && s[0] == '-' {
        Some(RelType::ProviderToCustomer)
    } else {
        None
    }
}

/// What a line holds: a comment behind `#`, or two networks and a code with bars between.
pub open spec fn rel_line(line: Seq<char>) -> RelLine {
    let f = split_on(line, '|');
    if line.len() > 0 && line[0] == '#' {
        RelLine::Comment
    } else {
        match number_in(f[0], u32::MAX as nat) {
            None => RelLine::Bad,
            Some(a) => if f.len() < 2 {
                RelLine::Short
            } else {
                match number_in(f[1], u32::MAX as nat) {
                    None => RelLine::Bad,
                    Some(b) => if f.len() < 3 {
                        RelLine::Short
                    } else {
                        match rel_of_code(f[2]) {
                            None => RelLine::Bad,
                            Some(rel) => RelLine::Edge(a as u32, b as u32, rel),
                        }
                    },
                }
            },
        }
    }
}

/// The edges of a table's lines.
pub open spec fn table_edges(lines: Seq<Seq<char>>) -> Seq<(u32, u32, RelType)>
    decreases lines.len(),
{
    if lines.len() == 0 {
        Seq::empty()
    } else {
        let head = table_edges(lines.drop_last());
        match rel_line(lines.last()) {
            RelLine::Edge(a, b, rel) => head.push((a, b, rel)),
            _ => head,
        }
    }
}

/// Every line can be read.
pub open spec fn table_readable(lines: Seq<Seq<char>>) -> bool {
    forall|i: int| 0 <= i < lines.len() ==> !(rel_line(#[trigger] lines[i]) is Bad)
}

/// No line lacks a field, unless a line before it cannot be read.
pub open spec fn table_complete(lines: Seq<Seq<char>>) -> bool {
    forall|i: int|
        0 <= i < lines.len() && rel_line(#[trigger] lines[i]) is Short ==> exists|j: int|
            0 <= j < i && rel_line(#[trigger] lines[j]) is Bad
}

/// The lines of an encoded text.
pub open spec fn encoded_lines(data: Seq<u8>) -> Seq<Seq<char>> {
    lines_of(decode_utf8(data))
}

/// `Topology::from_caida`: the topology of a relationship table's edges, where the table is
/// UTF-8 and every line can be read. The words of the message are left open.
#[verifier::external_body]
fn topology_from_caida(data: &[u8]) -> (r: Result<Topology, String>)
    requires
        data@.len() < 0x2_0000_0000,
        valid_utf8(data@) ==> table_complete(encoded_lines(data@)),
    ensures
        match r {
            Ok(t) => valid_utf8(data@) && table_readable(encoded_lines(data@)) && built_from(
                t,
                table_edges(encoded_lines(data@)),
            ),
            Err(_) => !(valid_utf8(data@) && table_readable(encoded_lines(data@))),
        },
{
    Topology::from_caida(data).map_err(|e| format!("{:?}", e))
}

/// `str::from_utf8` of std: the text that the bytes encode, where they are UTF-8.
#[verifier::external_body]
fn utf8_text(data: &[u8]) -> (r: Option<String>)
    ensures
        match r {
            Some(s) => valid_utf8(data@) && s@ == decode_utf8(data@),
            None => !valid_utf8(data@),
        },
{
    std::str::from_utf8(data).ok().map(String::from)
}

fn read_code(s: &str) -> (r: Option<RelType>)
    ensures
        r == rel_of_code(s@),
{
    let chars = chars_of(s);
    let mut from: usize = 0;
    if chars.len() > 0 && (chars[0] == '-' || chars[0] == '+') {
        from = 1;
    }
    let ghost d = if s@.len() > 0 && (s@[0] == '-' || s@[0] == '+') {
        s@.subrange(1, s@.len() as int)
    } else {
        s@
    };
    let body = slice_text(&chars, from, chars.len());
    assert(body@ =~= d);
    if body.as_str().is_empty() || !crate::text::is_decimal(body.as_str()) {
        return None;
    }
    if from == 0 && chars[0] == '+' {
        return None;
    }
    assert(d.len() > 0 && d[0] != '+') by {
        assert(crate::text::is_digit(d[0]));
    }
    match crate::text::parse_up_to(body.as_str(), 1) {
        Some(n) => {
            if n == 0 {
                Some(RelType::PeerToPeer)
            } else if chars[0] == '-' {
                Some(RelType::ProviderToCustomer)
            } else {
                None
            }
        },
        None => None,
    }
}

/// A line as far as the completeness of its table goes.
enum LineState {
    Fine,
    Short,
    Bad,
}

fn line_state(line: &str) -> (r: LineState)
    ensures
        r is Short <==> rel_line(line@) is Short,
        r is Bad <==> rel_line(line@) is Bad,
{
    if starts_with_char(line, '#') {
        return LineState::Fine;
    }
    let f = split_char(line, '|');
    proof {
        crate::text::lemma_split_nonempty(line@, '|');
        assert(texts(f@).len() == f@.len());
        assert(texts(f@)[0] == f@[0]@);
    }
    if parse_u32(f[0].as_str()).is_none() {
        return LineState::Bad;
    }
    if f.len() < 2 {
        return LineState::Short;
    }
    assert(texts(f@)[1] == f@[1]@);
    if parse_u32(f[1].as_str()).is_none() {
        return LineState::Bad;
    }
    if f.len() < 3 {
        return LineState::Short;
    }
    assert(texts(f@)[2] == f@[2]@);
    if read_code(f[2].as_str()).is_none() {
        return LineState::Bad;
    }
    LineState::Fine
}

/// Tells whether no line of a relationship table lacks a field before the first line that cannot
/// be read.
pub fn relationship_table_complete(data: &[u8]) -> (r: bool)
    ensures
        r == (valid_utf8(data@) ==> table_complete(encoded_lines(data@))),
{
    let text = match utf8_text(data) {
        Some(t) => t,
        None => return true,
    };
    let all = lines(text.as_str());
    let ghost ls = encoded_lines(data@);
    assert(texts(all@) == ls);
    let mut i: usize = 0;
    while i < all.len()
        invariant
            i <= all.len(),
            texts(all@) == ls,
            valid_utf8(data@),
            ls == encoded_lines(data@),
            forall|k: int|
                0 <= k < i ==> !(rel_line(#[trigger] ls[k]) is Bad) && !(rel_line(
                    ls[k],
                ) is Short),
        decreases all.len() - i,
    {
        assert(ls[i as int] == all@[i as int]@);
        match line_state(all[i].as_str()) {
            LineState::Fine => {},
            LineState::Short => {
                assert(rel_line(ls[i as int]) is Short);
                return false;
            },
            LineState::Bad => {
                assert(rel_line(ls[i as int]) is Bad);
                return true;
            },
        }
        i += 1;
    }
    true
}

// ---- paths ----

/// A path with repeats of a network next to itself taken out.
pub open spec fn collapsed(path: Seq<u32>) -> Seq<u32>
    decreases path.len(),
{
    if path.len() <= 1 {
        path
    } else {
        let head = collapsed(path.drop_last());
        if path[path.len() - 2] == path.last() {
            head
        } else {
            head.push(path.last())
        }
    }
}

/// A path without prepending ends where the path does, and is no longer.
pub proof fn lemma_collapsed(path: Seq<u32>)
    ensures
        path.len() > 0 ==> collapsed(path).len() > 0 && collapsed(path).last() == path.last(),
        collapsed(path).len() <= path.len(),
    decreases path.len(),
{
    if path.len() > 1 {
        lemma_collapsed(path.drop_last());
        assert(path.drop_last().last() == path[path.len() - 2]);
    }
}

/// Takes repeats of a network next to itself out of a path.
pub fn collapse(path: &[u32]) -> (r: Vec<u32>)
    ensures
        r@ == collapsed(path@),
{
    let mut out: Vec<u32> = Vec::new();
    let mut i: usize = 0;
    while i < path.len()
        invariant
            i <= path.len(),
            out@ == collapsed(path@.subrange(0, i as int)),
        decreases path.len() - i,
    {
        proof {
            let next = path@.subrange(0, i as int + 1);
            assert(next.drop_last() =~= path@.subrange(0, i as int));
            assert(next.last() == path@[i as int]);
            if i == 0 {
                assert(next =~= Seq::<u32>::empty().push(path@[0]));
            }
        }
        if i == 0 || path[i - 1] != path[i] {
            out.push(path[i]);
        }
        i += 1;
        assert(out@ =~= collapsed(path@.subrange(0, i as int)));
    }
    assert(path@.subrange(0, path@.len() as int) =~= path@);
    out
}

/// The relationship of `from` to `to`, as providers, customers and peers tell, in this order.
pub open spec fn relation(
    providers: Map<u32, Set<u32>>,
    customers: Map<u32, Set<u32>>,
    peers: Map<u32, Set<u32>>,
    from: u32,
    to: u32,
) -> Option<RelType> {
    if providers.contains_key(from) && providers[from].contains(to) {
        Some(RelType::CustomerToProvider)
    } else if customers.contains_key(from) && customers[from].contains(to) {
        Some(RelType::ProviderToCustomer)
    } else if peers.contains_key(from) && peers[from].contains(to) {
        Some(RelType::PeerToPeer)
    } else {
        None
    }
}

/// The relationships along a path, step by step.
pub open spec fn steps(
    path: Seq<u32>,
    rel: spec_fn(u32, u32) -> Option<RelType>,
) -> Seq<Option<RelType>> {
    Seq::new(
        if path.len() == 0 {
            0
        } else {
            (path.len() - 1) as nat
        },
        |i: int| rel(path[i], path[i + 1]),
    )
}

/// A step of the route that is not toward a provider.
pub open spec fn leaves_climb(step: Option<RelType>) -> bool {
    step == Some(RelType::PeerToPeer) || step == Some(RelType::ProviderToCustomer)
}

/// A step of the route that is not toward a customer.
pub open spec fn not_downhill(step: Option<RelType>) -> bool {
    step == Some(RelType::PeerToPeer) || step == Some(RelType::CustomerToProvider)
}

/// The route left its climb at one step, and a later step does not go down.
pub open spec fn has_valley(s: Seq<Option<RelType>>) -> bool {
    exists|i: int, j: int|
        0 <= i < j < s.len() && leaves_climb(#[trigger] s[i]) && not_downhill(#[trigger] s[j])
}

/// The relationship of some step is not known.
pub open spec fn has_gap(s: Seq<Option<RelType>>) -> bool {
    exists|i: int| 0 <= i < s.len() && (#[trigger] s[i]) is None
}

/// The order in which a route travelled: from the origin, the last network of an AS path, to the
/// neighbour, without prepending.
pub open spec fn travelled(as_path: Seq<u32>) -> Seq<u32> {
    collapsed(as_path.reverse())
}

/// The verdict on an AS path.
pub open spec fn verdict(
    as_path: Seq<u32>,
    rel: spec_fn(u32, u32) -> Option<RelType>,
) -> PathVerdict {
    let path = travelled(as_path);
    let s = steps(path, rel);
    if path.len() < 2 {
        PathVerdict::TooShort
    } else if has_valley(s) {
        PathVerdict::LeakSuspected
    } else if has_gap(s) {
        PathVerdict::Incomplete
    } else {
        PathVerdict::ValleyFree
    }
}

/// Checks AS paths against known relationships.
pub struct LeakDetector {
    topology: Topology,
}

impl LeakDetector {
    /// The topology of relationships.
    pub closed spec fn topology(&self) -> Topology {
        self.topology
    }

    /// The relationship of `from` to `to`.
    pub open spec fn rel(&self) -> spec_fn(u32, u32) -> Option<RelType> {
        |from: u32, to: u32|
            relation(
                topology_providers(self.topology()),
                topology_customers(self.topology()),
                topology_peers(self.topology()),
                from,
                to,
            )
    }

    /// A detector over a topology.
    pub fn from_topology(topology: Topology) -> (r: Self)
        ensures
            r.topology() == topology,
    {
        LeakDetector { topology }
    }

    /// A detector over edges.
    pub fn from_edges(edges: Vec<(u32, u32, RelType)>) -> (r: Self)
        requires
            edges@.len() < 0x8000_0000,
        ensures
            built_from(r.topology(), edges@),
    {
        LeakDetector { topology: topology_from_edges(edges) }
    }

    /// A detector over a CAIDA serial-1 relationship table.
    pub fn from_caida(data: &[u8]) -> (r: Result<Self, DetectError>)
        requires
            data@.len() < 0x2_0000_0000,
            valid_utf8(data@) ==> table_complete(encoded_lines(data@)),
        ensures
            match r {
                Ok(d) => valid_utf8(data@) && table_readable(encoded_lines(data@)) && built_from(
                    d.topology(),
                    table_edges(encoded_lines(data@)),
                ),
                Err(e) => e is Parse && !(valid_utf8(data@) && table_readable(
                    encoded_lines(data@),
                )),
            },
    {
        match topology_from_caida(data) {
            Ok(topology) => Ok(LeakDetector { topology }),
            Err(e) => Err(DetectError::Parse(e)),
        }
    }

    /// Checks an AS path, neighbour first and origin last.
    pub fn check_as_path(&self, as_path: &[u32]) -> (r: PathVerdict)
        ensures
            r == verdict(as_path@, self.rel()),
    {
        let mut rev: Vec<u32> = Vec::new();
        let mut k: usize = as_path.len();
        while k > 0
            invariant
                k <= as_path.len(),
                rev@.len() == as_path.len() - k,
                forall|q: int| 0 <= q < rev@.len() ==> rev@[q] == as_path@[as_path@.len() - 1 - q],
            decreases k,
        {
            k -= 1;
            rev.push(as_path[k]);
        }
        assert(rev@ =~= as_path@.reverse());
        let path = collapse(rev.as_slice());
        if path.len() < 2 {
            return PathVerdict::TooShort;
        }
        let ghost s = steps(path@, self.rel());
        let mut climbing = true;
        let mut incomplete = false;
        let mut i: usize = 0;
        while i < path.len() - 1
            invariant
                2 <= path.len(),
                i <= path.len() - 1,
                path@ == travelled(as_path@),
                s == steps(path@, self.rel()),
                climbing <==> forall|q: int| 0 <= q < i ==> !leaves_climb(#[trigger] s[q]),
                incomplete <==> exists|q: int| 0 <= q < i && (#[trigger] s[q]) is None,
                forall|p: int, q: int|
                    0 <= p < q < i ==> !(leaves_climb(#[trigger] s[p]) && not_downhill(
                        #[trigger] s[q],
                    )),
            decreases path.len() - i,
        {
            let step = relationship(&self.topology, path[i], path[i + 1]);
            assert(s[i as int] == step);
            match step {
                None => {
                    incomplete = true;
                },
                Some(rel) => {
                    if !climbing && rel != RelType::ProviderToCustomer {
                        proof {
                            let p = choose|p: int| 0 <= p < i && leaves_climb(#[trigger] s[p]);
                            assert(leaves_climb(s[p]) && not_downhill(s[i as int]));
                        }
                        return PathVerdict::LeakSuspected;
                    }
                    if rel != RelType::CustomerToProvider {
                        assert(leaves_climb(s[i as int]));
                        climbing = false;
                    }
                },
            }
            i += 1;
        }
        if incomplete {
            PathVerdict::Incomplete
        } else {
            PathVerdict::ValleyFree
        }
    }
}

/// The relationship of `from` to `to`.
fn relationship(topo: &Topology, from: u32, to: u32) -> (r: Option<RelType>)
    ensures
        r == relation(
            topology_providers(*topo),
            topology_customers(*topo),
            topology_peers(*topo),
            from,
            to,
        ),
{
    if let Some(s) = topology_providers_of(topo, from) {
        if s.contains(&to) {
            return Some(RelType::CustomerToProvider);
        }
    }
    if let Some(s) = topology_customers_of(topo, from) {
        if s.contains(&to) {
            return Some(RelType::ProviderToCustomer);
        }
    }
    if let Some(s) = topology_peers_of(topo, from) {
        if s.contains(&to) {
            return Some(RelType::PeerToPeer);
        }
    }
    None
}

/// Prepending a network to a path, next to where it stands, does not change the verdict.
pub proof fn prepending_is_ignored(
    as_path: Seq<u32>,
    at: int,
    rel: spec_fn(u32, u32) -> Option<RelType>,
)
    requires
        0 <= at < as_path.len(),
    ensures
        verdict(as_path.insert(at, as_path[at]), rel) == verdict(as_path, rel),
{
    let n = as_path.len();
    let r = as_path.reverse();
    let longer = as_path.insert(at, as_path[at]).reverse();
    let p = n - 1 - at;
    assert(longer =~= r.insert(p, r[p]));
    lemma_collapsed_repeat(r, p);
}

proof fn lemma_collapsed_repeat(r: Seq<u32>, p: int)
    requires
        0 <= p < r.len(),
    ensures
        collapsed(r.insert(p, r[p])) == collapsed(r),
    decreases r.len(),
{
    let longer = r.insert(p, r[p]);
    if p == r.len() - 1 {
        assert(longer.drop_last() =~= r);
        assert(longer.last() == longer[longer.len() - 2]);
    } else {
        lemma_collapsed_repeat(r.drop_last(), p);
        assert(longer.drop_last() =~= r.drop_last().insert(p, r[p]));
        assert(longer.last() == r.last());
        assert(longer[longer.len() - 2] == r[r.len() - 2]);
    }
}

/// A path whose steps all climb toward providers, or all go down toward customers, is
/// valley-free.
pub proof fn one_way_paths_are_valley_free(
    as_path: Seq<u32>,
    rel: spec_fn(u32, u32) -> Option<RelType>,
    way: RelType,
)
    requires
        travelled(as_path).len() >= 2,
        way != RelType::PeerToPeer,
        forall|i: int|
            0 <= i < steps(travelled(as_path), rel).len() ==> #[trigger] steps(
                travelled(as_path),
                rel,
            )[i] == Some(way),
    ensures
        verdict(as_path, rel) == PathVerdict::ValleyFree,
{
}

// ---- alerts ----

/// An alert on a route that is invalid or seems leaked.
#[derive(Clone, Debug)]
pub struct Alert {
    pub timestamp: Instant,
    pub prefix: String,
    pub origin_asn: Option<u32>,
    pub as_path: Vec<u32>,
    pub peer_asn: u32,
    pub collector: Option<String>,
    pub rpki_state: RpkiState,
    pub path_verdict: PathVerdict,
    pub leak_suspected: bool,
    pub reason: String,
}

/// What an alert says.
#[verifier::ext_equal]
pub struct AlertView {
    pub timestamp: Instant,
    pub prefix: Seq<char>,
    pub origin_asn: Option<u32>,
    pub as_path: Seq<u32>,
    pub peer_asn: u32,
    pub collector: Option<Seq<char>>,
    pub rpki_state: RpkiState,
    pub path_verdict: PathVerdict,
    pub leak_suspected: bool,
    pub reason: Seq<char>,
}

impl View for Alert {
    type V = AlertView;

    open spec fn view(&self) -> AlertView {
        AlertView {
            timestamp: self.timestamp,
            prefix: self.prefix@,
            origin_asn: self.origin_asn,
            as_path: self.as_path@,
            peer_asn: self.peer_asn,
            collector: opt_text(self.collector),
            rpki_state: self.rpki_state,
            path_verdict: self.path_verdict,
            leak_suspected: self.leak_suspected,
            reason: self.reason@,
        }
    }
}

/// What alerts say.
pub open spec fn alert_views(v: Seq<Alert>) -> Seq<AlertView> {
    Seq::new(v.len(), |i: int| v[i]@)
}

impl Alert {
    /// The alert has a reason.
    pub open spec fn has_reason(&self) -> bool {
        self.rpki_state == RpkiState::Invalid || self.leak_suspected
    }

    /// Tells whether the alert has a reason.
    pub fn should_emit(&self) -> (r: bool)
        ensures
            r == self.has_reason(),
    {
        self.rpki_state == RpkiState::Invalid || self.leak_suspected
    }
}

/// The reasons of an alert.
pub open spec fn alert_reasons(rpki: RpkiState, verdict: PathVerdict) -> Seq<Seq<char>> {
    let a = if rpki == RpkiState::Invalid {
        seq!["rpki_invalid"@]
    } else {
        Seq::empty()
    };
    if verdict == PathVerdict::LeakSuspected {
        a.push("valley_free_violation"@)
    } else {
        a
    }
}

/// Makes an alert of a route, where validation or the path check gives a reason.
pub fn maybe_alert(
    timestamp: Instant,
    prefix: Prefix,
    origin_asn: Option<u32>,
    as_path: Vec<u32>,
    peer_asn: u32,
    collector: Option<String>,
    rpki_state: RpkiState,
    path_verdict: PathVerdict,
) -> (r: Option<Alert>)
    ensures
        match r {
            None => alert_reasons(rpki_state, path_verdict).len() == 0,
            Some(a) => {
                &&& alert_reasons(rpki_state, path_verdict).len() > 0
                &&& a.timestamp == timestamp
                &&& a.prefix@ == prefix_text(prefix.net())
                &&& a.origin_asn == origin_asn
                &&& a.as_path == as_path
                &&& a.peer_asn == peer_asn
                &&& a.collector == collector
                &&& a.rpki_state == rpki_state
                &&& a.path_verdict == path_verdict
                &&& a.leak_suspected == (path_verdict == PathVerdict::LeakSuspected)
                &&& a.reason@ == joined(alert_reasons(rpki_state, path_verdict), ","@)
                &&& a.has_reason()
            },
        },
{
    let leak_suspected = path_verdict == PathVerdict::LeakSuspected;
    let mut reasons: Vec<String> = Vec::new();
    if rpki_state == RpkiState::Invalid {
        reasons.push("rpki_invalid".to_owned());
    }
    if leak_suspected {
        reasons.push("valley_free_violation".to_owned());
    }
    assert(texts(reasons@) =~= alert_reasons(rpki_state, path_verdict));
    if reasons.len() == 0 {
        return None;
    }
    let reason = crate::text::join(&reasons, ",");
    Some(
        Alert {
            timestamp,
            prefix: prefix.text(),
            origin_asn,
            as_path,
            peer_asn,
            collector,
            rpki_state,
            path_verdict,
            leak_suspected,
            reason,
        },
    )
}

// ---- alerts as columns ----

/// The name of a verdict.
pub open spec fn verdict_name(v: PathVerdict) -> Seq<char> {
    match v {
        PathVerdict::ValleyFree => "valley_free"@,
        PathVerdict::LeakSuspected => "leak_suspected"@,
        PathVerdict::Incomplete => "incomplete"@,
        PathVerdict::TooShort => "too_short"@,
    }
}

impl PathVerdict {
    /// The name of the verdict.
    pub fn name(&self) -> (r: &'static str)
        ensures
            r@ == verdict_name(*self),
    {
        match self {
            PathVerdict::ValleyFree => "valley_free",
            PathVerdict::LeakSuspected => "leak_suspected",
            PathVerdict::Incomplete => "incomplete",
            PathVerdict::TooShort => "too_short",
        }
    }
}

/// Alerts by column.
#[derive(Debug)]
pub struct AlertColumns {
    pub timestamps: Vec<String>,
    pub prefixes: Vec<String>,
    pub origin_asns: Vec<Option<u32>>,
    pub as_paths: Vec<Vec<u32>>,
    pub peer_asns: Vec<u32>,
    pub collectors: Vec<Option<String>>,
    pub rpki_states: Vec<String>,
    pub path_verdicts: Vec<String>,
    pub leaks: Vec<bool>,
    pub reasons: Vec<String>,
}

impl AlertColumns {
    /// The columns have a length.
    pub open spec fn has_len(&self, n: nat) -> bool {
        &&& self.timestamps@.len() == n && self.prefixes@.len() == n
        &&& self.origin_asns@.len() == n && self.as_paths@.len() == n
        &&& self.peer_asns@.len() == n && self.collectors@.len() == n
        &&& self.rpki_states@.len() == n && self.path_verdicts@.len() == n
        &&& self.leaks@.len() == n && self.reasons@.len() == n
    }

    /// The columns say of a row what an alert says.
    pub open spec fn row_says(&self, i: int, a: Alert) -> bool {
        &&& self.timestamps@[i]@ == rfc3339_text(a.timestamp.secs as int, a.timestamp.nanos as int)
        &&& self.prefixes@[i]@ == a.prefix@
        &&& self.origin_asns@[i] == a.origin_asn
        &&& self.as_paths@[i]@ == a.as_path@
        &&& self.peer_asns@[i] == a.peer_asn
        &&& crate::orgs::opt_text(self.collectors@[i]) == crate::orgs::opt_text(a.collector)
        &&& self.rpki_states@[i]@ == state_name(a.rpki_state)
        &&& self.path_verdicts@[i]@ == verdict_name(a.path_verdict)
        &&& self.leaks@[i] == a.leak_suspected
        &&& self.reasons@[i]@ == a.reason@
    }
}

/// Lays alerts out by column.
pub fn alert_columns(alerts: &[Alert]) -> (r: AlertColumns)
    requires
        forall|i: int| 0 <= i < alerts@.len() ==> (#[trigger] alerts@[i]).timestamp.wf(),
    ensures
        r.has_len(alerts@.len()),
        forall|i: int| 0 <= i < alerts@.len() ==> r.row_says(i, #[trigger] alerts@[i]),
{
    let mut r = AlertColumns {
        timestamps: Vec::new(),
        prefixes: Vec::new(),
        origin_asns: Vec::new(),
        as_paths: Vec::new(),
        peer_asns: Vec::new(),
        collectors: Vec::new(),
        rpki_states: Vec::new(),
        path_verdicts: Vec::new(),
        leaks: Vec::new(),
        reasons: Vec::new(),
    };
    let mut i: usize = 0;
    while i < alerts.len()
        invariant
            i <= alerts@.len(),
            forall|j: int| 0 <= j < alerts@.len() ==> (#[trigger] alerts@[j]).timestamp.wf(),
            r.has_len(i as nat),
            forall|j: int| 0 <= j < i ==> r.row_says(j, #[trigger] alerts@[j]),
        decreases alerts@.len() - i,
    {
        let a = &alerts[i];
        let ghost was = r;
        r.timestamps.push(to_rfc3339(a.timestamp));
        r.prefixes.push(a.prefix.clone());
        r.origin_asns.push(a.origin_asn);
        r.as_paths.push(copy_u32(a.as_path.as_slice()));
        r.peer_asns.push(a.peer_asn);
        r.collectors.push(crate::orgs::copy_opt_text(&a.collector));
        r.rpki_states.push(a.rpki_state.name().to_owned());
        r.path_verdicts.push(a.path_verdict.name().to_owned());
        r.leaks.push(a.leak_suspected);
        r.reasons.push(a.reason.clone());
        proof {
            assert forall|j: int| 0 <= j < i + 1 implies r.row_says(j, #[trigger] alerts@[j]) by {
                if j < i {
                    assert(was.row_says(j, alerts@[j]));
                }
            }
        }
        i += 1;
    }
    r
}

/// Two different networks stand next to each other on a path just where they do once prepending is
/// taken out; and then no network stands next to itself.
pub proof fn prepending_hides_no_neighbours(path: Seq<u32>, a: u32, b: u32)
    requires
        a != b,
    ensures
        (exists|k: int|
            0 <= k < collapsed(path).len() - 1 && #[trigger] collapsed(path)[k] == a && collapsed(
                path,
            )[k + 1] == b) <==> (exists|k: int|
            0 <= k < path.len() - 1 && #[trigger] path[k] == a && path[k + 1] == b),
        forall|k: int|
            0 <= k < collapsed(path).len() - 1 ==> #[trigger] collapsed(path)[k] != collapsed(
                path,
            )[k + 1],
        collapsed(path).len() > 0 <==> path.len() > 0,
        path.len() > 0 ==> collapsed(path)[0] == path[0] && collapsed(path).last() == path.last(),
    decreases path.len(),
{
    lemma_collapsed(path);
    if path.len() > 1 {
        let rest = path.drop_last();
        let n = path.len() as int;
        let c = collapsed(rest);
        prepending_hides_no_neighbours(rest, a, b);
        lemma_collapsed(rest);
        assert(rest.last() == path[n - 2]);
        if path[n - 2] == path.last() {
            if exists|k: int| 0 <= k < path.len() - 1 && #[trigger] path[k] == a && path[k + 1]
                == b {
                let k = choose|k: int|
                    0 <= k < path.len() - 1 && #[trigger] path[k] == a && path[k + 1] == b;
                assert(rest[k] == a && rest[k + 1] == b);
            }
        } else {
            let full = collapsed(path);
            assert(full =~= c.push(path.last()));
            if exists|k: int| 0 <= k < path.len() - 1 && #[trigger] path[k] == a && path[k + 1]
                == b {
                let k = choose|k: int|
                    0 <= k < path.len() - 1 && #[trigger] path[k] == a && path[k + 1] == b;
                if k < n - 2 {
                    assert(rest[k] == a && rest[k + 1] == b);
                    let j = choose|j: int|
                        0 <= j < c.len() - 1 && #[trigger] c[j] == a && c[j + 1] == b;
                    assert(full[j] == a && full[j + 1] == b);
                } else {
                    assert(full[c.len() - 1] == a && full[c.len() as int] == b);
                }
            }
            if exists|k: int| 0 <= k < full.len() - 1 && #[trigger] full[k] == a && full[k + 1]
                == b {
                let k = choose|k: int|
                    0 <= k < full.len() - 1 && #[trigger] full[k] == a && full[k + 1] == b;
                if k < c.len() - 1 {
                    assert(c[k] == a && c[k + 1] == b);
                } else {
                    assert(path[n - 2] == a && path[n - 1] == b);
                }
            }
            assert forall|k: int| 0 <= k < full.len() - 1 implies #[trigger] full[k] != full[k
                + 1] by {
                if k < c.len() - 1 {
                    assert(c[k] != c[k + 1]);
                }
            }
        }
        if exists|k: int| 0 <= k < rest.len() - 1 && #[trigger] rest[k] == a && rest[k + 1] == b {
            let k = choose|k: int|
                0 <= k < rest.len() - 1 && #[trigger] rest[k] == a && rest[k + 1] == b;
            assert(path[k] == a && path[k + 1] == b);
        }
    }
}

/// No network stands next to itself.
pub open spec fn is_unprepended(path: Seq<u32>) -> bool {
    forall|k: int| 0 <= k < path.len() - 1 ==> #[trigger] path[k] != path[k + 1]
}

proof fn lemma_unprepended(path: Seq<u32>)
    requires
        is_unprepended(path),
    ensures
        collapsed(path) == path,
    decreases path.len(),
{
    if path.len() > 1 {
        let rest = path.drop_last();
        assert forall|k: int| 0 <= k < rest.len() - 1 implies #[trigger] rest[k] != rest[k + 1] by {
            assert(path[k] != path[k + 1]);
        }
        lemma_unprepended(rest);
        assert(path[path.len() - 2] != path[path.len() - 1]);
        assert(rest.push(path.last()) =~= path);
    }
}

/// The relationship of the network at a place of an AS path to the one it handed the route to,
/// which stands before it.
pub open spec fn hop(
    as_path: Seq<u32>,
    rel: spec_fn(u32, u32) -> Option<RelType>,
    k: int,
) -> Option<RelType> {
    rel(as_path[k], as_path[k - 1])
}

proof fn lemma_hops(as_path: Seq<u32>, rel: spec_fn(u32, u32) -> Option<RelType>)
    requires
        is_unprepended(as_path),
    ensures
        travelled(as_path) == as_path.reverse(),
        forall|k: int|
            #![trigger hop(as_path, rel, k)]
            1 <= k < as_path.len() ==> hop(as_path, rel, k) == steps(
                travelled(as_path),
                rel,
            )[as_path.len() - 1 - k],
        forall|i: int|
            0 <= i < as_path.len() - 1 ==> #[trigger] steps(travelled(as_path), rel)[i] == hop(
                as_path,
                rel,
                as_path.len() - 1 - i,
            ),
        as_path.len() > 0 ==> steps(travelled(as_path), rel).len() == as_path.len() - 1,
{
    let r = as_path.reverse();
    let n = as_path.len() as int;
    assert forall|k: int| 0 <= k < r.len() - 1 implies #[trigger] r[k] != r[k + 1] by {
        assert(as_path[n - 2 - k] != as_path[n - 2 - k + 1]);
        assert(r[k] == as_path[n - 1 - k] && r[k + 1] == as_path[n - 2 - k]);
    }
    lemma_unprepended(r);
}

/// Of a path of at least two networks, without prepending: it is suspected of a leak just where,
/// on its way from the origin, a route that was handed to a peer or a customer is later handed to
/// a peer or a provider; else the verdict is open just where a relationship on the way is not
/// known; and valley-free just where neither holds.
pub proof fn verdicts_are_by_the_way_of_the_route(
    as_path: Seq<u32>,
    rel: spec_fn(u32, u32) -> Option<RelType>,
)
    requires
        is_unprepended(as_path),
    ensures
        verdict(as_path, rel) == PathVerdict::TooShort <==> as_path.len() < 2,
        verdict(as_path, rel) == PathVerdict::LeakSuspected <==> exists|sooner: int, later: int|
            #![trigger hop(as_path, rel, sooner), hop(as_path, rel, later)]
            1 <= later < sooner < as_path.len() && (hop(as_path, rel, sooner) == Some(
                RelType::PeerToPeer,
            ) || hop(as_path, rel, sooner) == Some(RelType::ProviderToCustomer)) && (hop(
                as_path,
                rel,
                later,
            ) == Some(RelType::PeerToPeer) || hop(as_path, rel, later) == Some(
                RelType::CustomerToProvider,
            )),
        verdict(as_path, rel) == PathVerdict::Incomplete ==> exists|k: int|
            1 <= k < as_path.len() && (#[trigger] hop(as_path, rel, k)) is None,
        verdict(as_path, rel) == PathVerdict::ValleyFree ==> as_path.len() >= 2 && forall|k: int|
            1 <= k < as_path.len() ==> (#[trigger] hop(as_path, rel, k)) is Some,
{
    let s = steps(travelled(as_path), rel);
    let n = as_path.len() as int;
    lemma_hops(as_path, rel);
    if as_path.len() >= 2 {
        if has_valley(s) {
            let (i, j) = choose|i: int, j: int|
                0 <= i < j < s.len() && leaves_climb(#[trigger] s[i]) && not_downhill(
                    #[trigger] s[j],
                );
            assert(s[i] == hop(as_path, rel, n - 1 - i) && s[j] == hop(as_path, rel, n - 1 - j));
        }
        if exists|sooner: int, later: int|
            #![trigger hop(as_path, rel, sooner), hop(as_path, rel, later)]
            1 <= later < sooner < as_path.len() && (hop(as_path, rel, sooner) == Some(
                RelType::PeerToPeer,
            ) || hop(as_path, rel, sooner) == Some(RelType::ProviderToCustomer)) && (hop(
                as_path,
                rel,
                later,
            ) == Some(RelType::PeerToPeer) || hop(as_path, rel, later) == Some(
                RelType::CustomerToProvider,
            )) {
            let (sooner, later) = choose|sooner: int, later: int|
                #![trigger hop(as_path, rel, sooner), hop(as_path, rel, later)]
                1 <= later < sooner < as_path.len() && (hop(as_path, rel, sooner) == Some(
                    RelType::PeerToPeer,
                ) || hop(as_path, rel, sooner) == Some(RelType::ProviderToCustomer)) && (hop(
                    as_path,
                    rel,
                    later,
                ) == Some(RelType::PeerToPeer) || hop(as_path, rel, later) == Some(
                    RelType::CustomerToProvider,
                ));
            assert(leaves_climb(s[n - 1 - sooner]) && not_downhill(s[n - 1 - later]));
        }
        if has_gap(s) {
            let i = choose|i: int| 0 <= i < s.len() && (#[trigger] s[i]) is None;
            assert(hop(as_path, rel, n - 1 - i) is None);
        } else {
            assert forall|k: int| 1 <= k < as_path.len() implies (#[trigger] hop(as_path, rel, k)) is
                Some by {
                assert(!(s[n - 1 - k] is None));
            }
        }
    }
}

/// The route of a valley-free path climbs from customer to provider, is then handed to one peer at
/// most, and goes down from provider to customer.
pub proof fn valley_free_routes_climb_cross_and_descend(
    as_path: Seq<u32>,
    rel: spec_fn(u32, u32) -> Option<RelType>,
)
    requires
        is_unprepended(as_path),
        verdict(as_path, rel) == PathVerdict::ValleyFree,
    ensures
        forall|sooner: int, later: int|
            #![trigger hop(as_path, rel, sooner), hop(as_path, rel, later)]
            1 <= later < sooner < as_path.len() ==> hop(as_path, rel, sooner) == Some(
                RelType::CustomerToProvider,
            ) || hop(as_path, rel, later) == Some(RelType::ProviderToCustomer),
{
    verdicts_are_by_the_way_of_the_route(as_path, rel);
    assert forall|sooner: int, later: int|
        #![trigger hop(as_path, rel, sooner), hop(as_path, rel, later)]
        1 <= later < sooner < as_path.len() implies hop(as_path, rel, sooner) == Some(
        RelType::CustomerToProvider,
    ) || hop(as_path, rel, later) == Some(RelType::ProviderToCustomer) by {
        assert(hop(as_path, rel, sooner) is Some && hop(as_path, rel, later) is Some);
    }
}

/// A detector built from edges knows a network as another's customer, provider or peer just where
/// an edge says so, from whichever end; where edges disagree, the customer comes before the
/// provider, and the peer last.
pub proof fn relationships_are_those_of_the_edges(
    d: LeakDetector,
    edges: Seq<(u32, u32, RelType)>,
    from: u32,
    to: u32,
)
    requires
        built_from(d.topology(), edges),
    ensures
        ({
            let r = (d.rel())(from, to);
            let up = edges.contains((from, to, RelType::CustomerToProvider)) || edges.contains(
                (to, from, RelType::ProviderToCustomer),
            );
            let down = edges.contains((from, to, RelType::ProviderToCustomer)) || edges.contains(
                (to, from, RelType::CustomerToProvider),
            );
            let across = edges.contains((from, to, RelType::PeerToPeer)) || edges.contains(
                (to, from, RelType::PeerToPeer),
            );
            &&& r == Some(RelType::CustomerToProvider) <==> up
            &&& r == Some(RelType::ProviderToCustomer) <==> down && !up
            &&& r == Some(RelType::PeerToPeer) <==> across && !up && !down
            &&& r is None <==> !up && !down && !across
        }),
{
    assert forall|r: RelType|
        edges.contains((from, to, r)) || edges.contains((to, from, r)) implies on_edge(
        edges,
        from,
    ) by {
        if edges.contains((from, to, r)) {
            let i = choose|i: int| 0 <= i < edges.len() && edges[i] == (from, to, r);
            assert(edges[i].0 == from);
        } else {
            let i = choose|i: int| 0 <= i < edges.len() && edges[i] == (to, from, r);
            assert(edges[i].1 == from);
        }
    }
    assert(edges.contains((from, to, RelType::CustomerToProvider)) || edges.contains(
        (to, from, RelType::CustomerToProvider),
    ) ==> on_edge(edges, from));
    assert(edges.contains((from, to, RelType::ProviderToCustomer)) || edges.contains(
        (to, from, RelType::ProviderToCustomer),
    ) ==> on_edge(edges, from));
    assert(edges.contains((from, to, RelType::PeerToPeer)) || edges.contains(
        (to, from, RelType::PeerToPeer),
    ) ==> on_edge(edges, from));
}

/// A line of two networks and a code with bars between them, whatever fields follow, is an edge:
/// `-1` says that the first is the second's provider, `0` that they are peers.
pub proof fn lines_say_relationships(fields: Seq<Seq<char>>, a: u32, b: u32)
    requires
        fields.len() >= 3,
        forall|i: int| 0 <= i < fields.len() ==> !(#[trigger] fields[i]).contains('|'),
        fields[0] == decimal(a as nat),
        fields[1] == decimal(b as nat),
    ensures
        fields[2] == "-1"@ ==> rel_line(joined(fields, seq!['|'])) == RelLine::Edge(
            a,
            b,
            RelType::ProviderToCustomer,
        ),
        fields[2] == "0"@ ==> rel_line(joined(fields, seq!['|'])) == RelLine::Edge(
            a,
            b,
            RelType::PeerToPeer,
        ),
{
    let line = joined(fields, seq!['|']);
    split_undoes_join(fields, '|');
    parse_undoes_format(a as nat, u32::MAX as nat);
    parse_undoes_format(b as nat, u32::MAX as nat);
    decimal_is_digits(a as nat);
    lemma_join_starts(fields, seq!['|']);
    assert(is_digit(fields[0][0]));
    assert(line[0] == fields[0][0]);
    reveal_strlit("-1");
    reveal_strlit("0");
    if fields[2] == "-1"@ {
        let d = fields[2].subrange(1, 2);
        assert(d =~= seq!['1']);
        assert(d.drop_last() =~= Seq::empty());
        assert(digits_value(d.drop_last()) == 0);
        assert(digits_value(d) == 1);
    }
    if fields[2] == "0"@ {
        let d = fields[2];
        assert(d =~= seq!['0']);
        assert(d.drop_last() =~= Seq::empty());
        assert(digits_value(d.drop_last()) == 0);
        assert(digits_value(d) == 0);
    }
}

proof fn lemma_join_starts(parts: Seq<Seq<char>>, sep: Seq<char>)
    requires
        parts.len() > 0,
        parts[0].len() > 0,
    ensures
        joined(parts, sep).len() > 0,
        joined(parts, sep)[0] == parts[0][0],
    decreases parts.len(),
{
    if parts.len() > 1 {
        lemma_join_starts(parts.drop_last(), sep);
    }
}

/// The edges of a table are those of its lines, in order; comments and lines that say none leave
/// none.
pub proof fn tables_give_the_edges_of_their_lines(lines: Seq<Seq<char>>, a: u32, b: u32, r: RelType)
    ensures
        table_edges(lines).contains((a, b, r)) <==> exists|i: int|
            0 <= i < lines.len() && rel_line(#[trigger] lines[i]) == RelLine::Edge(a, b, r),
        forall|i: int|
            0 <= i < lines.len() && (#[trigger] lines[i]).len() > 0 && lines[i][0] == '#'
                ==> rel_line(lines[i]) == RelLine::Comment,
    decreases lines.len(),
{
    if lines.len() > 0 {
        let rest = lines.drop_last();
        tables_give_the_edges_of_their_lines(rest, a, b, r);
        if let RelLine::Edge(x, y, z) = rel_line(lines.last()) {
            lemma_seq_contains_after_push(table_edges(rest), (x, y, z), (a, b, r));
        }
        if exists|i: int|
            0 <= i < rest.len() && rel_line(#[trigger] rest[i]) == RelLine::Edge(a, b, r) {
            let i = choose|i: int|
                0 <= i < rest.len() && rel_line(#[trigger] rest[i]) == RelLine::Edge(a, b, r);
            assert(lines[i] == rest[i]);
        }
        if exists|i: int|
            0 <= i < lines.len() && rel_line(#[trigger] lines[i]) == RelLine::Edge(a, b, r) {
            let i = choose|i: int|
                0 <= i < lines.len() && rel_line(#[trigger] lines[i]) == RelLine::Edge(a, b, r);
            if i < rest.len() {
                assert(rest[i] == lines[i]);
            }
        }
    }
}

/// An alert names each reason that there is, the authorizations' before the path's, and nothing
/// else gives one.
pub proof fn alerts_name_their_reasons(rpki: RpkiState, path: PathVerdict)
    ensures
        joined(alert_reasons(rpki, path), ","@) == (if rpki == RpkiState::Invalid && path
            == PathVerdict::LeakSuspected {
            "rpki_invalid"@ + ","@ + "valley_free_violation"@
        } else if rpki == RpkiState::Invalid {
            "rpki_invalid"@
        } else if path == PathVerdict::LeakSuspected {
            "valley_free_violation"@
        } else {
            Seq::empty()
        }),
        alert_reasons(rpki, path).len() > 0 <==> rpki == RpkiState::Invalid || path
            == PathVerdict::LeakSuspected,
{
    let r = alert_reasons(rpki, path);
    if rpki == RpkiState::Invalid && path == PathVerdict::LeakSuspected {
        assert(r.drop_last() =~= seq!["rpki_invalid"@]);
        assert(joined(r.drop_last(), ","@) == "rpki_invalid"@);
    } else if r.len() == 1 {
        assert(joined(r, ","@) =~= r[0]);
    }
}

/// Verdicts go by these names.
pub proof fn verdicts_have_names()
    ensures
        verdict_name(PathVerdict::ValleyFree) == "valley_free"@,
        verdict_name(PathVerdict::LeakSuspected) == "leak_suspected"@,
        verdict_name(PathVerdict::Incomplete) == "incomplete"@,
        verdict_name(PathVerdict::TooShort) == "too_short"@,
{
}

/// The columns say of each alert what it says: time, prefix, origin, path, peer, collector, state,
/// verdict, suspicion and reasons.
pub proof fn columns_say_what_alerts_say(cols: AlertColumns, i: int, a: Alert)
    requires
        cols.row_says(i, a),
    ensures
        cols.timestamps@[i]@ == rfc3339_text(a.timestamp.secs as int, a.timestamp.nanos as int),
        cols.prefixes@[i]@ == a.prefix@,
        cols.origin_asns@[i] == a.origin_asn,
        cols.as_paths@[i]@ == a.as_path@,
        cols.peer_asns@[i] == a.peer_asn,
        opt_text(cols.collectors@[i]) == opt_text(a.collector),
        cols.rpki_states@[i]@ == state_name(a.rpki_state),
        cols.path_verdicts@[i]@ == verdict_name(a.path_verdict),
        cols.leaks@[i] == a.leak_suspected,
        cols.reasons@[i]@ == a.reason@,
        a.has_reason() <==> a.rpki_state == RpkiState::Invalid || a.leak_suspected,
        state_name(RpkiState::Valid) == "valid"@,
        state_name(RpkiState::Invalid) == "invalid"@,
        state_name(RpkiState::Unknown) == "unknown"@,
{
}

/// A code other than `-1` and `0` is refused.
pub proof fn other_codes_are_refused(fields: Seq<Seq<char>>, a: u32, b: u32, n: nat)
    requires
        fields.len() >= 3,
        forall|i: int| 0 <= i < fields.len() ==> !(#[trigger] fields[i]).contains('|'),
        fields[0] == decimal(a as nat),
        fields[1] == decimal(b as nat),
    ensures
        n > 0 && fields[2] == decimal(n) ==> rel_line(joined(fields, seq!['|'])) == RelLine::Bad,
        n > 1 && fields[2] == seq!['-'] + decimal(n) ==> rel_line(joined(fields, seq!['|']))
            == RelLine::Bad,
{
    let line = joined(fields, seq!['|']);
    split_undoes_join(fields, '|');
    parse_undoes_format(a as nat, u32::MAX as nat);
    parse_undoes_format(b as nat, u32::MAX as nat);
    decimal_is_digits(a as nat);
    decimal_is_digits(n);
    lemma_join_starts(fields, seq!['|']);
    assert(is_digit(fields[0][0]));
    assert(line[0] == fields[0][0]);
    parse_undoes_format(n, n);
    let d = decimal(n);
    assert(is_digit(d[0]));
    if fields[2] == seq!['-'] + d {
        assert(fields[2].subrange(1, fields[2].len() as int) =~= d);
        assert(fields[2][0] == '-');
    }
    assert(crate::text::without_plus(d) == d);
}

} // verus!
