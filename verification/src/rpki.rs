//! Route origin validation.

use crate::prefix::{
    covers, key_covers, lemma_cover_within_shortest, net_covers, parse_prefix, parsed_prefix,
    shortest_cover, slot_in_shortest_cover, trie_exact, trie_insert, trie_matches, trie_new,
    trie_slots, Net, Prefix, PrefixKey,
};
use crate::text::{
    begins_with, decimal, decimal_is_digits, is_digit, lowered, number_in, parse_u32, parse_u8,
    parse_undoes_format, replace_char, replaced, same_text, starts_with_char, texts,
    to_ascii_lower, trim, trim_leading, trimmed, trimming_takes_blanks_off_the_ends,
    without_leading,
};
use ipnet_trie::IpnetTrie;
use vstd::prelude::*;
use vstd::seq_lib::lemma_seq_contains_after_push;

verus! {

/// Outcome of route origin validation for a prefix and an origin.
#[derive(Clone, Copy, Debug, PartialEq, Eq, Hash, Structural)]
pub enum RpkiState {
    Valid,
    Invalid,
    Unknown,
}

impl Default for RpkiState {
    fn default() -> (r: Self)
        ensures
            r == RpkiState::Unknown,
    {
        RpkiState::Unknown
    }
}

/// The name of a validation outcome.
pub open spec fn state_name(s: RpkiState) -> Seq<char> {
    match s {
        RpkiState::Valid => "valid"@,
        RpkiState::Invalid => "invalid"@,
        RpkiState::Unknown => "unknown"@,
    }
}

impl RpkiState {
    /// The name of the outcome.
    pub fn name(&self) -> (r: &'static str)
        ensures
            r@ == state_name(*self),
    {
        match self {
            RpkiState::Valid => "valid",
            RpkiState::Invalid => "invalid",
            RpkiState::Unknown => "unknown",
        }
    }
}

/// A route origin authorization.
#[derive(Clone, Copy, Debug, PartialEq, Eq, Structural)]
pub struct Roa {
    pub prefix: Prefix,
    pub max_length: u8,
    pub origin_asn: u32,
}

/// What an authorization says.
pub struct RoaView {
    pub net: Net,
    pub max_length: u8,
    pub origin_asn: u32,
}

impl View for Roa {
    type V = RoaView;

    open spec fn view(&self) -> RoaView {
        RoaView {
            net: self.prefix.net(),
            max_length: self.max_length,
            origin_asn: self.origin_asn,
        }
    }
}

/// The authorization covers the prefix.
pub open spec fn roa_covers(roa: RoaView, p: Net) -> bool {
    net_covers(roa.net, p)
}

/// The authorization lets `origin` announce the prefix.
pub open spec fn roa_authorizes(roa: RoaView, p: Net, origin: u32) -> bool {
    &&& roa_covers(roa, p)
    &&& roa.origin_asn == origin
    &&& p.length() <= roa.max_length
}

/// The outcome for a prefix and an origin: valid where an authorization lets the origin announce
/// it, invalid where authorizations cover it and none does, unknown where none covers it.
pub open spec fn rov(roas: Seq<RoaView>, p: Net, origin: u32) -> RpkiState {
    if exists|i: int| 0 <= i < roas.len() && roa_authorizes(#[trigger] roas[i], p, origin) {
        RpkiState::Valid
    } else if exists|i: int| 0 <= i < roas.len() && roa_covers(#[trigger] roas[i], p) {
        RpkiState::Invalid
    } else {
        RpkiState::Unknown
    }
}

/// The authorizations of one prefix.
pub struct RoaSet {
    pub entries: Vec<Roa>,
}

/// Authorizations by prefix.
pub struct RoasTrie {
    trie: IpnetTrie<usize>,
    sets: Vec<RoaSet>,
    count: usize,
    log: Ghost<Seq<RoaView>>,
}

impl RoasTrie {
    /// The authorizations, in the order in which they came.
    pub closed spec fn roas(&self) -> Seq<RoaView> {
        self.log@
    }

    /// The trie numbers the sets; a set holds just the authorizations of its prefix.
    pub closed spec fn wf(&self) -> bool {
        &&& self.count == self.log@.len()
        &&& forall|k: PrefixKey| #[trigger]
            trie_slots(self.trie).contains_key(k) ==> trie_slots(self.trie)[k] < self.sets@.len()
                && self.sets@[trie_slots(self.trie)[k] as int].entries@.len() > 0
                && self.sets@[trie_slots(self.trie)[k] as int].entries@[0].prefix.key() == k
        &&& forall|i: int|
            0 <= i < self.sets@.len() ==> (#[trigger] self.sets@[i]).entries@.len() > 0
                && trie_slots(self.trie).contains_key(self.sets@[i].entries@[0].prefix.key())
                && trie_slots(self.trie)[self.sets@[i].entries@[0].prefix.key()] == i
        &&& forall|i: int, j: int|
            0 <= i < self.sets@.len() && 0 <= j < self.sets@[i].entries@.len()
                ==> (#[trigger] self.sets@[i].entries@[j]).prefix.key()
                == self.sets@[i].entries@[0].prefix.key() && self.log@.contains(
                self.sets@[i].entries@[j]@,
            )
        &&& forall|n: int|
            0 <= n < self.log@.len() ==> self.holds(#[trigger] self.log@[n])
    }

    /// Some set holds the authorization.
    closed spec fn holds(&self, roa: RoaView) -> bool {
        exists|i: int, j: int|
            0 <= i < self.sets@.len() && 0 <= j < self.sets@[i].entries@.len() && (
            #[trigger] self.sets@[i].entries@[j])@ == roa
    }

    /// A trie without authorizations.
    pub fn new() -> (r: Self)
        ensures
            r.wf(),
            r.roas() == Seq::<RoaView>::empty(),
    {
        RoasTrie { trie: trie_new(), sets: Vec::new(), count: 0, log: Ghost(Seq::empty()) }
    }

    /// The number of authorizations.
    pub fn len(&self) -> (r: usize)
        requires
            self.wf(),
        ensures
            r == self.roas().len(),
    {
        self.count
    }

    /// Tells whether there is no authorization.
    pub fn is_empty(&self) -> (r: bool)
        requires
            self.wf(),
        ensures
            r == (self.roas().len() == 0),
    {
        self.count == 0
    }

    /// Adds an authorization.
    pub fn insert(&mut self, roa: Roa)
        requires
            old(self).wf(),
            old(self).roas().len() < usize::MAX,
        ensures
            final(self).wf(),
            final(self).roas() == old(self).roas().push(roa@),
    {
        let ghost before = *self;
        let net = roa.prefix.parts();
        let ghost key = roa.prefix.key();
        match trie_exact(&self.trie, net) {
            Some(i) => {
                self.sets[i].entries.push(roa);
                self.log = Ghost(self.log@.push(roa@));
                self.count = self.count + 1;
                proof {
                    let e0 = before.sets@[i as int].entries@;
                    assert(self.sets@[i as int].entries@ == e0.push(roa));
                    assert(forall|m: int|
                        0 <= m < self.sets@.len() && m != i ==> #[trigger] self.sets@[m]
                            == before.sets@[m]);
                    assert(self.sets@[i as int].entries@[0] == e0[0]);
                    assert forall|m: int, j: int|
                        0 <= m < self.sets@.len() && 0 <= j < self.sets@[m].entries@.len() implies (
                    #[trigger] self.sets@[m].entries@[j]).prefix.key()
                        == self.sets@[m].entries@[0].prefix.key() && self.log@.contains(
                        self.sets@[m].entries@[j]@,
                    ) by {
                        if m == i && j == e0.len() {
                            assert(self.log@[before.log@.len() as int] == roa@);
                        } else {
                            assert(self.sets@[m].entries@[j] == before.sets@[m].entries@[j]);
                            let n = choose|n: int|
                                0 <= n < before.log@.len() && before.log@[n]
                                    == before.sets@[m].entries@[j]@;
                            assert(self.log@[n] == before.log@[n]);
                        }
                    }
                    assert forall|n: int| 0 <= n < self.log@.len() implies self.holds(
                        #[trigger] self.log@[n],
                    ) by {
                        if n == before.log@.len() {
                            assert(self.sets@[i as int].entries@[e0.len() as int]@ == roa@);
                        } else {
                            assert(before.holds(before.log@[n]));
                            let (m, j) = choose|m: int, j: int|
                                0 <= m < before.sets@.len() && 0 <= j
                                    < before.sets@[m].entries@.len() && (
                                #[trigger] before.sets@[m].entries@[j])@ == before.log@[n];
                            assert(self.sets@[m].entries@[j]@ == self.log@[n]);
                        }
                    }
                }
            },
            None => {
                let mut entries: Vec<Roa> = Vec::new();
                entries.push(roa);
                let n: usize = self.sets.len();
                self.sets.push(RoaSet { entries });
                trie_insert(&mut self.trie, net, n);
                self.log = Ghost(self.log@.push(roa@));
                self.count = self.count + 1;
                proof {
                    assert(self.sets@[n as int].entries@[0] == roa);
                    assert(forall|m: int|
                        0 <= m < n ==> #[trigger] self.sets@[m] == before.sets@[m]);
                    assert forall|k: PrefixKey| #[trigger]
                        trie_slots(self.trie).contains_key(k) implies trie_slots(self.trie)[k]
                        < self.sets@.len() && self.sets@[trie_slots(
                        self.trie,
                    )[k] as int].entries@.len() > 0 && self.sets@[trie_slots(
                        self.trie,
                    )[k] as int].entries@[0].prefix.key() == k by {
                        if k != key {
                            assert(trie_slots(before.trie).contains_key(k));
                        }
                    }
                    assert forall|m: int| 0 <= m < self.sets@.len() implies (
                    #[trigger] self.sets@[m]).entries@.len() > 0 && trie_slots(
                        self.trie,
                    ).contains_key(self.sets@[m].entries@[0].prefix.key()) && trie_slots(
                        self.trie,
                    )[self.sets@[m].entries@[0].prefix.key()] == m by {
                        if m < n {
                            assert(self.sets@[m] == before.sets@[m]);
                            assert(trie_slots(before.trie).contains_key(
                                before.sets@[m].entries@[0].prefix.key(),
                            ));
                        }
                    }
                    assert forall|m: int, j: int|
                        0 <= m < self.sets@.len() && 0 <= j < self.sets@[m].entries@.len() implies (
                    #[trigger] self.sets@[m].entries@[j]).prefix.key()
                        == self.sets@[m].entries@[0].prefix.key() && self.log@.contains(
                        self.sets@[m].entries@[j]@,
                    ) by {
                        if m == n {
                            assert(self.log@[before.log@.len() as int] == roa@);
                        } else {
                            assert(self.sets@[m].entries@[j] == before.sets@[m].entries@[j]);
                            let q = choose|q: int|
                                0 <= q < before.log@.len() && before.log@[q]
                                    == before.sets@[m].entries@[j]@;
                            assert(self.log@[q] == before.log@[q]);
                        }
                    }
                    assert forall|q: int| 0 <= q < self.log@.len() implies self.holds(
                        #[trigger] self.log@[q],
                    ) by {
                        if q == before.log@.len() {
                            assert(self.sets@[n as int].entries@[0]@ == roa@);
                        } else {
                            assert(before.holds(before.log@[q]));
                            let (m, j) = choose|m: int, j: int|
                                0 <= m < before.sets@.len() && 0 <= j
                                    < before.sets@[m].entries@.len() && (
                                #[trigger] before.sets@[m].entries@[j])@ == before.log@[q];
                            assert(self.sets@[m].entries@[j]@ == self.log@[q]);
                        }
                    }
                }
            },
        }
    }

    /// The outcome for a prefix announced by `origin_asn`.
    pub fn validate(&self, prefix: Prefix, origin_asn: u32) -> (r: RpkiState)
        requires
            self.wf(),
        ensures
            r == rov(self.roas(), prefix.net(), origin_asn),
    {
        let net = prefix.parts();
        let found = trie_matches(&self.trie, net);
        let ghost slots = trie_slots(self.trie);
        let mut saw_covering = false;
        let mut n: usize = 0;
        while n < found.len()
            invariant
                self.wf(),
                slots == trie_slots(self.trie),
                net == prefix.net(),
                net.wf(),
                n <= found.len(),
                forall|i: usize| #[trigger]
                    found@.contains(i) <==> slot_in_shortest_cover(slots, net, i),
                saw_covering <==> exists|m: int|
                    0 <= m < n && net_covers(
                        self.sets@[(#[trigger] found@[m]) as int].entries@[0]@.net,
                        net,
                    ),
                forall|m: int, j: int|
                    0 <= m < n && 0 <= j < self.sets@[found@[m] as int].entries@.len()
                        ==> !roa_authorizes(
                        (#[trigger] self.sets@[found@[m] as int].entries@[j])@,
                        net,
                        origin_asn,
                    ),
            decreases found.len() - n,
        {
            let slot: usize = found[n];
            proof {
                assert(found@.contains(slot));
                let (s, k) = choose|s: PrefixKey, k: PrefixKey|
                    #![trigger shortest_cover(slots, net, s), crate::prefix::key_within(k, s)]
                    shortest_cover(slots, net, s) && crate::prefix::key_within(k, s)
                        && slots.contains_key(k) && slots[k] == slot;
                assert(slots.contains_key(k));
            }
            let set = &self.sets[slot];
            if covers(set.entries[0].prefix, prefix) {
                saw_covering = true;
                let mut j: usize = 0;
                while j < set.entries.len()
                    invariant
                        self.wf(),
                        net == prefix.net(),
                        slot < self.sets@.len(),
                        *set == self.sets@[slot as int],
                        j <= set.entries@.len(),
                        forall|q: int|
                            0 <= q < j ==> !roa_authorizes(
                                (#[trigger] set.entries@[q])@,
                                net,
                                origin_asn,
                            ),
                    decreases set.entries.len() - j,
                {
                    let roa = &set.entries[j];
                    if roa.origin_asn == origin_asn && prefix.prefix_len()
                        >= roa.prefix.prefix_len() && prefix.prefix_len() <= roa.max_length
                        && covers(roa.prefix, prefix) {
                        proof {
                            assert(self.sets@[slot as int].entries@[j as int]@ == roa@);
                            assert(self.log@.contains(roa@));
                            let q = choose|q: int| 0 <= q < self.log@.len() && self.log@[q] == roa@;
                            assert(roa_authorizes(self.roas()[q], net, origin_asn));
                        }
                        return RpkiState::Valid;
                    }
                    j += 1;
                }
                proof {
                    assert(net_covers(
                        self.sets@[found@[n as int] as int].entries@[0]@.net,
                        net,
                    ));
                }
            } else {
                proof {
                    // Every authorization of the set has the key of the first one.
                    assert forall|j: int|
                        0 <= j < set.entries@.len() implies !roa_authorizes(
                        (#[trigger] set.entries@[j])@,
                        net,
                        origin_asn,
                    ) by {
                        assert(self.sets@[slot as int].entries@[j].prefix.key()
                            == self.sets@[slot as int].entries@[0].prefix.key());
                    }
                }
            }
            proof {
                assert forall|m: int, j: int|
                    0 <= m < n + 1 && 0 <= j < self.sets@[found@[m] as int].entries@.len() implies
                    !roa_authorizes(
                    (#[trigger] self.sets@[found@[m] as int].entries@[j])@,
                    net,
                    origin_asn,
                ) by {
                    if m == n {
                        assert(self.sets@[found@[m] as int].entries@[j] == set.entries@[j]);
                    }
                }
            }
            n += 1;
        }
        proof {
            let roas = self.roas();
            // A covering authorization stands in one of the sets that were looked at.
            assert forall|q: int| 0 <= q < roas.len() && roa_covers(#[trigger] roas[q], net) implies
                exists|m: int, j: int|
                    0 <= m < found@.len() && 0 <= j < self.sets@[found@[m] as int].entries@.len()
                        && (#[trigger] self.sets@[found@[m] as int].entries@[j])@ == roas[q] by {
                assert(self.holds(self.log@[q]));
                let (i, j) = choose|i: int, j: int|
                    0 <= i < self.sets@.len() && 0 <= j < self.sets@[i].entries@.len() && (
                    #[trigger] self.sets@[i].entries@[j])@ == roas[q];
                let k = self.sets@[i].entries@[0].prefix.key();
                assert(self.sets@[i].entries@[j].prefix.key() == k);
                assert(slots.contains_key(k) && slots[k] == i) by {
                    assert(self.sets@[i].entries@.len() > 0);
                }
                assert(key_covers(k, net));
                lemma_shortest_cover_exists(slots, net, k);
                let s = choose|s: PrefixKey| shortest_cover(slots, net, s);
                lemma_cover_within_shortest(slots, net, s, k);
                assert(slot_in_shortest_cover(slots, net, i as usize));
                assert(found@.contains(i as usize));
                let m = choose|m: int| 0 <= m < found@.len() && found@[m] == i as usize;
                assert(self.sets@[found@[m] as int].entries@[j]@ == roas[q]);
            }
            if saw_covering {
                let m = choose|m: int|
                    0 <= m < n && net_covers(
                        self.sets@[(#[trigger] found@[m]) as int].entries@[0]@.net,
                        net,
                    );
                assert(found@.contains(found@[m]));
                assert(slot_in_shortest_cover(slots, net, found@[m]));
                let i = found@[m] as int;
                let (s, k) = choose|s: PrefixKey, k: PrefixKey|
                    #![trigger shortest_cover(slots, net, s), crate::prefix::key_within(k, s)]
                    shortest_cover(slots, net, s) && crate::prefix::key_within(k, s)
                        && slots.contains_key(k) && slots[k] == found@[m];
                assert(slots.contains_key(k));
                assert(self.log@.contains(self.sets@[i].entries@[0]@));
                let q = choose|q: int|
                    0 <= q < self.log@.len() && self.log@[q] == self.sets@[i].entries@[0]@;
                assert(roa_covers(roas[q], net));
            } else {
                assert forall|q: int| 0 <= q < roas.len() implies !roa_covers(
                    #[trigger] roas[q],
                    net,
                ) by {
                    if roa_covers(roas[q], net) {
                        let (m, j) = choose|m: int, j: int|
                            0 <= m < found@.len() && 0 <= j < self.sets@[found@[m] as int].entries@.len()
                                && (#[trigger] self.sets@[found@[m] as int].entries@[j])@ == roas[q];
                        assert(found@.contains(found@[m]));
                        let i = found@[m] as int;
                        assert(slot_in_shortest_cover(slots, net, found@[m]));
                        let (s, k) = choose|s: PrefixKey, k: PrefixKey|
                            #![trigger shortest_cover(slots, net, s), crate::prefix::key_within(k, s)]
                            shortest_cover(slots, net, s) && crate::prefix::key_within(k, s)
                                && slots.contains_key(k) && slots[k] == found@[m];
                        assert(slots.contains_key(k));
                        assert(self.sets@[i].entries@[j].prefix.key()
                            == self.sets@[i].entries@[0].prefix.key());
                        assert(net_covers(self.sets@[found@[m] as int].entries@[0]@.net, net));
                    }
                }
            }
        }
        if saw_covering {
            RpkiState::Invalid
        } else {
            RpkiState::Unknown
        }
    }
}

/// Where a key covers a prefix, there is a shortest one that does.
proof fn lemma_shortest_cover_exists(slots: Map<PrefixKey, usize>, net: Net, k: PrefixKey)
    requires
        slots.contains_key(k),
        key_covers(k, net),
    ensures
        exists|s: PrefixKey| shortest_cover(slots, net, s),
    decreases k.2,
{
    if exists|o: PrefixKey| #[trigger] slots.contains_key(o) && key_covers(o, net) && o.2 < k.2 {
        let o = choose|o: PrefixKey| #[trigger]
            slots.contains_key(o) && key_covers(o, net) && o.2 < k.2;
        lemma_shortest_cover_exists(slots, net, o);
    } else {
        assert(shortest_cover(slots, net, k));
    }
}

/// A further authorization never turns a valid announcement invalid, nor a covered one unknown.
pub proof fn rov_monotone(roas: Seq<RoaView>, more: RoaView, p: Net, origin: u32)
    ensures
        rov(roas, p, origin) == RpkiState::Valid ==> rov(roas.push(more), p, origin)
            == RpkiState::Valid,
        rov(roas, p, origin) != RpkiState::Unknown ==> rov(roas.push(more), p, origin)
            != RpkiState::Unknown,
        !roa_covers(more, p) ==> rov(roas.push(more), p, origin) == rov(roas, p, origin),
{
    let all = roas.push(more);
    assert forall|i: int| 0 <= i < roas.len() implies #[trigger] roas[i] == all[i] by {}
    if exists|i: int| 0 <= i < roas.len() && roa_authorizes(#[trigger] roas[i], p, origin) {
        let i = choose|i: int|
            0 <= i < roas.len() && roa_authorizes(#[trigger] roas[i], p, origin);
        assert(roa_authorizes(all[i], p, origin));
    }
    if exists|i: int| 0 <= i < roas.len() && roa_covers(#[trigger] roas[i], p) {
        let i = choose|i: int| 0 <= i < roas.len() && roa_covers(#[trigger] roas[i], p);
        assert(roa_covers(all[i], p));
    }
    if !roa_covers(more, p) {
        if exists|i: int| 0 <= i < all.len() && roa_authorizes(#[trigger] all[i], p, origin) {
            let i = choose|i: int|
                0 <= i < all.len() && roa_authorizes(#[trigger] all[i], p, origin);
            assert(roa_authorizes(roas[i], p, origin));
        }
        if exists|i: int| 0 <= i < all.len() && roa_covers(#[trigger] all[i], p) {
            let i = choose|i: int| 0 <= i < all.len() && roa_covers(#[trigger] all[i], p);
            assert(roa_covers(roas[i], p));
        }
    }
}


// ---- ROA tables ----

/// The part of a row that could not be read.
#[derive(Clone, Copy, Debug, PartialEq, Eq, Structural)]
pub enum RowFault {
    Asn,
    Prefix,
    MaxLength,
}

/// What keeps a ROA table from being loaded. Records count from 1, the header row among them.
#[derive(Debug)]
pub enum RpkiError {
    /// The source could not be opened.
    Open { path: String, source: String },
    /// The header row is not text.
    Headers,
    /// No columns for origin, prefix and maximum length.
    Columns { headers: Vec<String> },
    /// A record is not text.
    Record { record: usize },
    /// More records than can be counted.
    TooLong,
    /// A record does not hold an authorization.
    InvalidRow { record: usize, fault: RowFault },
}

/// The header row of a CSV document.
pub uninterp spec fn csv_header(data: Seq<u8>) -> Option<Seq<Seq<char>>>;

/// The rows of a CSV document behind its header; `None` for a row that is not text.
pub uninterp spec fn csv_rows(data: Seq<u8>) -> Seq<Option<Seq<Seq<char>>>>;

/// The fields of each row.
pub open spec fn row_texts(rows: Seq<Option<Vec<String>>>) -> Seq<Option<Seq<Seq<char>>>> {
    Seq::new(
        rows.len(),
        |i: int|
            match rows[i] {
                Some(v) => Some(texts(v@)),
                None => None,
            },
    )
}

/// The header as texts.
pub open spec fn header_texts(row: Option<Vec<String>>) -> Option<Seq<Seq<char>>> {
    match row {
        Some(v) => Some(texts(v@)),
        None => None,
    }
}

/// `csv::Reader::headers`, of a flexible reader with a header row: the fields of the first row
/// depend on the document alone. They are missing where the row is not UTF-8.
#[verifier::external_body]
fn csv_read_header(data: &[u8]) -> (r: Option<Vec<String>>)
    ensures
        header_texts(r) == csv_header(data@),
{
    let mut rdr = csv::ReaderBuilder::new().flexible(true).has_headers(true).from_reader(data);
    rdr.headers().ok().map(|h| h.iter().map(String::from).collect())
}

/// `csv::Reader::records`, of a flexible reader with a header row: the fields of each row behind
/// the first depend on the document alone. Those of a row that is not UTF-8 are missing.
#[verifier::external_body]
fn csv_read_rows(data: &[u8]) -> (r: Vec<Option<Vec<String>>>)
    ensures
        row_texts(r@) == csv_rows(data@),
{
    let mut rdr = csv::ReaderBuilder::new().flexible(true).has_headers(true).from_reader(data);
    rdr.records().map(|row| row.ok().map(|f| f.iter().map(String::from).collect())).collect()
}

/// The names of the origin column.
pub open spec fn asn_names() -> Seq<Seq<char>> {
    seq!["asn"@, "as"@, "origin"@, "origin asn"@, "origin_asn"@]
}

/// The names of the prefix column.
pub open spec fn prefix_names() -> Seq<Seq<char>> {
    seq!["ip prefix"@, "prefix"@, "ip_prefix"@, "ipprefix"@]
}

/// The names of the maximum length column.
pub open spec fn max_length_names() -> Seq<Seq<char>> {
    seq!["max length"@, "maxlen"@, "max_length"@, "maxlength"@, "max len"@]
}

/// A header is one of the names, as it stands or with blanks for underscores.
pub open spec fn names_column(header: Seq<char>, names: Seq<Seq<char>>) -> bool {
    names.contains(header) || names.contains(replaced(header, '_', ' '))
}

/// The first column from `i` on that one of the names stands for.
pub open spec fn column_from(
    headers: Seq<Seq<char>>,
    names: Seq<Seq<char>>,
    i: int,
) -> Option<int>
    decreases headers.len() - i,
{
    if i < 0 || i >= headers.len() {
        None
    } else if names_column(headers[i], names) {
        Some(i)
    } else {
        column_from(headers, names, i + 1)
    }
}

/// Where a table keeps origin, prefix and maximum length, and whether its first row is data.
#[derive(Clone, Copy, Debug, PartialEq, Eq, Structural)]
pub struct Columns {
    pub asn: usize,
    pub prefix: usize,
    pub max_length: usize,
    pub headerless: bool,
}

/// The columns of a table with this header row: named ones, or else the first three of a row
/// that starts with an origin and a prefix.
pub open spec fn columns_of(headers: Seq<Seq<char>>) -> Option<(int, int, int, bool)> {
    match (
        column_from(headers, asn_names(), 0),
        column_from(headers, prefix_names(), 0),
        column_from(headers, max_length_names(), 0),
    ) {
        (Some(a), Some(p), Some(m)) => Some((a, p, m, false)),
        _ => if headers.len() >= 3 && number_in(headers[0], u32::MAX as nat) is Some
            && parsed_prefix(headers[1]) is Some {
            Some((0, 1, 2, true))
        } else {
            None
        },
    }
}

fn is_named(header: &str, names: &[&str]) -> (r: bool)
    ensures
        r == names_column(header@, Seq::new(names@.len(), |i: int| names@[i]@)),
{
    let spaced = replace_char(header, '_', ' ');
    let ghost all = Seq::new(names@.len(), |i: int| names@[i]@);
    let mut i: usize = 0;
    while i < names.len()
        invariant
            i <= names.len(),
            spaced@ == replaced(header@, '_', ' '),
            all == Seq::new(names@.len(), |i: int| names@[i]@),
            forall|k: int| 0 <= k < i ==> (#[trigger] all[k]) != header@ && all[k] != spaced@,
        decreases names.len() - i,
    {
        if same_text(header, names[i]) || same_text(spaced.as_str(), names[i]) {
            assert(all[i as int] == names@[i as int]@);
            return true;
        }
        i += 1;
    }
    false
}

fn find_column(headers: &[String], names: &[&str]) -> (r: Option<usize>)
    ensures
        match r {
            Some(i) => i < headers@.len() && column_from(
                texts(headers@),
                Seq::new(names@.len(), |k: int| names@[k]@),
                0,
            ) == Some(i as int),
            None => column_from(
                texts(headers@),
                Seq::new(names@.len(), |k: int| names@[k]@),
                0,
            ) is None,
        },
{
    let ghost all = Seq::new(names@.len(), |k: int| names@[k]@);
    let mut i: usize = 0;
    while i < headers.len()
        invariant
            i <= headers.len(),
            all == Seq::new(names@.len(), |k: int| names@[k]@),
            column_from(texts(headers@), all, i as int) == column_from(texts(headers@), all, 0),
        decreases headers.len() - i,
    {
        if is_named(headers[i].as_str(), names) {
            assert(texts(headers@)[i as int] == headers@[i as int]@);
            return Some(i);
        }
        assert(texts(headers@)[i as int] == headers@[i as int]@);
        i += 1;
    }
    None
}

/// Finds the columns of a table by its header row.
pub fn resolve_columns(headers: &[String]) -> (r: Option<Columns>)
    ensures
        match r {
            Some(c) => columns_of(texts(headers@)) == Some(
                (c.asn as int, c.prefix as int, c.max_length as int, c.headerless),
            ),
            None => columns_of(texts(headers@)) is None,
        },
{
    let asn: Vec<&str> = vec!["asn", "as", "origin", "origin asn", "origin_asn"];
    let prefix: Vec<&str> = vec!["ip prefix", "prefix", "ip_prefix", "ipprefix"];
    let max_length: Vec<&str> = vec!["max length", "maxlen", "max_length", "maxlength", "max len"];
    proof {
        assert(Seq::new(asn@.len(), |k: int| asn@[k]@) =~= asn_names());
        assert(Seq::new(prefix@.len(), |k: int| prefix@[k]@) =~= prefix_names());
        assert(Seq::new(max_length@.len(), |k: int| max_length@[k]@) =~= max_length_names());
    }
    match (find_column(headers, &asn), find_column(headers, &prefix), find_column(
        headers,
        &max_length,
    )) {
        (Some(a), Some(p), Some(m)) => Some(
            Columns { asn: a, prefix: p, max_length: m, headerless: false },
        ),
        _ => {
            if headers.len() >= 3 {
                proof {
                    assert(texts(headers@)[0] == headers@[0]@);
                    assert(texts(headers@)[1] == headers@[1]@);
                }
                if parse_u32(headers[0].as_str()).is_some() && parse_prefix(
                    headers[1].as_str(),
                ).is_some() {
                    return Some(Columns { asn: 0, prefix: 1, max_length: 2, headerless: true });
                }
            }
            None
        },
    }
}

/// The origin that a text spells, behind any `AS` and then any `as`.
pub open spec fn asn_of_text(raw: Seq<char>) -> Option<nat> {
    number_in(without_leading(without_leading(trimmed(raw), "AS"@), "as"@), u32::MAX as nat)
}

/// Reads an origin.
pub fn parse_asn(raw: &str) -> (r: Option<u32>)
    ensures
        match r {
            Some(n) => asn_of_text(raw@) == Some(n as nat),
            None => asn_of_text(raw@) is None,
        },
{
    let t = trim(raw);
    let upper = trim_leading(t.as_str(), "AS");
    let rest = trim_leading(upper.as_str(), "as");
    parse_u32(rest.as_str())
}

/// What a row holds: nothing, an authorization, or a part that cannot be read.
pub enum RowMeaning {
    Skipped,
    Authorizes(RoaView),
    Faulty(RowFault),
}

/// The meaning of a row. A row too short for the columns, or whose origin is empty or a comment,
/// is skipped.
pub open spec fn row_meaning(fields: Seq<Seq<char>>, asn: int, prefix: int, max_length: int) -> RowMeaning {
    if fields.len() <= asn || fields.len() <= prefix || fields.len() <= max_length {
        RowMeaning::Skipped
    } else {
        let raw = trimmed(fields[asn]);
        if raw.len() == 0 || raw[0] == '#' {
            RowMeaning::Skipped
        } else {
            match (
                asn_of_text(raw),
                parsed_prefix(trimmed(fields[prefix])),
                number_in(trimmed(fields[max_length]), u8::MAX as nat),
            ) {
                (None, _, _) => RowMeaning::Faulty(RowFault::Asn),
                (Some(_), None, _) => RowMeaning::Faulty(RowFault::Prefix),
                (Some(_), Some(_), None) => RowMeaning::Faulty(RowFault::MaxLength),
                (Some(a), Some(net), Some(m)) => RowMeaning::Authorizes(
                    RoaView { net, max_length: m as u8, origin_asn: a as u32 },
                ),
            }
        }
    }
}

/// Reads a row.
pub fn row_from_fields(
    fields: &[String],
    asn_idx: usize,
    prefix_idx: usize,
    maxlen_idx: usize,
) -> (r: Result<Option<Roa>, RowFault>)
    ensures
        row_meaning(texts(fields@), asn_idx as int, prefix_idx as int, maxlen_idx as int) == (match r {
            Ok(None) => RowMeaning::Skipped,
            Ok(Some(roa)) => RowMeaning::Authorizes(roa@),
            Err(f) => RowMeaning::Faulty(f),
        }),
{
    if fields.len() <= asn_idx || fields.len() <= prefix_idx || fields.len() <= maxlen_idx {
        return Ok(None);
    }
    proof {
        assert(texts(fields@)[asn_idx as int] == fields@[asn_idx as int]@);
        assert(texts(fields@)[prefix_idx as int] == fields@[prefix_idx as int]@);
        assert(texts(fields@)[maxlen_idx as int] == fields@[maxlen_idx as int]@);
    }
    let asn_raw = trim(fields[asn_idx].as_str());
    if asn_raw.as_str().is_empty() || starts_with_char(asn_raw.as_str(), '#') {
        return Ok(None);
    }
    let origin_asn: u32 = match parse_asn(asn_raw.as_str()) {
        Some(a) => a,
        None => return Err(RowFault::Asn),
    };
    let prefix = match parse_prefix(trim(fields[prefix_idx].as_str()).as_str()) {
        Some(p) => p,
        None => return Err(RowFault::Prefix),
    };
    let max_length: u8 = match parse_u8(trim(fields[maxlen_idx].as_str()).as_str()) {
        Some(m) => m,
        None => return Err(RowFault::MaxLength),
    };
    Ok(Some(Roa { prefix, max_length, origin_asn }))
}

/// Why a table is refused at a record.
pub enum TableFault {
    NotText(int),
    Row(int, RowFault),
}

/// The authorizations of a table's rows, the first of which is record `first`; or the first row
/// that cannot be read.
pub open spec fn table_roas(
    rows: Seq<Option<Seq<Seq<char>>>>,
    asn: int,
    prefix: int,
    max_length: int,
    first: int,
) -> Result<Seq<RoaView>, TableFault>
    decreases rows.len(),
{
    if rows.len() == 0 {
        Ok(Seq::empty())
    } else {
        match table_roas(rows.drop_last(), asn, prefix, max_length, first) {
            Err(f) => Err(f),
            Ok(roas) => {
                let record = first + rows.len() - 1;
                match rows.last() {
                    None => Err(TableFault::NotText(record)),
                    Some(fields) => match row_meaning(fields, asn, prefix, max_length) {
                        RowMeaning::Skipped => Ok(roas),
                        RowMeaning::Authorizes(roa) => Ok(roas.push(roa)),
                        RowMeaning::Faulty(f) => Err(TableFault::Row(record, f)),
                    },
                }
            },
        }
    }
}

proof fn lemma_table_fault_stays(
    rows: Seq<Option<Seq<Seq<char>>>>,
    n: int,
    asn: int,
    prefix: int,
    max_length: int,
    first: int,
)
    requires
        0 <= n <= rows.len(),
        table_roas(rows.subrange(0, n), asn, prefix, max_length, first) is Err,
    ensures
        table_roas(rows, asn, prefix, max_length, first) == table_roas(
            rows.subrange(0, n),
            asn,
            prefix,
            max_length,
            first,
        ),
    decreases rows.len() - n,
{
    if n == rows.len() {
        assert(rows.subrange(0, n) =~= rows);
    } else {
        assert(rows.subrange(0, n + 1).drop_last() =~= rows.subrange(0, n));
        lemma_table_fault_stays(rows, n + 1, asn, prefix, max_length, first);
    }
}

/// The header row as it is compared: without the blanks around, in lower case.
pub open spec fn plain_headers(headers: Seq<Seq<char>>) -> Seq<Seq<char>> {
    Seq::new(headers.len(), |i: int| lowered(trimmed(headers[i])))
}

/// What loading a table comes to: the authorizations, or why it is refused.
pub open spec fn is_load_outcome(
    header: Option<Seq<Seq<char>>>,
    rows: Seq<Option<Seq<Seq<char>>>>,
    r: Result<RoasTrie, RpkiError>,
) -> bool {
    match header {
        None => r matches Err(e) && e is Headers,
        Some(h) => {
            let plain = plain_headers(h);
            match columns_of(plain) {
                None => r matches Err(RpkiError::Columns { headers }) && texts(headers@) == plain,
                Some((a, p, m, headerless)) => {
                    let all = if headerless {
                        seq![Some(plain)] + rows
                    } else {
                        rows
                    };
                    let first = if headerless {
                        1int
                    } else {
                        2int
                    };
                    match table_roas(all, a, p, m, first) {
                        Ok(roas) => r matches Ok(t) && t.wf() && t.roas() == roas,
                        Err(TableFault::NotText(n)) => r matches Err(RpkiError::Record { record })
                            && record == n,
                        Err(TableFault::Row(n, f)) => r matches Err(
                            RpkiError::InvalidRow { record, fault },
                        ) && record == n && fault == f,
                    }
                },
            }
        },
    }
}

fn plain_header_row(headers: &[String]) -> (r: Vec<String>)
    ensures
        texts(r@) == plain_headers(texts(headers@)),
{
    let mut out: Vec<String> = Vec::new();
    let mut i: usize = 0;
    while i < headers.len()
        invariant
            i <= headers.len(),
            out.len() == i,
            forall|k: int|
                0 <= k < i ==> (#[trigger] out@[k])@ == lowered(trimmed(headers@[k]@)),
        decreases headers.len() - i,
    {
        out.push(to_ascii_lower(trim(headers[i].as_str()).as_str()));
        i += 1;
    }
    assert(texts(out@) =~= plain_headers(texts(headers@)));
    out
}

/// Loads authorizations from the header row and the rows of a table.
pub fn load_table(header: Option<Vec<String>>, rows: Vec<Option<Vec<String>>>) -> (r: Result<
    RoasTrie,
    RpkiError,
>)
    requires
        rows@.len() < usize::MAX - 2,
    ensures
        is_load_outcome(header_texts(header), row_texts(rows@), r),
{
    let raw = match header {
        Some(h) => h,
        None => return Err(RpkiError::Headers),
    };
    let headers = plain_header_row(&raw);
    let cols = match resolve_columns(&headers) {
        Some(c) => c,
        None => return Err(RpkiError::Columns { headers }),
    };
    let ghost plain = plain_headers(texts(raw@));
    let ghost all = if cols.headerless {
        seq![Some(plain)] + row_texts(rows@)
    } else {
        row_texts(rows@)
    };
    let ghost first: int = if cols.headerless {
        1
    } else {
        2
    };
    let ghost skip: int = if cols.headerless {
        1
    } else {
        0
    };
    let ghost (a, p, m) = (cols.asn as int, cols.prefix as int, cols.max_length as int);
    let mut trie = RoasTrie::new();
    assert(all.subrange(0, 0) =~= Seq::empty());
    assert(table_roas(all.subrange(0, 0), a, p, m, first) == Ok::<Seq<RoaView>, TableFault>(
        trie.roas(),
    ));
    if cols.headerless {
        proof {
            let one = all.subrange(0, 1);
            assert(one.drop_last() =~= all.subrange(0, 0));
            assert(one.last() == Some(plain));
        }
        match row_from_fields(&headers, 0, 1, 2) {
            Ok(Some(roa)) => {
                trie.insert(roa);
            },
            Ok(None) => {},
            Err(fault) => {
                proof {
                    lemma_table_fault_stays(all, 1, a, p, m, first);
                }
                return Err(RpkiError::InvalidRow { record: 1, fault });
            },
        }
    }
    let mut i: usize = 0;
    while i < rows.len()
        invariant
            i <= rows.len() < usize::MAX - 2,
            all.len() == skip + rows.len(),
            0 <= skip <= 1,
            first + skip == 2,
            forall|k: int| 0 <= k < rows.len() ==> #[trigger] all[skip + k] == row_texts(rows@)[k],
            trie.wf(),
            trie.roas().len() <= skip + i,
            a == cols.asn && p == cols.prefix && m == cols.max_length,
            table_roas(all.subrange(0, skip + i), a, p, m, first) == Ok::<
                Seq<RoaView>,
                TableFault,
            >(trie.roas()),
            header_texts(header) == Some(texts(raw@)),
            plain == plain_headers(texts(raw@)),
            columns_of(plain) == Some((a, p, m, cols.headerless)),
            all == (if cols.headerless {
                seq![Some(plain)] + row_texts(rows@)
            } else {
                row_texts(rows@)
            }),
            first == (if cols.headerless {
                1int
            } else {
                2int
            }),
        decreases rows.len() - i,
    {
        proof {
            let next = all.subrange(0, skip + i + 1);
            assert(next.drop_last() =~= all.subrange(0, skip + i));
            assert(next.last() == all[skip + i]);
            assert(all[skip + i] == row_texts(rows@)[i as int]);
        }
        match &rows[i] {
            None => {
                proof {
                    lemma_table_fault_stays(all, skip + i + 1, a, p, m, first);
                }
                return Err(RpkiError::Record { record: i + 2 });
            },
            Some(fields) => match row_from_fields(
                fields,
                cols.asn,
                cols.prefix,
                cols.max_length,
            ) {
                Ok(Some(roa)) => {
                    trie.insert(roa);
                },
                Ok(None) => {},
                Err(fault) => {
                    proof {
                        lemma_table_fault_stays(all, skip + i + 1, a, p, m, first);
                    }
                    return Err(RpkiError::InvalidRow { record: i + 2, fault });
                },
            },
        }
        i += 1;
    }
    assert(all.subrange(0, skip + i) =~= all);
    Ok(trie)
}

/// Loads authorizations from a CSV document with origin, prefix and maximum length columns, or
/// without a header row.
pub fn load_roas(data: &[u8]) -> (r: Result<RoasTrie, RpkiError>)
    ensures
        csv_rows(data@).len() < usize::MAX - 2 ==> is_load_outcome(
            csv_header(data@),
            csv_rows(data@),
            r,
        ),
        csv_rows(data@).len() >= usize::MAX - 2 ==> (r matches Err(e) && e is TooLong),
{
    let header = csv_read_header(data);
    let rows = csv_read_rows(data);
    assert(row_texts(rows@).len() == rows@.len());
    if rows.len() >= usize::MAX - 2 {
        return Err(RpkiError::TooLong);
    }
    load_table(header, rows)
}

// ---- laws ----

/// The length of a prefix of either family.
pub open spec fn bits_of(p: Net) -> u8 {
    match p {
        Net::V4 { addr, len } => len,
        Net::V6 { addr, len } => len,
    }
}

/// An announcement is valid just where an authorization of its origin covers it and allows its
/// length; invalid just where authorizations cover it, but none of its origin allows its length;
/// and unknown just where none covers it. This holds of both families alike.
pub proof fn outcomes_are_by_cover_origin_and_length(roas: Seq<RoaView>, p: Net, origin: u32)
    ensures
        rov(roas, p, origin) == RpkiState::Valid <==> exists|i: int|
            0 <= i < roas.len() && net_covers((#[trigger] roas[i]).net, p) && roas[i].origin_asn
                == origin && bits_of(p) <= roas[i].max_length,
        rov(roas, p, origin) == RpkiState::Invalid <==> (exists|i: int|
            0 <= i < roas.len() && net_covers((#[trigger] roas[i]).net, p)) && (forall|i: int|
            0 <= i < roas.len() && net_covers((#[trigger] roas[i]).net, p) && roas[i].origin_asn
                == origin ==> bits_of(p) > roas[i].max_length),
        rov(roas, p, origin) == RpkiState::Unknown <==> forall|i: int|
            0 <= i < roas.len() ==> !net_covers((#[trigger] roas[i]).net, p),
{
    if rov(roas, p, origin) == RpkiState::Valid {
        let i = choose|i: int|
            0 <= i < roas.len() && roa_authorizes(#[trigger] roas[i], p, origin);
        assert(net_covers(roas[i].net, p));
    }
    if exists|i: int|
        0 <= i < roas.len() && net_covers((#[trigger] roas[i]).net, p) && roas[i].origin_asn
            == origin && bits_of(p) <= roas[i].max_length {
        let i = choose|i: int|
            0 <= i < roas.len() && net_covers((#[trigger] roas[i]).net, p) && roas[i].origin_asn
                == origin && bits_of(p) <= roas[i].max_length;
        assert(roa_authorizes(roas[i], p, origin));
    }
    if exists|i: int| 0 <= i < roas.len() && net_covers((#[trigger] roas[i]).net, p) {
        let i = choose|i: int| 0 <= i < roas.len() && net_covers((#[trigger] roas[i]).net, p);
        assert(roa_covers(roas[i], p));
    }
    if exists|i: int| 0 <= i < roas.len() && roa_covers(#[trigger] roas[i], p) {
        let i = choose|i: int| 0 <= i < roas.len() && roa_covers(#[trigger] roas[i], p);
        assert(net_covers(roas[i].net, p));
    }
}

/// The order of authorizations, and whether one comes twice, makes no difference to an outcome.
pub proof fn outcomes_ignore_order(
    some: Seq<RoaView>,
    others: Seq<RoaView>,
    p: Net,
    origin: u32,
)
    requires
        forall|r: RoaView| #[trigger] some.contains(r) <==> others.contains(r),
    ensures
        rov(some, p, origin) == rov(others, p, origin),
{
    outcomes_are_by_cover_origin_and_length(some, p, origin);
    outcomes_are_by_cover_origin_and_length(others, p, origin);
    assert forall|i: int| 0 <= i < some.len() implies others.contains(#[trigger] some[i]) by {
        assert(some.contains(some[i]));
    }
    assert forall|i: int| 0 <= i < others.len() implies some.contains(#[trigger] others[i]) by {
        assert(others.contains(others[i]));
    }
    if exists|i: int|
        0 <= i < some.len() && net_covers((#[trigger] some[i]).net, p) && some[i].origin_asn
            == origin && bits_of(p) <= some[i].max_length {
        let i = choose|i: int|
            0 <= i < some.len() && net_covers((#[trigger] some[i]).net, p) && some[i].origin_asn
                == origin && bits_of(p) <= some[i].max_length;
        let j = choose|j: int| 0 <= j < others.len() && others[j] == some[i];
        assert(net_covers(others[j].net, p));
    }
    if exists|i: int|
        0 <= i < others.len() && net_covers((#[trigger] others[i]).net, p) && others[i].origin_asn
            == origin && bits_of(p) <= others[i].max_length {
        let i = choose|i: int|
            0 <= i < others.len() && net_covers((#[trigger] others[i]).net, p)
                && others[i].origin_asn == origin && bits_of(p) <= others[i].max_length;
        let j = choose|j: int| 0 <= j < some.len() && some[j] == others[i];
        assert(net_covers(some[j].net, p));
    }
    if exists|i: int| 0 <= i < some.len() && net_covers((#[trigger] some[i]).net, p) {
        let i = choose|i: int| 0 <= i < some.len() && net_covers((#[trigger] some[i]).net, p);
        let j = choose|j: int| 0 <= j < others.len() && others[j] == some[i];
        assert(net_covers(others[j].net, p));
    }
    if exists|i: int| 0 <= i < others.len() && net_covers((#[trigger] others[i]).net, p) {
        let i = choose|i: int| 0 <= i < others.len() && net_covers((#[trigger] others[i]).net, p);
        let j = choose|j: int| 0 <= j < some.len() && some[j] == others[i];
        assert(net_covers(some[j].net, p));
    }
}

/// A row that has the three columns and names an origin, with or without `AS` before it, a prefix
/// and a length in one byte, gives just the authorization that it spells.
pub proof fn rows_give_what_they_spell(
    fields: Seq<Seq<char>>,
    asn: int,
    prefix: int,
    max_length: int,
    origin: u32,
    net: Net,
    bits: u8,
)
    requires
        0 <= asn < fields.len() && 0 <= prefix < fields.len() && 0 <= max_length < fields.len(),
        trimmed(fields[asn]) == decimal(origin as nat) || trimmed(fields[asn]) == "AS"@ + decimal(
            origin as nat,
        ) || trimmed(fields[asn]) == "as"@ + decimal(origin as nat),
        parsed_prefix(trimmed(fields[prefix])) == Some(net),
        trimmed(fields[max_length]) == decimal(bits as nat),
    ensures
        row_meaning(fields, asn, prefix, max_length) == RowMeaning::Authorizes(
            RoaView { net, max_length: bits, origin_asn: origin },
        ),
{
    reveal_strlit("AS");
    reveal_strlit("as");
    let digits = decimal(origin as nat);
    let raw = trimmed(fields[asn]);
    decimal_is_digits(origin as nat);
    parse_undoes_format(origin as nat, u32::MAX as nat);
    parse_undoes_format(bits as nat, u8::MAX as nat);
    assert(is_digit(digits[0]) && is_digit(digits.last()));
    trimming_takes_blanks_off_the_ends(fields[asn]);
    lemma_not_leading(digits, "AS"@);
    lemma_not_leading(digits, "as"@);
    if raw == "AS"@ + digits {
        assert(begins_with(raw, "AS"@)) by {
            assert(raw.subrange(0, 2) =~= "AS"@);
        }
        assert(raw.subrange(2, raw.len() as int) =~= digits);
    } else if raw == "as"@ + digits {
        assert(raw[0] == 'a');
        lemma_not_leading(raw, "AS"@);
        assert(begins_with(raw, "as"@)) by {
            assert(raw.subrange(0, 2) =~= "as"@);
        }
        assert(raw.subrange(2, raw.len() as int) =~= digits);
    }
}

proof fn lemma_not_leading(s: Seq<char>, p: Seq<char>)
    requires
        s.len() > 0,
        p.len() > 0,
        s[0] != p[0],
    ensures
        without_leading(s, p) == s,
{
    if begins_with(s, p) {
        assert(s.subrange(0, p.len() as int)[0] == p[0]);
    }
}

/// A row whose origin is left out or begins with `#`, or that lacks a column, gives nothing and is
/// no fault.
pub proof fn comments_and_short_rows_are_skipped(
    fields: Seq<Seq<char>>,
    asn: int,
    prefix: int,
    max_length: int,
)
    requires
        0 <= asn && 0 <= prefix && 0 <= max_length,
        asn >= fields.len() || prefix >= fields.len() || max_length >= fields.len() || trimmed(
            fields[asn],
        ).len() == 0 || trimmed(fields[asn])[0] == '#',
    ensures
        row_meaning(fields, asn, prefix, max_length) == RowMeaning::Skipped,
{
}

/// The authorizations of a table that loads are those of its rows that give one, in order; rows
/// that are skipped leave none.
pub proof fn tables_give_their_rows(
    rows: Seq<Option<Seq<Seq<char>>>>,
    asn: int,
    prefix: int,
    max_length: int,
    first: int,
)
    requires
        table_roas(rows, asn, prefix, max_length, first) is Ok,
    ensures
        forall|i: int|
            0 <= i < rows.len() ==> (#[trigger] rows[i]) is Some && !(row_meaning(
                rows[i]->0,
                asn,
                prefix,
                max_length,
            ) is Faulty),
        forall|roa: RoaView| #[trigger]
            table_roas(rows, asn, prefix, max_length, first)->Ok_0.contains(roa) <==> exists|i: int|
                0 <= i < rows.len() && row_meaning(
                    (#[trigger] rows[i])->0,
                    asn,
                    prefix,
                    max_length,
                ) == RowMeaning::Authorizes(roa),
        table_roas(rows, asn, prefix, max_length, first)->Ok_0.len() == rows.filter(
            |r: Option<Seq<Seq<char>>>|
                row_meaning(r->0, asn, prefix, max_length) is Authorizes,
        ).len(),
    decreases rows.len(),
{
    reveal(Seq::filter);
    if rows.len() > 0 {
        let rest = rows.drop_last();
        let head = table_roas(rest, asn, prefix, max_length, first);
        assert(head is Ok);
        tables_give_their_rows(rest, asn, prefix, max_length, first);
        let last = rows.last();
        assert(rows[rows.len() - 1] == last);
        assert forall|i: int| 0 <= i < rows.len() implies (#[trigger] rows[i]) is Some && !(
        row_meaning(rows[i]->0, asn, prefix, max_length) is Faulty) by {
            if i < rest.len() {
                assert(rest[i] == rows[i]);
            }
        }
        let all = table_roas(rows, asn, prefix, max_length, first)->Ok_0;
        assert forall|roa: RoaView| #[trigger] all.contains(roa) <==> exists|i: int|
            0 <= i < rows.len() && row_meaning((#[trigger] rows[i])->0, asn, prefix, max_length)
                == RowMeaning::Authorizes(roa) by {
            assert(head->Ok_0.contains(roa) <==> exists|i: int|
                0 <= i < rest.len() && row_meaning((#[trigger] rest[i])->0, asn, prefix, max_length)
                    == RowMeaning::Authorizes(roa));
            if let RowMeaning::Authorizes(x) = row_meaning(last->0, asn, prefix, max_length) {
                lemma_seq_contains_after_push(head->Ok_0, x, roa);
            }
            if head->Ok_0.contains(roa) {
                let i = choose|i: int|
                    0 <= i < rest.len() && row_meaning(
                        (#[trigger] rest[i])->0,
                        asn,
                        prefix,
                        max_length,
                    ) == RowMeaning::Authorizes(roa);
                assert(rows[i] == rest[i]);
            }
            if exists|i: int|
                0 <= i < rows.len() && row_meaning((#[trigger] rows[i])->0, asn, prefix, max_length)
                    == RowMeaning::Authorizes(roa) {
                let i = choose|i: int|
                    0 <= i < rows.len() && row_meaning(
                        (#[trigger] rows[i])->0,
                        asn,
                        prefix,
                        max_length,
                    ) == RowMeaning::Authorizes(roa);
                if i < rest.len() {
                    assert(rest[i] == rows[i]);
                }
            }
        }
    }
}

/// A table is refused at the first row that cannot be read, counted from the first record.
pub proof fn tables_are_refused_at_the_first_fault(
    rows: Seq<Option<Seq<Seq<char>>>>,
    asn: int,
    prefix: int,
    max_length: int,
    first: int,
    i: int,
)
    requires
        0 <= i < rows.len(),
        rows[i] is None || row_meaning(rows[i]->0, asn, prefix, max_length) is Faulty,
        forall|j: int|
            0 <= j < i ==> (#[trigger] rows[j]) is Some && !(row_meaning(
                rows[j]->0,
                asn,
                prefix,
                max_length,
            ) is Faulty),
    ensures
        rows[i] is None ==> table_roas(rows, asn, prefix, max_length, first) == Err::<
            Seq<RoaView>,
            TableFault,
        >(TableFault::NotText(first + i)),
        rows[i] is Some ==> (row_meaning(rows[i]->0, asn, prefix, max_length)
            matches RowMeaning::Faulty(f) && table_roas(rows, asn, prefix, max_length, first)
            == Err::<Seq<RoaView>, TableFault>(TableFault::Row(first + i, f))),
    decreases rows.len(),
{
    let rest = rows.drop_last();
    if i < rest.len() {
        assert(rest[i] == rows[i]);
        assert forall|j: int| 0 <= j < i implies (#[trigger] rest[j]) is Some && !(row_meaning(
            rest[j]->0,
            asn,
            prefix,
            max_length,
        ) is Faulty) by {
            assert(rest[j] == rows[j]);
        }
        tables_are_refused_at_the_first_fault(rest, asn, prefix, max_length, first, i);
    } else {
        lemma_faultless(rows, asn, prefix, max_length, first, i);
        assert(rows.subrange(0, i) =~= rest);
        assert(rows.last() == rows[i]);
    }
}

proof fn lemma_faultless(
    rows: Seq<Option<Seq<Seq<char>>>>,
    asn: int,
    prefix: int,
    max_length: int,
    first: int,
    n: int,
)
    requires
        0 <= n <= rows.len(),
        forall|j: int|
            0 <= j < n ==> (#[trigger] rows[j]) is Some && !(row_meaning(
                rows[j]->0,
                asn,
                prefix,
                max_length,
            ) is Faulty),
    ensures
        table_roas(rows.subrange(0, n), asn, prefix, max_length, first) is Ok,
    decreases n,
{
    if n > 0 {
        lemma_faultless(rows, asn, prefix, max_length, first, n - 1);
        assert(rows.subrange(0, n).drop_last() =~= rows.subrange(0, n - 1));
        assert(rows.subrange(0, n).last() == rows[n - 1]);
    }
}

/// A header row that names the three columns, each once and in the usual words, is found by its
/// names wherever they stand.
pub proof fn columns_are_found_by_name(headers: Seq<Seq<char>>, a: int, p: int, m: int)
    requires
        0 <= a < headers.len() && 0 <= p < headers.len() && 0 <= m < headers.len(),
        headers[a] == "asn"@ || headers[a] == "as"@ || headers[a] == "origin"@ || headers[a]
            == "origin asn"@ || headers[a] == "origin_asn"@,
        headers[p] == "prefix"@ || headers[p] == "ip prefix"@ || headers[p] == "ip_prefix"@
            || headers[p] == "ipprefix"@,
        headers[m] == "max length"@ || headers[m] == "maxlen"@ || headers[m] == "max_length"@
            || headers[m] == "maxlength"@ || headers[m] == "max len"@,
        forall|i: int| 0 <= i < a ==> !names_column(#[trigger] headers[i], asn_names()),
        forall|i: int| 0 <= i < p ==> !names_column(#[trigger] headers[i], prefix_names()),
        forall|i: int| 0 <= i < m ==> !names_column(#[trigger] headers[i], max_length_names()),
    ensures
        columns_of(headers) == Some((a, p, m, false)),
{
    let an = asn_names();
    assert(an[0] == "asn"@ && an[1] == "as"@ && an[2] == "origin"@ && an[3] == "origin asn"@
        && an[4] == "origin_asn"@);
    assert(an.contains(headers[a]));
    let pn = prefix_names();
    assert(pn[0] == "ip prefix"@ && pn[1] == "prefix"@ && pn[2] == "ip_prefix"@ && pn[3]
        == "ipprefix"@);
    assert(pn.contains(headers[p]));
    let mn = max_length_names();
    assert(mn[0] == "max length"@ && mn[1] == "maxlen"@ && mn[2] == "max_length"@ && mn[3]
        == "maxlength"@ && mn[4] == "max len"@);
    assert(mn.contains(headers[m]));
    lemma_first_column(headers, an, 0, a);
    lemma_first_column(headers, pn, 0, p);
    lemma_first_column(headers, mn, 0, m);
}

proof fn lemma_first_column(headers: Seq<Seq<char>>, names: Seq<Seq<char>>, i: int, c: int)
    requires
        0 <= i <= c < headers.len(),
        names_column(headers[c], names),
        forall|j: int| i <= j < c ==> !names_column(#[trigger] headers[j], names),
    ensures
        column_from(headers, names, i) == Some(c),
    decreases c - i,
{
    if i < c {
        assert(!names_column(headers[i], names));
        lemma_first_column(headers, names, i + 1, c);
    }
}

/// A table that names its columns is read from its second record on; one that names none, and
/// begins with an origin and a prefix, from its first. It loads just where no row is at fault.
pub proof fn tables_load_where_no_row_is_at_fault(
    header: Seq<Seq<char>>,
    rows: Seq<Option<Seq<Seq<char>>>>,
    r: Result<RoasTrie, RpkiError>,
)
    requires
        is_load_outcome(Some(header), rows, r),
    ensures
        ({
            let plain = Seq::new(header.len(), |i: int| lowered(trimmed(header[i])));
            match columns_of(plain) {
                Some((a, p, m, false)) => (r matches Ok(t) ==> table_roas(rows, a, p, m, 2) == Ok::<
                    Seq<RoaView>,
                    TableFault,
                >(t.roas())) && (r is Ok <==> table_roas(rows, a, p, m, 2) is Ok) && (r matches Err(
                    RpkiError::InvalidRow { record, fault },
                ) ==> table_roas(rows, a, p, m, 2) == Err::<Seq<RoaView>, TableFault>(
                    TableFault::Row(record as int, fault),
                )),
                Some((a, p, m, true)) => ({
                    let all = seq![Some(plain)] + rows;
                    (r matches Ok(t) ==> table_roas(all, a, p, m, 1) == Ok::<
                        Seq<RoaView>,
                        TableFault,
                    >(t.roas())) && (r is Ok <==> table_roas(all, a, p, m, 1) is Ok)
                }),
                None => r matches Err(e) && e is Columns,
            }
        }),
{
    assert(plain_headers(header) =~= Seq::new(header.len(), |i: int| lowered(trimmed(header[i]))));
}

/// A row that begins with an origin and a prefix, and names no column of one of the three kinds, is
/// itself a record.
pub proof fn tables_without_names_begin_with_a_record(headers: Seq<Seq<char>>, asn: u32)
    requires
        headers.len() >= 3,
        headers[0] == decimal(asn as nat),
        parsed_prefix(headers[1]) is Some,
        forall|i: int|
            0 <= i < headers.len() ==> !names_column(#[trigger] headers[i], max_length_names()),
    ensures
        columns_of(headers) == Some((0int, 1int, 2int, true)),
{
    parse_undoes_format(asn as nat, u32::MAX as nat);
    lemma_no_column(headers, max_length_names(), 0);
}

proof fn lemma_no_column(headers: Seq<Seq<char>>, names: Seq<Seq<char>>, i: int)
    requires
        0 <= i <= headers.len(),
        forall|j: int| i <= j < headers.len() ==> !names_column(#[trigger] headers[j], names),
    ensures
        column_from(headers, names, i) is None,
    decreases headers.len() - i,
{
    if i < headers.len() {
        assert(!names_column(headers[i], names));
        lemma_no_column(headers, names, i + 1);
    }
}

} // verus!
