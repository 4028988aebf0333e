//! IP prefixes, and a prefix trie that finds numbered slots.

use ipnet::{IpNet, Ipv4Net, Ipv6Net};
use ipnet_trie::IpnetTrie;
use vstd::prelude::*;

verus! {

/// An IP address.
#[derive(Clone, Copy, Debug, PartialEq, Eq, Structural)]
pub enum Address {
    V4(u32),
    V6(u128),
}

/// An address with a prefix length.
#[derive(Clone, Copy, Debug, PartialEq, Eq, Structural)]
pub enum Net {
    V4 { addr: u32, len: u8 },
    V6 { addr: u128, len: u8 },
}

/// What tells one prefix of a trie from another: the family (`true` for IPv6), the bits that
/// the prefix fixes, and their number.
pub type PrefixKey = (bool, u128, u8);

/// The first `len` of the 32 bits of an address.
pub open spec fn leading_v4(addr: u32, len: int) -> u32 {
    if len <= 0 {
        0
    } else {
        addr >> ((32 - len) as u32)
    }
}

/// The first `len` of the 128 bits of an address.
pub open spec fn leading_v6(addr: u128, len: int) -> u128 {
    if len <= 0 {
        0
    } else {
        addr >> ((128 - len) as u128)
    }
}

impl Net {
    /// The length is one that the family allows.
    pub open spec fn wf(&self) -> bool {
        match self {
            Net::V4 { addr, len } => *len <= 32,
            Net::V6 { addr, len } => *len <= 128,
        }
    }

    /// The key of the first `len` bits.
    pub open spec fn key_at(&self, len: u8) -> PrefixKey {
        match self {
            Net::V4 { addr, .. } => (false, leading_v4(*addr, len as int) as u128, len),
            Net::V6 { addr, .. } => (true, leading_v6(*addr, len as int), len),
        }
    }

    /// The prefix length.
    pub open spec fn length(&self) -> u8 {
        match self {
            Net::V4 { len, .. } => *len,
            Net::V6 { len, .. } => *len,
        }
    }
}

/// An IP prefix: an address, whose bits past the length may be set, and a length that its
/// family allows.
#[derive(Clone, Copy, Debug, PartialEq, Eq, Structural)]
pub struct Prefix {
    net: Net,
}

impl Prefix {
    #[verifier::type_invariant]
    spec fn valid(self) -> bool {
        self.net.wf()
    }

    /// The address and length.
    pub closed spec fn net(&self) -> Net {
        self.net
    }

    /// The prefix length.
    pub open spec fn length(&self) -> u8 {
        self.net().length()
    }

    /// What tells the prefix from others in a trie.
    pub open spec fn key(&self) -> PrefixKey {
        self.net().key_at(self.length())
    }

    /// The prefix with this address and length, where the family allows the length.
    pub fn new(net: Net) -> (r: Option<Prefix>)
        ensures
            match r {
                Some(p) => p.net() == net && net.wf(),
                None => !net.wf(),
            },
    {
        let ok = match net {
            Net::V4 { addr: _, len } => len <= 32,
            Net::V6 { addr: _, len } => len <= 128,
        };
        if ok {
            Some(Prefix { net })
        } else {
            None
        }
    }

    /// The prefix that holds one address.
    pub fn host(addr: Address) -> (r: Prefix)
        ensures
            r.net() == host_net(addr),
    {
        match addr {
            Address::V4(a) => Prefix { net: Net::V4 { addr: a, len: 32 } },
            Address::V6(a) => Prefix { net: Net::V6 { addr: a, len: 128 } },
        }
    }

    /// The address and length.
    pub fn parts(&self) -> (r: Net)
        ensures
            r == self.net(),
            r.wf(),
    {
        proof {
            use_type_invariant(self);
        }
        self.net
    }

    /// The prefix length.
    pub fn prefix_len(&self) -> (r: u8)
        ensures
            r == self.length(),
    {
        match self.net {
            Net::V4 { addr: _, len } => len,
            Net::V6 { addr: _, len } => len,
        }
    }

    /// The prefix in `address/length` form.
    pub fn text(&self) -> (r: String)
        ensures
            r@ == prefix_text(self.net()),
            parsed_prefix(r@) == Some(self.net()),
    {
        proof {
            use_type_invariant(self);
        }
        ipnet_format(self.net)
    }
}

/// The full-length network of one address.
pub open spec fn host_net(addr: Address) -> Net {
    match addr {
        Address::V4(a) => Net::V4 { addr: a, len: 32 },
        Address::V6(a) => Net::V6 { addr: a, len: 128 },
    }
}

/// `key` fixes no more bits than `p` does, and the bits it fixes are those of `p`.
pub open spec fn key_covers(key: PrefixKey, p: Net) -> bool {
    key.2 <= p.length() && key == p.key_at(key.2)
}

/// Every address of `smaller` lies in `larger`.
pub open spec fn net_covers(larger: Net, smaller: Net) -> bool {
    key_covers(larger.key_at(larger.length()), smaller)
}

fn leading_bits_v4(addr: u32, len: u8) -> (r: u32)
    requires
        len <= 32,
    ensures
        r == leading_v4(addr, len as int),
{
    if len == 0 {
        0
    } else {
        addr >> ((32 - len) as u32)
    }
}

fn leading_bits_v6(addr: u128, len: u8) -> (r: u128)
    requires
        len <= 128,
    ensures
        r == leading_v6(addr, len as int),
{
    if len == 0 {
        0
    } else {
        addr >> ((128 - len) as u128)
    }
}

/// Tells whether every address of `smaller` lies in `larger`.
pub fn covers(larger: Prefix, smaller: Prefix) -> (r: bool)
    ensures
        r == net_covers(larger.net(), smaller.net()),
{
    proof {
        use_type_invariant(&larger);
        use_type_invariant(&smaller);
    }
    match (larger.net, smaller.net) {
        (Net::V4 { addr: a, len: m }, Net::V4 { addr: b, len: n }) => {
            m <= n && leading_bits_v4(a, m) == leading_bits_v4(b, m)
        },
        (Net::V6 { addr: a, len: m }, Net::V6 { addr: b, len: n }) => {
            m <= n && leading_bits_v6(a, m) == leading_bits_v6(b, m)
        },
        (Net::V4 { .. }, Net::V6 { .. }) => false,
        (Net::V6 { .. }, Net::V4 { .. }) => false,
    }
}

/// Every prefix covers itself.
pub proof fn covers_reflexive(a: Net)
    ensures
        net_covers(a, a),
{
}

proof fn lemma_shorter_v4(x: u32, y: u32, m: int, n: int)
    requires
        0 <= m <= n <= 32,
        leading_v4(x, n) == leading_v4(y, n),
    ensures
        leading_v4(x, m) == leading_v4(y, m),
{
    if m > 0 {
        let sm = (32 - m) as u32;
        let sn = (32 - n) as u32;
        assert(x >> sm == y >> sm) by (bit_vector)
            requires
                x >> sn == y >> sn,
                sn <= sm,
                sm < 32,
        ;
    }
}

proof fn lemma_shift_twice(x: u128, a: u128, b: u128)
    requires
        a + b < 128,
    ensures
        (x >> a) >> b == x >> ((a + b) as u128),
{
    let c = (a + b) as u128;
    vstd::bits::lemma_u128_shr_is_div(x, a);
    vstd::bits::lemma_u128_shr_is_div(x >> a, b);
    vstd::bits::lemma_u128_shr_is_div(x, c);
    vstd::arithmetic::power2::lemma_pow2_adds(a as nat, b as nat);
    vstd::arithmetic::power2::lemma_pow2_pos(a as nat);
    vstd::arithmetic::power2::lemma_pow2_pos(b as nat);
    vstd::arithmetic::div_mod::lemma_div_denominator(
        x as int,
        vstd::arithmetic::power2::pow2(a as nat) as int,
        vstd::arithmetic::power2::pow2(b as nat) as int,
    );
}

proof fn lemma_shorter_v6(x: u128, y: u128, m: int, n: int)
    requires
        0 <= m <= n <= 128,
        leading_v6(x, n) == leading_v6(y, n),
    ensures
        leading_v6(x, m) == leading_v6(y, m),
{
    if m > 0 {
        let sm = (128 - m) as u128;
        let sn = (128 - n) as u128;
        let d = (sm - sn) as u128;
        lemma_shift_twice(x, sn, d);
        lemma_shift_twice(y, sn, d);
    }
}

/// A prefix that covers another covers what that one covers.
pub proof fn covers_transitive(a: Net, b: Net, c: Net)
    requires
        a.wf(),
        b.wf(),
        c.wf(),
        net_covers(a, b),
        net_covers(b, c),
    ensures
        net_covers(a, c),
{
    match (b, c) {
        (Net::V4 { addr: x, len: n }, Net::V4 { addr: y, .. }) => {
            lemma_shorter_v4(x, y, a.length() as int, n as int);
        },
        (Net::V6 { addr: x, len: n }, Net::V6 { addr: y, .. }) => {
            lemma_shorter_v6(x, y, a.length() as int, n as int);
        },
        (Net::V4 { .. }, Net::V6 { .. }) => {},
        (Net::V6 { .. }, Net::V4 { .. }) => {},
    }
}

/// Two prefixes cover each other just where they have one key.
pub proof fn covers_antisymmetric(a: Net, b: Net)
    ensures
        net_covers(a, b) && net_covers(b, a) <==> a.key_at(a.length()) == b.key_at(b.length()),
{
}

// ---- text form ----

/// The prefix that a text spells.
pub uninterp spec fn parsed_prefix(s: Seq<char>) -> Option<Net>;

/// The text form of a prefix.
pub uninterp spec fn prefix_text(net: Net) -> Seq<char>;

/// `ipnet::IpNet`'s `FromStr`: its result depends on the text alone, and its length is one that
/// the family allows.
#[verifier::external_body]
fn ipnet_parse(s: &str) -> (r: Option<Net>)
    ensures
        r == parsed_prefix(s@),
        r is Some ==> r->0.wf(),
{
    match s.parse::<IpNet>() {
        Ok(IpNet::V4(n)) => Some(Net::V4 { addr: n.addr().into(), len: n.prefix_len() }),
        Ok(IpNet::V6(n)) => Some(Net::V6 { addr: n.addr().into(), len: n.prefix_len() }),
        Err(_) => None,
    }
}

/// `ipnet::IpNet`'s `Display`: the text depends on the prefix alone and reads back as it.
#[verifier::external_body]
fn ipnet_format(net: Net) -> (r: String)
    requires
        net.wf(),
    ensures
        r@ == prefix_text(net),
        parsed_prefix(r@) == Some(net),
{
    match net {
        Net::V4 { addr, len } => IpNet::V4(Ipv4Net::new(addr.into(), len).unwrap()).to_string(),
        Net::V6 { addr, len } => IpNet::V6(Ipv6Net::new(addr.into(), len).unwrap()).to_string(),
    }
}

/// Reads a prefix in `address/length` form.
pub fn parse_prefix(s: &str) -> (r: Option<Prefix>)
    ensures
        match r {
            Some(p) => parsed_prefix(s@) == Some(p.net()),
            None => parsed_prefix(s@) is None,
        },
{
    match ipnet_parse(s) {
        Some(net) => Prefix::new(net),
        None => None,
    }
}

// ---- the trie ----

/// `ipnet_trie::IpnetTrie`.
#[verifier::external_type_specification]
#[verifier::external_body]
#[verifier::reject_recursive_types(T)]
pub struct ExIpnetTrie<T>(IpnetTrie<T>);

/// The slot that a trie holds for each prefix key.
pub uninterp spec fn trie_slots(t: IpnetTrie<usize>) -> Map<PrefixKey, usize>;

/// `key` is a key of the trie that covers `p`, and no shorter one does.
pub open spec fn shortest_cover(slots: Map<PrefixKey, usize>, p: Net, key: PrefixKey) -> bool {
    &&& slots.contains_key(key)
    &&& key_covers(key, p)
    &&& forall|k: PrefixKey| #[trigger]
        slots.contains_key(k) && key_covers(k, p) ==> key.2 <= k.2
}

/// `key` is a key of the trie that covers `p`, and no longer one does.
pub open spec fn longest_cover(slots: Map<PrefixKey, usize>, p: Net, key: PrefixKey) -> bool {
    &&& slots.contains_key(key)
    &&& key_covers(key, p)
    &&& forall|k: PrefixKey| #[trigger]
        slots.contains_key(k) && key_covers(k, p) ==> k.2 <= key.2
}

/// Every address of the prefix with key `inner` lies in the one with key `outer`.
pub open spec fn key_within(inner: PrefixKey, outer: PrefixKey) -> bool {
    &&& inner.0 == outer.0
    &&& outer.2 <= inner.2
    &&& inner.1 >> ((inner.2 - outer.2) as u128) == outer.1
}

/// `ks` lists the keys of the trie, each once.
pub open spec fn lists_keys(slots: Map<PrefixKey, usize>, ks: Seq<PrefixKey>) -> bool {
    &&& ks.no_duplicates()
    &&& forall|k: PrefixKey| #[trigger] ks.contains(k) <==> slots.contains_key(k)
}

/// A trie's contents without entries.
pub open spec fn no_slots() -> Map<PrefixKey, usize> {
    Map::empty()
}

/// `i` is the slot of a prefix inside the shortest one that covers `p`.
pub open spec fn slot_in_shortest_cover(slots: Map<PrefixKey, usize>, p: Net, i: usize) -> bool {
    exists|s: PrefixKey, k: PrefixKey|
        #![trigger shortest_cover(slots, p, s), key_within(k, s)]
        shortest_cover(slots, p, s) && key_within(k, s) && slots.contains_key(k) && slots[k] == i
}

/// `r` holds the slot of each key once.
pub open spec fn lists_slots(slots: Map<PrefixKey, usize>, r: Seq<usize>) -> bool {
    exists|ks: Seq<PrefixKey>| #[trigger]
        lists_keys(slots, ks) && r == ks.map_values(|k: PrefixKey| slots[k])
}

/// `IpnetTrie::new`: a trie without entries.
#[verifier::external_body]
pub(crate) fn trie_new() -> (r: IpnetTrie<usize>)
    ensures
        trie_slots(r) == no_slots(),
{
    IpnetTrie::new()
}

/// `IpnetTrie::exact_match`: the slot stored for the prefix with the key of `net`.
#[verifier::external_body]
pub(crate) fn trie_exact(t: &IpnetTrie<usize>, net: Net) -> (r: Option<usize>)
    requires
        net.wf(),
    ensures
        match r {
            Some(i) => trie_slots(*t).contains_key(net.key_at(net.length())) && trie_slots(
                *t,
            )[net.key_at(net.length())] == i,
            None => !trie_slots(*t).contains_key(net.key_at(net.length())),
        },
{
    match net {
        Net::V4 { addr, len } => t.exact_match(Ipv4Net::new(addr.into(), len).unwrap()).copied(),
        Net::V6 { addr, len } => t.exact_match(Ipv6Net::new(addr.into(), len).unwrap()).copied(),
    }
}

/// `IpnetTrie::insert`: stores the slot under the key of `net`, in place of one stored before.
#[verifier::external_body]
pub(crate) fn trie_insert(t: &mut IpnetTrie<usize>, net: Net, slot: usize)
    requires
        net.wf(),
    ensures
        trie_slots(*final(t)) == trie_slots(*old(t)).insert(net.key_at(net.length()), slot),
{
    match net {
        Net::V4 { addr, len } => t.insert(Ipv4Net::new(addr.into(), len).unwrap(), slot),
        Net::V6 { addr, len } => t.insert(Ipv6Net::new(addr.into(), len).unwrap(), slot),
    };
}

/// `IpnetTrie::remove`: takes the key of `net` out.
#[verifier::external_body]
pub(crate) fn trie_remove(t: &mut IpnetTrie<usize>, net: Net)
    requires
        net.wf(),
    ensures
        trie_slots(*final(t)) == trie_slots(*old(t)).remove(net.key_at(net.length())),
{
    match net {
        Net::V4 { addr, len } => t.remove(Ipv4Net::new(addr.into(), len).unwrap()),
        Net::V6 { addr, len } => t.remove(Ipv6Net::new(addr.into(), len).unwrap()),
    };
}

/// `IpnetTrie::longest_match`: the slot of the longest stored prefix that covers `net`.
#[verifier::external_body]
pub(crate) fn trie_longest(t: &IpnetTrie<usize>, net: Net) -> (r: Option<usize>)
    requires
        net.wf(),
    ensures
        match r {
            Some(i) => exists|k: PrefixKey| #[trigger]
                longest_cover(trie_slots(*t), net, k) && trie_slots(*t)[k] == i,
            None => forall|k: PrefixKey| #[trigger]
                trie_slots(*t).contains_key(k) ==> !key_covers(k, net),
        },
{
    let net = match net {
        Net::V4 { addr, len } => IpNet::V4(Ipv4Net::new(addr.into(), len).unwrap()),
        Net::V6 { addr, len } => IpNet::V6(Ipv6Net::new(addr.into(), len).unwrap()),
    };
    t.longest_match(&net).map(|(_, slot)| *slot)
}

/// `IpnetTrie::matches`: the slots of all stored prefixes inside the shortest stored prefix that
/// covers `net`; none where no stored prefix covers it. The order is left open.
#[verifier::external_body]
pub(crate) fn trie_matches(t: &IpnetTrie<usize>, net: Net) -> (r: Vec<usize>)
    requires
        net.wf(),
    ensures
        forall|i: usize| #[trigger]
            r@.contains(i) <==> slot_in_shortest_cover(trie_slots(*t), net, i),
{
    let net = match net {
        Net::V4 { addr, len } => IpNet::V4(Ipv4Net::new(addr.into(), len).unwrap()),
        Net::V6 { addr, len } => IpNet::V6(Ipv6Net::new(addr.into(), len).unwrap()),
    };
    t.matches(&net).into_iter().map(|(_, slot)| *slot).collect()
}

/// `IpnetTrie::iter`: the slot of every stored prefix, each once. The order is left open.
#[verifier::external_body]
pub(crate) fn trie_iter(t: &IpnetTrie<usize>) -> (r: Vec<usize>)
    ensures
        lists_slots(trie_slots(*t), r@),
{
    t.iter().map(|(_, slot)| *slot).collect()
}

/// The shortest cover of a prefix contains every other cover of it.
pub(crate) proof fn lemma_cover_within_shortest(slots: Map<PrefixKey, usize>, p: Net, s: PrefixKey, k: PrefixKey)
    requires
        p.wf(),
        shortest_cover(slots, p, s),
        slots.contains_key(k),
        key_covers(k, p),
    ensures
        key_within(k, s),
{
    let d = (k.2 - s.2) as u128;
    match p {
        Net::V4 { addr, len } => {
            let sk = (32 - k.2) as u32;
            let ss = (32 - s.2) as u32;
            if s.2 == 0 {
                if k.2 == 0 {
                    assert(0u128 >> 0u128 == 0u128) by (bit_vector);
                } else {
                    let kl = (addr >> sk) as u128;
                    assert(kl >> d == 0u128) by (bit_vector)
                        requires
                            kl == (addr >> sk) as u128,
                            sk < 32,
                            d == 32 - sk,
                    ;
                }
            } else {
                let kl = (addr >> sk) as u128;
                let sl = (addr >> ss) as u128;
                assert(kl >> d == sl) by (bit_vector)
                    requires
                        kl == (addr >> sk) as u128,
                        sl == (addr >> ss) as u128,
                        sk <= ss,
                        ss < 32,
                        d == ss - sk,
                ;
            }
        },
        Net::V6 { addr, len } => {
            let sk = (128 - k.2) as u128;
            let ss = (128 - s.2) as u128;
            if s.2 == 0 {
                if k.2 == 0 {
                    assert(0u128 >> 0u128 == 0u128) by (bit_vector);
                } else {
                    let kl = addr >> sk;
                    assert(kl >> d == 0u128) by (bit_vector)
                        requires
                            kl == addr >> sk,
                            sk < 128,
                            d == 128 - sk,
                    ;
                }
            } else {
                lemma_shift_twice(addr, sk, d);
            }
        },
    }
}

// ---- laws ----

/// A prefix covers another of its family that is no shorter and has the same network: the same
/// quotient by the number of addresses of the larger one. It covers none of the other family.
pub proof fn covering_is_by_networks(a: Net, b: Net)
    requires
        a.wf(),
        b.wf(),
    ensures
        net_covers(a, b) <==> match (a, b) {
            (Net::V4 { addr: x, len: m }, Net::V4 { addr: y, len: n }) => m <= n && x as int
                / vstd::arithmetic::power2::pow2((32 - m) as nat) as int == y as int
                / vstd::arithmetic::power2::pow2((32 - m) as nat) as int,
            (Net::V6 { addr: x, len: m }, Net::V6 { addr: y, len: n }) => m <= n && x as int
                / vstd::arithmetic::power2::pow2((128 - m) as nat) as int == y as int
                / vstd::arithmetic::power2::pow2((128 - m) as nat) as int,
            (Net::V4 { .. }, Net::V6 { .. }) => false,
            (Net::V6 { .. }, Net::V4 { .. }) => false,
        },
{
    match (a, b) {
        (Net::V4 { addr: x, len: m }, Net::V4 { addr: y, len: n }) => {
            if m == 0 {
                vstd::arithmetic::power2::lemma2_to64();
                let all = vstd::arithmetic::power2::pow2(32) as int;
                assert(all == 0x1_0000_0000);
                vstd::arithmetic::div_mod::lemma_basic_div(x as int, all);
                vstd::arithmetic::div_mod::lemma_basic_div(y as int, all);
            } else {
                vstd::bits::lemma_u32_shr_is_div(x, (32 - m) as u32);
                vstd::bits::lemma_u32_shr_is_div(y, (32 - m) as u32);
            }
        },
        (Net::V6 { addr: x, len: m }, Net::V6 { addr: y, len: n }) => {
            if m == 0 {
                vstd::arithmetic::power2::lemma2_to64();
                vstd::arithmetic::power2::lemma_pow2_adds(64, 64);
                let all = vstd::arithmetic::power2::pow2(128) as int;
                assert(all == 0x1_0000_0000_0000_0000_0000_0000_0000_0000) by {
                    assert(vstd::arithmetic::power2::pow2(64) == 0x1_0000_0000_0000_0000);
                    assert(0x1_0000_0000_0000_0000 * 0x1_0000_0000_0000_0000
                        == 0x1_0000_0000_0000_0000_0000_0000_0000_0000);
                }
                vstd::arithmetic::div_mod::lemma_basic_div(x as int, all);
                vstd::arithmetic::div_mod::lemma_basic_div(y as int, all);
            } else {
                vstd::bits::lemma_u128_shr_is_div(x, (128 - m) as u128);
                vstd::bits::lemma_u128_shr_is_div(y, (128 - m) as u128);
            }
        },
        _ => {},
    }
}

/// Two prefixes have one key just where they are of one family and one length, and have the same
/// network; what the address holds past the length makes no difference.
pub proof fn keys_are_networks(a: Net, b: Net)
    requires
        a.wf(),
        b.wf(),
    ensures
        a.key_at(a.length()) == b.key_at(b.length()) <==> match (a, b) {
            (Net::V4 { addr: x, len: m }, Net::V4 { addr: y, len: n }) => m == n && x as int
                / vstd::arithmetic::power2::pow2((32 - m) as nat) as int == y as int
                / vstd::arithmetic::power2::pow2((32 - m) as nat) as int,
            (Net::V6 { addr: x, len: m }, Net::V6 { addr: y, len: n }) => m == n && x as int
                / vstd::arithmetic::power2::pow2((128 - m) as nat) as int == y as int
                / vstd::arithmetic::power2::pow2((128 - m) as nat) as int,
            (Net::V4 { .. }, Net::V6 { .. }) => false,
            (Net::V6 { .. }, Net::V4 { .. }) => false,
        },
{
    covers_antisymmetric(a, b);
    covering_is_by_networks(a, b);
    covering_is_by_networks(b, a);
}

} // verus!
