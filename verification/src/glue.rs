//! Networks that are context rather than subjects, and what makes a network a subject.

use crate::text::{
    decimal, decimal_is_digits, format_u64, is_digit, lines, lines_of, number_in, parse_u32,
    parse_undoes_format, starts_with_char, texts, trim, trimmed,
};
use std::collections::HashSet;
use vstd::prelude::*;
use vstd::seq_lib::lemma_seq_contains_after_push;
use vstd::string::StringExecFns;

verus! {

broadcast use vstd::std_specs::hash::group_hash_axioms;

/// Networks that announce more prefixes than this are too large to be subjects.
pub const DEFAULT_MAX_PREFIXES_FOR_SUBJECT: u32 = 5_000;

/// Networks that announce fewer prefixes than this are stubs.
pub const DEFAULT_MIN_PREFIXES_FOR_SUBJECT: u32 = 1;

/// What keeps a map from being loaded.
#[derive(Debug)]
pub enum MapError {
    /// A file could not be read.
    Io { path: String, source: String },
    /// The content is not an org map.
    Json(String),
    /// A line is not an ASN.
    InvalidAsn(String),
}

/// When a network may be a subject.
#[derive(Clone, Copy, Debug, PartialEq, Eq, Structural)]
pub struct SubjectHeuristics {
    /// Leave glue networks out.
    pub exclude_glue: bool,
    /// Where the prefix count is known, the most it may be.
    pub max_prefixes: Option<u32>,
    /// Where the prefix count is known, the least it may be.
    pub min_prefixes: Option<u32>,
}

impl Default for SubjectHeuristics {
    fn default() -> (r: Self)
        ensures
            r == default_heuristics(),
    {
        SubjectHeuristics {
            exclude_glue: true,
            max_prefixes: Some(DEFAULT_MAX_PREFIXES_FOR_SUBJECT),
            min_prefixes: Some(DEFAULT_MIN_PREFIXES_FOR_SUBJECT),
        }
    }
}

/// The default heuristics: no glue, neither stubs nor very large networks.
pub open spec fn default_heuristics() -> SubjectHeuristics {
    SubjectHeuristics {
        exclude_glue: true,
        max_prefixes: Some(DEFAULT_MAX_PREFIXES_FOR_SUBJECT),
        min_prefixes: Some(DEFAULT_MIN_PREFIXES_FOR_SUBJECT),
    }
}

impl SubjectHeuristics {
    /// The heuristics admit a network as a subject.
    pub open spec fn admits(&self, asn: u32, glue: Set<u32>, prefix_count: Option<u32>) -> bool {
        &&& !(self.exclude_glue && glue.contains(asn))
        &&& prefix_count matches Some(n) ==> {
            &&& self.max_prefixes matches Some(max) ==> n <= max
            &&& self.min_prefixes matches Some(min) ==> n >= min
        }
    }

    /// Tells whether a network may be a subject.
    pub fn is_subject(&self, asn: u32, glue: &GlueSet, prefix_count: Option<u32>) -> (r: bool)
        ensures
            r == self.admits(asn, glue@, prefix_count),
    {
        if self.exclude_glue && glue.contains(asn) {
            return false;
        }
        if let Some(count) = prefix_count {
            if let Some(max) = self.max_prefixes {
                if count > max {
                    return false;
                }
            }
            if let Some(min) = self.min_prefixes {
                if count < min {
                    return false;
                }
            }
        }
        true
    }
}

/// Networks treated as transit, hyperscaler or CDN glue.
#[derive(Debug)]
pub struct GlueSet {
    asns: HashSet<u32>,
}

impl View for GlueSet {
    type V = Set<u32>;

    closed spec fn view(&self) -> Set<u32> {
        self.asns@
    }
}

/// The meaning of a line of a glue list.
pub enum GlueLine {
    Skipped,
    Asn(u32),
    Bad,
}

/// The meaning of a line: nothing where it is empty or a comment, else an ASN.
pub open spec fn glue_line(line: Seq<char>) -> GlueLine {
    let t = trimmed(line);
    if t.len() == 0 || t[0] == '#' {
        GlueLine::Skipped
    } else {
        match number_in(t, u32::MAX as nat) {
            Some(n) => GlueLine::Asn(n as u32),
            None => GlueLine::Bad,
        }
    }
}

/// The networks that lines name.
pub open spec fn glue_asns(lines: Seq<Seq<char>>) -> Set<u32> {
    Set::new(
        |a: u32|
            exists|i: int|
                0 <= i < lines.len() && glue_line(#[trigger] lines[i]) == GlueLine::Asn(a),
    )
}

/// The complaint about a line, counted from 1.
pub open spec fn bad_line_text(n: int, line: Seq<char>) -> Seq<char> {
    "line "@ + decimal(n as nat) + ": `"@ + trimmed(line) + "`"@
}

/// The networks of the starter list: hyperscalers, large transit and CDN networks.
pub open spec fn builtin_asns() -> Seq<u32> {
    seq![
        16509u32, 14618, 15169, 36040, 396982, 8075, 13335, 20940, 54113, 16625, 174, 209, 286,
        701, 1239, 1299, 2914, 3257, 3320, 3356, 3491, 6453, 6461, 6762, 6830, 7018, 3561, 7922,
        714, 32934, 13414, 2906,
    ]
}

impl GlueSet {
    /// A set without networks.
    pub fn new() -> (r: Self)
        ensures
            r@ == Set::<u32>::empty(),
    {
        GlueSet { asns: HashSet::new() }
    }

    /// The number of networks.
    pub fn len(&self) -> (r: usize)
        ensures
            r == self@.len(),
    {
        self.asns.len()
    }

    /// Tells whether there is no network.
    pub fn is_empty(&self) -> (r: bool)
        ensures
            r <==> self@ == Set::<u32>::empty(),
    {
        self.asns.is_empty()
    }

    /// Tells whether a network is glue.
    pub fn contains(&self, asn: u32) -> (r: bool)
        ensures
            r == self@.contains(asn),
    {
        self.asns.contains(&asn)
    }

    /// Adds a network.
    pub fn insert(&mut self, asn: u32)
        ensures
            final(self)@ == old(self)@.insert(asn),
    {
        self.asns.insert(asn);
    }

    /// The networks, each once.
    pub fn iter(&self) -> (r: Vec<u32>)
        ensures
            r@.no_duplicates(),
            r@.to_set() == self@,
    {
        set_items(&self.asns)
    }

    /// Reads a glue list: one ASN per line, `#` comments.
    pub fn from_text(text: &str) -> (r: Result<Self, MapError>)
        ensures
            match r {
                Ok(g) => g@ == glue_asns(lines_of(text@)) && forall|i: int|
                    0 <= i < lines_of(text@).len() ==> !(glue_line(
                        #[trigger] lines_of(text@)[i],
                    ) is Bad),
                Err(e) => exists|i: int|
                    #![trigger lines_of(text@)[i]]
                    {
                        &&& 0 <= i < lines_of(text@).len()
                        &&& glue_line(lines_of(text@)[i]) is Bad
                        &&& forall|j: int|
                            0 <= j < i ==> !(glue_line(#[trigger] lines_of(text@)[j]) is Bad)
                        &&& e matches MapError::InvalidAsn(t) && t@ == bad_line_text(
                            i + 1,
                            lines_of(text@)[i],
                        )
                    },
            },
    {
        let all = lines(text);
        let ghost ls = lines_of(text@);
        let mut set = GlueSet::new();
        let mut i: usize = 0;
        assert(glue_asns(ls.subrange(0, 0)) =~= Set::empty());
        while i < all.len()
            invariant
                texts(all@) == ls,
                ls == lines_of(text@),
                i <= all.len(),
                forall|j: int| 0 <= j < i ==> !(glue_line(#[trigger] ls[j]) is Bad),
                set@ == glue_asns(ls.subrange(0, i as int)),
            decreases all.len() - i,
        {
            assert(ls[i as int] == all@[i as int]@);
            let ghost done = ls.subrange(0, i as int);
            let ghost next = ls.subrange(0, i as int + 1);
            proof {
                assert(next =~= done.push(ls[i as int]));
                lemma_glue_push(done, ls[i as int]);
            }
            let line = trim(all[i].as_str());
            if !line.as_str().is_empty() && !starts_with_char(line.as_str(), '#') {
                match parse_u32(line.as_str()) {
                    Some(asn) => {
                        set.insert(asn);
                    },
                    None => {
                        let mut t: String = "line ".to_owned();
                        t.append(format_u64(i as u64 + 1).as_str());
                        t.append(": `");
                        t.append(line.as_str());
                        t.append("`");
                        assert(t@ == bad_line_text(i + 1, ls[i as int]));
                        return Err(MapError::InvalidAsn(t));
                    },
                }
            }
            i += 1;
        }
        assert(ls.subrange(0, ls.len() as int) =~= ls);
        Ok(set)
    }

    /// The starter list.
    pub fn builtin() -> (r: Self)
        ensures
            r@ == builtin_asns().to_set(),
    {
        let list: Vec<u32> = vec![
            16509, 14618, 15169, 36040, 396982, 8075, 13335, 20940, 54113, 16625, 174, 209, 286,
            701, 1239, 1299, 2914, 3257, 3320, 3356, 3491, 6453, 6461, 6762, 6830, 7018, 3561,
            7922, 714, 32934, 13414, 2906,
        ];
        assert(list@ =~= builtin_asns());
        let mut set = GlueSet::new();
        set.asns = collect_set(&list);
        set
    }
}

proof fn lemma_glue_push(done: Seq<Seq<char>>, line: Seq<char>)
    ensures
        glue_asns(done.push(line)) == (match glue_line(line) {
            GlueLine::Asn(a) => glue_asns(done).insert(a),
            _ => glue_asns(done),
        }),
{
    let all = done.push(line);
    let expect = match glue_line(line) {
        GlueLine::Asn(a) => glue_asns(done).insert(a),
        _ => glue_asns(done),
    };
    assert forall|a: u32| glue_asns(all).contains(a) <==> expect.contains(a) by {
        if glue_asns(done).contains(a) {
            let i = choose|i: int|
                0 <= i < done.len() && glue_line(#[trigger] done[i]) == GlueLine::Asn(a);
            assert(all[i] == done[i]);
        }
        if glue_line(line) == GlueLine::Asn(a) {
            assert(all[done.len() as int] == line);
        }
        if glue_asns(all).contains(a) {
            let i = choose|i: int|
                0 <= i < all.len() && glue_line(#[trigger] all[i]) == GlueLine::Asn(a);
            if i < done.len() {
                assert(done[i] == all[i]);
            }
        }
    }
    assert(glue_asns(all) =~= expect);
}

/// The glue list to use: the given one, else the starter list. An error names the first line that
/// holds no number.
pub fn load_glue(text: Option<&str>) -> (r: Result<GlueSet, MapError>)
    ensures
        text is None ==> (r matches Ok(g) && g@ == builtin_asns().to_set()),
        text matches Some(t) ==> match r {
            Ok(g) => g@ == glue_asns(lines_of(t@)) && forall|i: int|
                0 <= i < lines_of(t@).len() ==> !(glue_line(#[trigger] lines_of(t@)[i]) is Bad),
            Err(e) => exists|i: int|
                #![trigger lines_of(t@)[i]]
                {
                    &&& 0 <= i < lines_of(t@).len()
                    &&& glue_line(lines_of(t@)[i]) is Bad
                    &&& forall|j: int|
                        0 <= j < i ==> !(glue_line(#[trigger] lines_of(t@)[j]) is Bad)
                    &&& e matches MapError::InvalidAsn(w) && w@ == bad_line_text(
                        i + 1,
                        lines_of(t@)[i],
                    )
                },
        },
{
    match text {
        Some(t) => GlueSet::from_text(t),
        None => Ok(GlueSet::builtin()),
    }
}

/// The set of the numbers of a list.
pub fn collect_set(list: &[u32]) -> (r: HashSet<u32>)
    ensures
        r@ == list@.to_set(),
{
    let mut set: HashSet<u32> = HashSet::new();
    let mut i: usize = 0;
    assert(list@.subrange(0, 0).to_set() =~= Set::empty());
    while i < list.len()
        invariant
            i <= list.len(),
            set@ == list@.subrange(0, i as int).to_set(),
        decreases list.len() - i,
    {
        proof {
            let done = list@.subrange(0, i as int);
            let next = list@.subrange(0, i as int + 1);
            assert(next =~= done.push(list@[i as int]));
            assert(next.to_set() =~= done.to_set().insert(list@[i as int])) by {
                assert forall|x: u32| next.contains(x) <==> done.contains(x) || x
                    == list@[i as int] by {
                    lemma_seq_contains_after_push(done, list@[i as int], x);
                }
            }
        }
        set.insert(list[i]);
        i += 1;
    }
    assert(list@.subrange(0, list@.len() as int) =~= list@);
    set
}

/// The numbers of a set, each once.
pub fn set_items(set: &HashSet<u32>) -> (r: Vec<u32>)
    ensures
        r@.no_duplicates(),
        r@.to_set() == set@,
{
    let mut out: Vec<u32> = Vec::new();
    let it = set.iter();
    let ghost all = vstd::std_specs::iter::IteratorSpec::remaining(&it);
    for x in iter: it
        invariant
            out@.len() == iter.index(),
            iter.seq() == all,
            forall|k: int| 0 <= k < out@.len() ==> out@[k] == *all[k],
    {
        out.push(*x);
    }
    assert(out@ =~= all.unref());
    out
}

// ---- laws ----

/// A network is admitted as a subject just where it is no glue, as long as that is asked for, and
/// its number of prefixes, where it is known, is neither above the most nor below the least.
pub proof fn subjects_are_admitted_by_size(
    h: SubjectHeuristics,
    asn: u32,
    glue: Set<u32>,
    n: u32,
)
    ensures
        h.admits(asn, glue, None) <==> !h.exclude_glue || !glue.contains(asn),
        h.admits(asn, glue, Some(n)) <==> (!h.exclude_glue || !glue.contains(asn)) && (
        h.max_prefixes is None || n <= h.max_prefixes->0) && (h.min_prefixes is None || n
            >= h.min_prefixes->0),
        default_heuristics().exclude_glue,
        default_heuristics().max_prefixes == Some(5_000u32),
        default_heuristics().min_prefixes == Some(1u32),
{
}

/// A line of a glue list that is a number, with blanks around it or not, names that network; one
/// that is blank or begins with `#` names none; any other is refused.
pub proof fn glue_lines_name_networks(line: Seq<char>, asn: u32)
    ensures
        trimmed(line) == decimal(asn as nat) ==> glue_line(line) == GlueLine::Asn(asn),
        trimmed(line).len() == 0 || trimmed(line)[0] == '#' ==> glue_line(line)
            == GlueLine::Skipped,
        glue_line(line) is Bad <==> trimmed(line).len() > 0 && trimmed(line)[0] != '#' && number_in(
            trimmed(line),
            u32::MAX as nat,
        ) is None,
        glue_line(line) matches GlueLine::Asn(a) ==> number_in(trimmed(line), u32::MAX as nat)
            == Some(a as nat),
{
    parse_undoes_format(asn as nat, u32::MAX as nat);
    decimal_is_digits(asn as nat);
    if trimmed(line) == decimal(asn as nat) {
        assert(is_digit(trimmed(line)[0]));
    }
}

/// A list names a network just where one of its lines does.
pub proof fn glue_lists_name_what_their_lines_name(lines: Seq<Seq<char>>, asn: u32)
    ensures
        glue_asns(lines).contains(asn) <==> exists|i: int|
            0 <= i < lines.len() && trimmed(#[trigger] lines[i]).len() > 0 && trimmed(lines[i])[0]
                != '#' && number_in(trimmed(lines[i]), u32::MAX as nat) == Some(asn as nat),
{
    if glue_asns(lines).contains(asn) {
        let i = choose|i: int|
            0 <= i < lines.len() && glue_line(#[trigger] lines[i]) == GlueLine::Asn(asn);
        assert(trimmed(lines[i]).len() > 0);
    }
    if exists|i: int|
        0 <= i < lines.len() && trimmed(#[trigger] lines[i]).len() > 0 && trimmed(lines[i])[0]
            != '#' && number_in(trimmed(lines[i]), u32::MAX as nat) == Some(asn as nat) {
        let i = choose|i: int|
            0 <= i < lines.len() && trimmed(#[trigger] lines[i]).len() > 0 && trimmed(lines[i])[0]
                != '#' && number_in(trimmed(lines[i]), u32::MAX as nat) == Some(asn as nat);
        assert(glue_line(lines[i]) == GlueLine::Asn(asn));
    }
}

/// The starter list holds these networks, each once.
pub proof fn the_starter_list_holds_large_networks()
    ensures
        builtin_asns().no_duplicates(),
        builtin_asns().to_set() == set![
            174u32, 209, 286, 701, 714, 1239, 1299, 2906, 2914, 3257, 3320, 3356, 3491, 3561, 6453,
            6461, 6762, 6830, 7018, 7922, 8075, 13335, 13414, 14618, 15169, 16509, 16625, 20940,
            32934, 36040, 54113, 396982,
        ],
{
    let b = builtin_asns();
    let s = set![
        174u32, 209, 286, 701, 714, 1239, 1299, 2906, 2914, 3257, 3320, 3356, 3491, 3561, 6453,
        6461, 6762, 6830, 7018, 7922, 8075, 13335, 13414, 14618, 15169, 16509, 16625, 20940, 32934,
        36040, 54113, 396982,
    ];
    assert(b[0] == 16509 && b[1] == 14618 && b[2] == 15169 && b[3] == 36040 && b[4] == 396982
        && b[5] == 8075 && b[6] == 13335 && b[7] == 20940);
    assert(b[8] == 54113 && b[9] == 16625 && b[10] == 174 && b[11] == 209 && b[12] == 286 && b[13]
        == 701 && b[14] == 1239 && b[15] == 1299);
    assert(b[16] == 2914 && b[17] == 3257 && b[18] == 3320 && b[19] == 3356 && b[20] == 3491
        && b[21] == 6453 && b[22] == 6461 && b[23] == 6762);
    assert(b[24] == 6830 && b[25] == 7018 && b[26] == 3561 && b[27] == 7922 && b[28] == 714 && b[29]
        == 32934 && b[30] == 13414 && b[31] == 2906);
    assert forall|x: u32| b.to_set().contains(x) <==> s.contains(x) by {
        if b.contains(x) {
            let i = choose|i: int| 0 <= i < b.len() && b[i] == x;
        }
    }
    assert(b.to_set() =~= s);
}

/// The complaint about a line gives its number and the line without the blanks around it.
pub proof fn complaints_name_the_line(n: nat, line: Seq<char>)
    ensures
        bad_line_text(n as int, line) == "line "@ + decimal(n) + ": `"@ + trimmed(line) + "`"@,
{
}

} // verus!
