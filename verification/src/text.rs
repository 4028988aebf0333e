//! Text primitives over character sequences: whitespace, lines, fields, decimal numbers.

use vstd::prelude::*;
use vstd::string::StringExecFns;

verus! {

broadcast use vstd::string::group_string_axioms;

/// `String::push` of std: appends the given character to the end of the string.
pub assume_specification[ String::push ](s: &mut String, c: char)
    ensures
        final(s)@ == old(s)@.push(c),
;

/// Unicode `White_Space` characters.
pub open spec fn is_space(c: char) -> bool {
    ||| '\u{9}' <= c <= '\u{d}'
    ||| c == ' '
    ||| c == '\u{85}'
    ||| c == '\u{a0}'
    ||| c == '\u{1680}'
    ||| '\u{2000}' <= c <= '\u{200a}'
    ||| c == '\u{2028}'
    ||| c == '\u{2029}'
    ||| c == '\u{202f}'
    ||| c == '\u{205f}'
    ||| c == '\u{3000}'
}

/// Tells whether `c` is whitespace.
pub fn space(c: char) -> (r: bool)
    ensures
        r == is_space(c),
{
    ('\u{9}' <= c && c <= '\u{d}') || c == ' ' || c == '\u{85}' || c == '\u{a0}' || c == '\u{1680}'
        || ('\u{2000}' <= c && c <= '\u{200a}') || c == '\u{2028}' || c == '\u{2029}'
        || c == '\u{202f}' || c == '\u{205f}' || c == '\u{3000}'
}

/// The characters of `s`.
pub fn chars_of(s: &str) -> (r: Vec<char>)
    ensures
        r@ == s@,
{
    let mut it = s.chars();
    let mut out: Vec<char> = Vec::new();
    loop
        invariant
            vstd::std_specs::iter::IteratorSpec::obeys_prophetic_iter_laws(&it),
            out@ + vstd::std_specs::iter::IteratorSpec::remaining(&it) == s@,
            vstd::std_specs::iter::IteratorSpec::decrease(&it) is Some,
        ensures
            out@ == s@,
        decreases vstd::std_specs::iter::IteratorSpec::decrease(&it)->0,
    {
        let ghost before = vstd::std_specs::iter::IteratorSpec::remaining(&it);
        match it.next() {
            Some(c) => {
                proof {
                    assert(before == seq![c] + vstd::std_specs::iter::IteratorSpec::remaining(&it));
                    assert(out@.push(c) + vstd::std_specs::iter::IteratorSpec::remaining(&it) == out@ + before);
                }
                out.push(c);
            },
            None => {
                assert(out@ + before == out@);
                break;
            },
        }
    }
    out
}

/// The string made of `chars[from..to]`.
pub fn slice_text(chars: &[char], from: usize, to: usize) -> (r: String)
    requires
        from <= to <= chars.len(),
    ensures
        r@ == chars@.subrange(from as int, to as int),
{
    let mut out: String = String::new();
    let mut i: usize = from;
    while i < to
        invariant
            from <= i <= to <= chars.len(),
            out@ == chars@.subrange(from as int, i as int),
        decreases to - i,
    {
        out.push(chars[i]);
        i += 1;
    }
    out
}

/// Equality of two texts.
pub fn same_text(a: &str, b: &str) -> (r: bool)
    ensures
        r == (a@ == b@),
{
    a.to_owned() == b.to_owned()
}


// ---- trimming ----

/// `s` without its leading whitespace.
pub open spec fn trim_start(s: Seq<char>) -> Seq<char>
    decreases s.len(),
{
    if s.len() > 0 && is_space(s[0]) {
        trim_start(s.subrange(1, s.len() as int))
    } else {
        s
    }
}

/// `s` without its trailing whitespace.
pub open spec fn trim_end(s: Seq<char>) -> Seq<char>
    decreases s.len(),
{
    if s.len() > 0 && is_space(s.last()) {
        trim_end(s.drop_last())
    } else {
        s
    }
}

/// `s` without the whitespace at its two ends.
pub open spec fn trimmed(s: Seq<char>) -> Seq<char> {
    trim_end(trim_start(s))
}

/// Removes the whitespace at both ends of `s`.
pub fn trim(s: &str) -> (r: String)
    ensures
        r@ == trimmed(s@),
{
    let chars = chars_of(s);
    let mut from: usize = 0;
    assert(chars@.subrange(0, chars@.len() as int) =~= chars@);
    while from < chars.len() && space(chars[from])
        invariant
            from <= chars.len(),
            trim_start(chars@.subrange(from as int, chars@.len() as int)) == trim_start(chars@),
        decreases chars.len() - from,
    {
        proof {
            let rest = chars@.subrange(from as int, chars@.len() as int);
            assert(rest.subrange(1, rest.len() as int) =~= chars@.subrange(
                from as int + 1,
                chars@.len() as int,
            ));
        }
        from += 1;
    }
    let ghost body = chars@.subrange(from as int, chars@.len() as int);
    assert(trim_start(chars@) == body);
    let mut to: usize = chars.len();
    while to > from && space(chars[to - 1])
        invariant
            from <= to <= chars.len(),
            body == chars@.subrange(from as int, chars@.len() as int),
            trim_end(chars@.subrange(from as int, to as int)) == trim_end(body),
        decreases to,
    {
        proof {
            let rest = chars@.subrange(from as int, to as int);
            assert(rest.last() == chars@[to - 1]);
            assert(rest.drop_last() =~= chars@.subrange(from as int, to as int - 1));
        }
        to -= 1;
    }
    proof {
        let rest = chars@.subrange(from as int, to as int);
        if to > from {
            assert(rest.last() == chars@[to - 1]);
        }
    }
    slice_text(&chars, from, to)
}

// ---- prefixes and containment ----

/// `p` stands at the start of `s`.
pub open spec fn begins_with(s: Seq<char>, p: Seq<char>) -> bool {
    p.len() <= s.len() && s.subrange(0, p.len() as int) == p
}

/// `p` stands in `s` at position `i`.
pub open spec fn occurs_at(s: Seq<char>, p: Seq<char>, i: int) -> bool {
    0 <= i && i + p.len() <= s.len() && s.subrange(i, i + p.len()) == p
}

/// `p` stands somewhere in `s`.
pub open spec fn has_substring(s: Seq<char>, p: Seq<char>) -> bool {
    exists|i: int| occurs_at(s, p, i)
}

/// Tells whether `p` stands in `s` at position `at`.
fn matches_at(s: &[char], p: &[char], at: usize) -> (r: bool)
    requires
        at + p.len() <= s.len(),
    ensures
        r == occurs_at(s@, p@, at as int),
{
    let mut i: usize = 0;
    while i < p.len()
        invariant
            i <= p.len(),
            at + p.len() <= s.len(),
            forall|k: int| 0 <= k < i ==> s@[at + k] == p@[k],
        decreases p.len() - i,
    {
        if s[at + i] != p[i] {
            assert(s@.subrange(at as int, at + p@.len())[i as int] != p@[i as int]);
            return false;
        }
        i += 1;
    }
    assert(s@.subrange(at as int, at + p@.len()) =~= p@);
    true
}

/// Tells whether `s` begins with `p`.
pub fn starts_with(s: &str, p: &str) -> (r: bool)
    ensures
        r == begins_with(s@, p@),
{
    let sc = chars_of(s);
    let pc = chars_of(p);
    if pc.len() > sc.len() {
        return false;
    }
    matches_at(&sc, &pc, 0)
}

/// Tells whether the first character of `s` is `c`.
pub fn starts_with_char(s: &str, c: char) -> (r: bool)
    ensures
        r == (s@.len() > 0 && s@[0] == c),
{
    let sc = chars_of(s);
    sc.len() > 0 && sc[0] == c
}

/// Tells whether `p` stands anywhere in `s`.
pub fn contains(s: &str, p: &str) -> (r: bool)
    ensures
        r == has_substring(s@, p@),
{
    let sc = chars_of(s);
    let pc = chars_of(p);
    if pc.len() > sc.len() {
        return false;
    }
    let mut i: usize = 0;
    while i <= sc.len() - pc.len()
        invariant
            sc@ == s@,
            pc@ == p@,
            pc.len() <= sc.len(),
            i <= sc.len() - pc.len() + 1,
            forall|k: int| 0 <= k < i ==> !occurs_at(s@, p@, k),
        decreases sc.len() - i,
    {
        if matches_at(&sc, &pc, i) {
            return true;
        }
        if i == sc.len() - pc.len() {
            return false;
        }
        i += 1;
    }
    false
}

/// `s` with every leading repetition of `p` taken off.
pub open spec fn without_leading(s: Seq<char>, p: Seq<char>) -> Seq<char>
    decreases s.len(),
{
    if p.len() > 0 && begins_with(s, p) {
        without_leading(s.subrange(p.len() as int, s.len() as int), p)
    } else {
        s
    }
}

/// Takes every leading repetition of `p` off `s`.
pub fn trim_leading(s: &str, p: &str) -> (r: String)
    ensures
        r@ == without_leading(s@, p@),
{
    let sc = chars_of(s);
    let pc = chars_of(p);
    let mut from: usize = 0;
    if pc.len() == 0 {
        assert(sc@.subrange(0, sc@.len() as int) =~= sc@);
        return slice_text(&sc, 0, sc.len());
    }
    assert(sc@.subrange(0, sc@.len() as int) =~= sc@);
    loop
        invariant
            sc@ == s@,
            pc@ == p@,
            0 < pc.len(),
            from <= sc.len(),
            without_leading(sc@.subrange(from as int, sc@.len() as int), p@) == without_leading(
                s@,
                p@,
            ),
        ensures
            from <= sc.len(),
            sc@.subrange(from as int, sc@.len() as int) == without_leading(s@, p@),
        decreases sc.len() - from,
    {
        let ghost rest = sc@.subrange(from as int, sc@.len() as int);
        if pc.len() > sc.len() - from {
            break;
        }
        if !matches_at(&sc, &pc, from) {
            assert(rest.subrange(0, p@.len() as int) =~= sc@.subrange(
                from as int,
                from + p@.len(),
            ));
            break;
        }
        proof {
            assert(rest.subrange(0, p@.len() as int) =~= sc@.subrange(
                from as int,
                from + p@.len(),
            ));
            assert(rest.subrange(p@.len() as int, rest.len() as int) =~= sc@.subrange(
                from + p@.len(),
                sc@.len() as int,
            ));
        }
        from += pc.len();
    }
    slice_text(&sc, from, sc.len())
}

// ---- letters ----

/// The lower-case form of an ASCII letter; any other character as it is.
pub open spec fn lower_char(c: char) -> char {
    if 'A' <= c <= 'Z' {
        (c as u8 + 32) as char
    } else {
        c
    }
}

/// `s` with its ASCII letters in lower case.
pub open spec fn lowered(s: Seq<char>) -> Seq<char> {
    Seq::new(s.len(), |i: int| lower_char(s[i]))
}

fn lower_of(c: char) -> (r: char)
    ensures
        r == lower_char(c),
{
    if 'A' <= c && c <= 'Z' {
        ((c as u8) + 32) as char
    } else {
        c
    }
}

/// Puts the ASCII letters of `s` in lower case.
pub fn to_ascii_lower(s: &str) -> (r: String)
    ensures
        r@ == lowered(s@),
{
    let chars = chars_of(s);
    let mut out: String = String::new();
    let mut i: usize = 0;
    while i < chars.len()
        invariant
            chars@ == s@,
            i <= chars.len(),
            out@ == lowered(s@).subrange(0, i as int),
        decreases chars.len() - i,
    {
        out.push(lower_of(chars[i]));
        i += 1;
        assert(out@ =~= lowered(s@).subrange(0, i as int));
    }
    assert(out@ =~= lowered(s@));
    out
}

/// `s` with each `from` replaced by `to`.
pub open spec fn replaced(s: Seq<char>, from: char, to: char) -> Seq<char> {
    Seq::new(
        s.len(),
        |i: int|
            if s[i] == from {
                to
            } else {
                s[i]
            },
    )
}

/// Replaces each `from` in `s` by `to`.
pub fn replace_char(s: &str, from: char, to: char) -> (r: String)
    ensures
        r@ == replaced(s@, from, to),
{
    let chars = chars_of(s);
    let mut out: String = String::new();
    let mut i: usize = 0;
    while i < chars.len()
        invariant
            chars@ == s@,
            i <= chars.len(),
            out@ == replaced(s@, from, to).subrange(0, i as int),
        decreases chars.len() - i,
    {
        let c = chars[i];
        if c == from {
            out.push(to);
        } else {
            out.push(c);
        }
        i += 1;
        assert(out@ =~= replaced(s@, from, to).subrange(0, i as int));
    }
    assert(out@ =~= replaced(s@, from, to));
    out
}

// ---- fields ----

/// The views of a list of strings.
pub open spec fn texts(v: Seq<String>) -> Seq<Seq<char>> {
    Seq::new(v.len(), |i: int| v[i]@)
}

/// The pieces of `s` between occurrences of `sep`; always at least one piece.
pub open spec fn split_on(s: Seq<char>, sep: char) -> Seq<Seq<char>>
    decreases s.len(),
{
    if s.len() == 0 {
        seq![Seq::<char>::empty()]
    } else {
        let head = split_on(s.drop_last(), sep);
        if s.last() == sep {
            head.push(Seq::<char>::empty())
        } else {
            head.drop_last().push(head.last().push(s.last()))
        }
    }
}

/// The pieces of `s` between white-space characters.
pub open spec fn split_spaces(s: Seq<char>) -> Seq<Seq<char>>
    decreases s.len(),
{
    if s.len() == 0 {
        seq![Seq::<char>::empty()]
    } else {
        let head = split_spaces(s.drop_last());
        if is_space(s.last()) {
            head.push(Seq::<char>::empty())
        } else {
            head.drop_last().push(head.last().push(s.last()))
        }
    }
}

/// The words of `s`: the pieces between white-space characters that are not empty.
pub open spec fn words_of(s: Seq<char>) -> Seq<Seq<char>> {
    split_spaces(s).filter(|w: Seq<char>| w.len() > 0)
}

/// The words of `s`.
pub fn words(s: &str) -> (r: Vec<String>)
    ensures
        texts(r@) == words_of(s@),
{
    let chars = chars_of(s);
    let ghost pred = |w: Seq<char>| w.len() > 0;
    let mut out: Vec<String> = Vec::new();
    let mut cur: String = String::new();
    let mut fill: bool = false;
    let mut i: usize = 0;
    proof {
        reveal(Seq::filter);
        assert(split_spaces(s@.subrange(0, 0)).drop_last() =~= Seq::empty());
        assert(texts(out@) =~= Seq::empty());
    }
    while i < chars.len()
        invariant
            chars@ == s@,
            i <= chars.len(),
            pred == (|w: Seq<char>| w.len() > 0),
            fill == (cur@.len() > 0),
            split_spaces(s@.subrange(0, i as int)).len() > 0,
            split_spaces(s@.subrange(0, i as int)).last() == cur@,
            texts(out@) == split_spaces(s@.subrange(0, i as int)).drop_last().filter(pred),
        decreases chars.len() - i,
    {
        let c = chars[i];
        let ghost done = split_spaces(s@.subrange(0, i as int));
        proof {
            reveal(Seq::filter);
            let next = s@.subrange(0, i as int + 1);
            assert(next.drop_last() =~= s@.subrange(0, i as int));
            assert(next.last() == c);
        }
        if space(c) {
            let ghost before = out@;
            let ghost piece = cur@;
            assert(split_spaces(s@.subrange(0, i as int + 1)).drop_last() =~= done);
            if fill {
                out.push(cur);
                assert(texts(out@) =~= texts(before).push(piece));
            }
            cur = String::new();
            fill = false;
        } else {
            assert(split_spaces(s@.subrange(0, i as int + 1)).drop_last() =~= done.drop_last());
            cur.push(c);
            fill = true;
        }
        i += 1;
    }
    let ghost before = out@;
    let ghost piece = cur@;
    proof {
        reveal(Seq::filter);
        assert(s@.subrange(0, chars@.len() as int) =~= s@);
    }
    if fill {
        out.push(cur);
        assert(texts(out@) =~= texts(before).push(piece));
    }
    out
}

/// What stands behind the prefix `p` of `s`, where it is one.
pub open spec fn without_prefix(s: Seq<char>, p: Seq<char>) -> Option<Seq<char>> {
    if begins_with(s, p) {
        Some(s.subrange(p.len() as int, s.len() as int))
    } else {
        None
    }
}

/// What stands behind the prefix `p` of `s`, where it is one.
pub fn strip_prefix(s: &str, p: &str) -> (r: Option<String>)
    ensures
        match r {
            Some(t) => without_prefix(s@, p@) == Some(t@),
            None => without_prefix(s@, p@) is None,
        },
{
    if !starts_with(s, p) {
        return None;
    }
    let sc = chars_of(s);
    let n: usize = chars_of(p).len();
    Some(slice_text(&sc, n, sc.len()))
}

/// What stands before the suffix `p` of `s`, where it is one.
pub open spec fn without_suffix(s: Seq<char>, p: Seq<char>) -> Option<Seq<char>> {
    if p.len() <= s.len() && s.subrange(s.len() - p.len(), s.len() as int) == p {
        Some(s.subrange(0, s.len() - p.len()))
    } else {
        None
    }
}

/// What stands before the suffix `p` of `s`, where it is one.
pub fn strip_suffix(s: &str, p: &str) -> (r: Option<String>)
    ensures
        match r {
            Some(t) => without_suffix(s@, p@) == Some(t@),
            None => without_suffix(s@, p@) is None,
        },
{
    let sc = chars_of(s);
    let n: usize = chars_of(p).len();
    if n > sc.len() {
        return None;
    }
    let tail = slice_text(&sc, sc.len() - n, sc.len());
    if same_text(tail.as_str(), p) {
        Some(slice_text(&sc, 0, sc.len() - n))
    } else {
        None
    }
}

/// `parts` put together with `sep` between neighbours.
pub open spec fn joined(parts: Seq<Seq<char>>, sep: Seq<char>) -> Seq<char>
    decreases parts.len(),
{
    if parts.len() == 0 {
        Seq::<char>::empty()
    } else if parts.len() == 1 {
        parts[0]
    } else {
        joined(parts.drop_last(), sep) + sep + parts.last()
    }
}

/// Splitting gives at least one piece.
pub proof fn lemma_split_nonempty(s: Seq<char>, sep: char)
    ensures
        split_on(s, sep).len() >= 1,
    decreases s.len(),
{
    if s.len() > 0 {
        lemma_split_nonempty(s.drop_last(), sep);
    }
}

/// Splits `s` at each `sep`.
pub fn split_char(s: &str, sep: char) -> (r: Vec<String>)
    ensures
        texts(r@) == split_on(s@, sep),
{
    let chars = chars_of(s);
    let mut out: Vec<String> = Vec::new();
    let mut cur: String = String::new();
    let mut i: usize = 0;
    while i < chars.len()
        invariant
            chars@ == s@,
            i <= chars.len(),
            texts(out@).push(cur@) == split_on(s@.subrange(0, i as int), sep),
        decreases chars.len() - i,
    {
        let c = chars[i];
        proof {
            let next = s@.subrange(0, i as int + 1);
            assert(next.drop_last() =~= s@.subrange(0, i as int));
            assert(next.last() == c);
        }
        if c == sep {
            let ghost before = out@;
            let ghost piece = cur@;
            out.push(cur);
            cur = String::new();
            assert(texts(out@) =~= texts(before).push(piece));
        } else {
            let ghost head = texts(out@).push(cur@);
            cur.push(c);
            assert(head.drop_last() =~= texts(out@));
        }
        i += 1;
    }
    let ghost before = out@;
    let ghost piece = cur@;
    out.push(cur);
    proof {
        assert(texts(out@) =~= texts(before).push(piece));
        assert(s@.subrange(0, chars@.len() as int) =~= s@);
    }
    out
}

/// Puts `parts` together with `sep` between neighbours.
pub fn join(parts: &[String], sep: &str) -> (r: String)
    ensures
        r@ == joined(texts(parts@), sep@),
{
    let mut out: String = String::new();
    let mut i: usize = 0;
    while i < parts.len()
        invariant
            i <= parts.len(),
            out@ == joined(texts(parts@).subrange(0, i as int), sep@),
        decreases parts.len() - i,
    {
        proof {
            let next = texts(parts@).subrange(0, i as int + 1);
            assert(next.drop_last() =~= texts(parts@).subrange(0, i as int));
            assert(next.last() == parts@[i as int]@);
        }
        if i > 0 {
            out.append(sep);
        }
        out.append(parts[i].as_str());
        i += 1;
        proof {
            if i == 1 {
                assert(out@ =~= parts@[0]@);
            }
        }
    }
    assert(texts(parts@).subrange(0, parts@.len() as int) =~= texts(parts@));
    out
}

/// Appending text without the separator to a text only extends its last piece.
proof fn lemma_split_append_plain(s: Seq<char>, t: Seq<char>, sep: char)
    requires
        !t.contains(sep),
    ensures
        split_on(s + t, sep) == split_on(s, sep).drop_last().push(split_on(s, sep).last() + t),
    decreases t.len(),
{
    lemma_split_nonempty(s, sep);
    if t.len() == 0 {
        assert(s + t =~= s);
        assert(split_on(s, sep).last() + t =~= split_on(s, sep).last());
        assert(split_on(s, sep) =~= split_on(s, sep).drop_last().push(split_on(s, sep).last()));
    } else {
        let u = t.drop_last();
        assert(!u.contains(sep)) by {
            if u.contains(sep) {
                let i = choose|i: int| 0 <= i < u.len() && u[i] == sep;
                assert(t[i] == sep);
            }
        }
        lemma_split_append_plain(s, u, sep);
        assert((s + t).drop_last() =~= s + u);
        assert((s + t).last() == t.last());
        assert(t.last() != sep) by {
            assert(t[t.len() - 1] == t.last());
        }
        let head = split_on(s + u, sep);
        assert(head.drop_last() =~= split_on(s, sep).drop_last());
        assert(head.last() =~= split_on(s, sep).last() + u);
        assert(head.last().push(t.last()) =~= split_on(s, sep).last() + t);
    }
}

/// Splitting what was joined gives the parts back, when there is a part and no part
/// holds the separator.
pub proof fn split_undoes_join(parts: Seq<Seq<char>>, sep: char)
    requires
        parts.len() > 0,
        forall|i: int| 0 <= i < parts.len() ==> !(#[trigger] parts[i]).contains(sep),
    ensures
        split_on(joined(parts, seq![sep]), sep) == parts,
    decreases parts.len(),
{
    let empty = Seq::<char>::empty();
    if parts.len() == 1 {
        lemma_split_append_plain(empty, parts[0], sep);
        assert(empty + parts[0] =~= parts[0]);
        assert(split_on(empty, sep) =~= seq![empty]);
        assert(split_on(parts[0], sep) =~= parts);
    } else {
        let head = parts.drop_last();
        split_undoes_join(head, sep);
        let j = joined(head, seq![sep]);
        let js = j + seq![sep];
        assert(js.drop_last() =~= j);
        assert(split_on(js, sep) == head.push(empty));
        assert(!parts[parts.len() - 1].contains(sep));
        lemma_split_append_plain(js, parts.last(), sep);
        assert(empty + parts.last() =~= parts.last());
        assert(split_on(js, sep).drop_last() =~= head);
        assert(head.push(parts.last()) =~= parts);
    }
}

/// Joining the pieces of a text gives the text back.
pub proof fn join_undoes_split(s: Seq<char>, sep: char)
    ensures
        joined(split_on(s, sep), seq![sep]) == s,
    decreases s.len(),
{
    if s.len() > 0 {
        join_undoes_split(s.drop_last(), sep);
        lemma_split_nonempty(s.drop_last(), sep);
        let head = split_on(s.drop_last(), sep);
        if s.last() == sep {
            let all = head.push(Seq::<char>::empty());
            assert(all.drop_last() =~= head);
            assert(joined(all, seq![sep]) =~= s.drop_last() + seq![sep]);
            assert(s.drop_last() + seq![sep] =~= s);
        } else {
            let all = head.drop_last().push(head.last().push(s.last()));
            assert(all.drop_last() =~= head.drop_last());
            if head.len() == 1 {
                assert(joined(all, seq![sep]) =~= s);
            } else {
                assert(joined(all, seq![sep]) =~= joined(head, seq![sep]).push(s.last()));
            }
            assert(s.drop_last().push(s.last()) =~= s);
        }
    } else {
        assert(joined(split_on(s, sep), seq![sep]) =~= s);
    }
}

// ---- lines ----

/// A line without the carriage return that ends it, if one does.
pub open spec fn without_cr(s: Seq<char>) -> Seq<char> {
    if s.len() > 0 && s.last() == '\r' {
        s.drop_last()
    } else {
        s
    }
}

/// The lines of a text: pieces that end in `\n` or `\r\n`, and a last one that need not.
pub open spec fn lines_of(s: Seq<char>) -> Seq<Seq<char>> {
    let pieces = split_on(s, '\n');
    let ended = Seq::new((pieces.len() - 1) as nat, |i: int| without_cr(pieces[i]));
    if pieces.last().len() == 0 {
        ended
    } else {
        ended.push(pieces.last())
    }
}

/// Splits a text into lines.
pub fn lines(s: &str) -> (r: Vec<String>)
    ensures
        texts(r@) == lines_of(s@),
{
    let pieces = split_char(s, '\n');
    proof {
        lemma_split_nonempty(s@, '\n');
        assert(texts(pieces@).len() == pieces@.len());
    }
    let mut out: Vec<String> = Vec::new();
    let n: usize = pieces.len();
    let mut i: usize = 0;
    while i < n - 1
        invariant
            1 <= n == pieces.len(),
            i <= n - 1,
            texts(pieces@) == split_on(s@, '\n'),
            out.len() == i,
            forall|k: int|
                0 <= k < i ==> (#[trigger] out@[k])@ == without_cr(split_on(s@, '\n')[k]),
        decreases n - i,
    {
        let chars = chars_of(pieces[i].as_str());
        assert(chars@ == split_on(s@, '\n')[i as int]);
        let len: usize = chars.len();
        if len > 0 && chars[len - 1] == '\r' {
            let line = slice_text(&chars, 0, len - 1);
            assert(line@ =~= without_cr(chars@));
            out.push(line);
        } else {
            let line = slice_text(&chars, 0, len);
            assert(line@ =~= without_cr(chars@));
            out.push(line);
        }
        i += 1;
    }
    assert(texts(pieces@).last() == pieces@[n - 1]@);
    let last = pieces[n - 1].clone();
    let ghost ended = out@;
    if !last.as_str().is_empty() {
        out.push(last);
    }
    assert(texts(out@) =~= lines_of(s@));
    out
}

// ---- decimal numbers ----

/// `c` is an ASCII digit.
pub open spec fn is_digit(c: char) -> bool {
    '0' <= c <= '9'
}

/// Every character of `s` is an ASCII digit.
pub open spec fn all_digits(s: Seq<char>) -> bool {
    forall|i: int| 0 <= i < s.len() ==> is_digit(#[trigger] s[i])
}

/// The number that a sequence of digits spells.
pub open spec fn digits_value(s: Seq<char>) -> nat
    decreases s.len(),
{
    if s.len() == 0 {
        0
    } else {
        digits_value(s.drop_last()) * 10 + (s.last() as int - '0' as int) as nat
    }
}

/// `s` without one leading `+`.
pub open spec fn without_plus(s: Seq<char>) -> Seq<char> {
    if s.len() > 0 && s[0] == '+' {
        s.subrange(1, s.len() as int)
    } else {
        s
    }
}

/// The number that `s` spells, where it is one no larger than `max`: digits, at least
/// one, behind an optional `+`.
pub open spec fn number_in(s: Seq<char>, max: nat) -> Option<nat> {
    let d = without_plus(s);
    if d.len() > 0 && all_digits(d) && digits_value(d) <= max {
        Some(digits_value(d))
    } else {
        None
    }
}

/// The decimal form of a number.
pub open spec fn decimal(n: nat) -> Seq<char>
    decreases n,
{
    let d = (n % 10 + 48) as char;
    if n < 10 {
        seq![d]
    } else {
        decimal(n / 10).push(d)
    }
}

/// The decimal forms of numbers.
pub open spec fn decimals(v: Seq<nat>) -> Seq<Seq<char>> {
    Seq::new(v.len(), |i: int| decimal(v[i]))
}

/// The decimal form of a number with a sign where it is negative.
pub open spec fn signed_decimal(n: int) -> Seq<char> {
    if n < 0 {
        seq!['-'] + decimal((-n) as nat)
    } else {
        decimal(n as nat)
    }
}

proof fn lemma_value_grows(s: Seq<char>, i: int)
    requires
        all_digits(s),
        0 <= i <= s.len(),
    ensures
        digits_value(s.subrange(0, i)) <= digits_value(s),
    decreases s.len() - i,
{
    if i == s.len() {
        assert(s.subrange(0, i) =~= s);
    } else {
        lemma_value_grows(s, i + 1);
        assert(s.subrange(0, i + 1).drop_last() =~= s.subrange(0, i));
        assert(is_digit(s[i]));
    }
}

/// Tells whether every character of `s` is an ASCII digit.
pub fn is_decimal(s: &str) -> (r: bool)
    ensures
        r == all_digits(s@),
{
    let chars = chars_of(s);
    let mut i: usize = 0;
    while i < chars.len()
        invariant
            chars@ == s@,
            i <= chars.len(),
            forall|k: int| 0 <= k < i ==> is_digit(#[trigger] chars@[k]),
        decreases chars.len() - i,
    {
        let c = chars[i];
        if !('0' <= c && c <= '9') {
            assert(!is_digit(s@[i as int]));
            return false;
        }
        i += 1;
    }
    true
}

/// Reads a number no larger than `max`.
pub fn parse_up_to(s: &str, max: u64) -> (r: Option<u64>)
    ensures
        match r {
            Some(n) => number_in(s@, max as nat) == Some(n as nat),
            None => number_in(s@, max as nat) is None,
        },
{
    let chars = chars_of(s);
    let mut i: usize = 0;
    if chars.len() > 0 && chars[0] == '+' {
        i = 1;
    }
    let ghost start = i as int;
    let ghost d = without_plus(s@);
    assert(d =~= s@.subrange(start, s@.len() as int));
    if i == chars.len() {
        return None;
    }
    let mut n: u64 = 0;
    while i < chars.len()
        invariant
            chars@ == s@,
            0 <= start <= i <= chars.len(),
            start < s@.len(),
            d == without_plus(s@),
            d == s@.subrange(start, s@.len() as int),
            n <= max,
            all_digits(d.subrange(0, i - start)),
            n == digits_value(d.subrange(0, i - start)),
        decreases chars.len() - i,
    {
        let c = chars[i];
        assert(d[i - start] == c);
        if !('0' <= c && c <= '9') {
            assert(!is_digit(d[i - start]));
            return None;
        }
        let v: u64 = (c as u32 - 48) as u64;
        let ghost next = d.subrange(0, i - start + 1);
        proof {
            assert(next.drop_last() =~= d.subrange(0, i - start));
            assert(next.last() == c);
            assert(all_digits(next)) by {
                assert forall|k: int| 0 <= k < next.len() implies is_digit(#[trigger] next[k]) by {
                    if k < i - start {
                        assert(is_digit(d.subrange(0, i - start)[k]));
                    }
                }
            }
        }
        if n as u128 * 10 + v as u128 > max as u128 {
            proof {
                if all_digits(d) {
                    lemma_value_grows(d, i - start + 1);
                }
            }
            return None;
        }
        n = n * 10 + v;
        i += 1;
    }
    assert(d.subrange(0, i - start) =~= d);
    Some(n)
}

/// Reads a `u64`.
pub fn parse_u64(s: &str) -> (r: Option<u64>)
    ensures
        match r {
            Some(n) => number_in(s@, u64::MAX as nat) == Some(n as nat),
            None => number_in(s@, u64::MAX as nat) is None,
        },
{
    parse_up_to(s, u64::MAX)
}

/// Reads a `u32`.
pub fn parse_u32(s: &str) -> (r: Option<u32>)
    ensures
        match r {
            Some(n) => number_in(s@, u32::MAX as nat) == Some(n as nat),
            None => number_in(s@, u32::MAX as nat) is None,
        },
{
    match parse_up_to(s, u32::MAX as u64) {
        Some(n) => Some(n as u32),
        None => None,
    }
}

/// Reads a `u8`.
pub fn parse_u8(s: &str) -> (r: Option<u8>)
    ensures
        match r {
            Some(n) => number_in(s@, u8::MAX as nat) == Some(n as nat),
            None => number_in(s@, u8::MAX as nat) is None,
        },
{
    match parse_up_to(s, u8::MAX as u64) {
        Some(n) => Some(n as u8),
        None => None,
    }
}

fn push_decimal(out: &mut String, n: u64)
    ensures
        final(out)@ == old(out)@ + decimal(n as nat),
    decreases n,
{
    let ghost start = out@;
    if n >= 10 {
        push_decimal(out, n / 10);
    }
    let d: char = ((n % 10) as u8 + 48) as char;
    out.push(d);
    assert(out@ =~= start + decimal(n as nat));
}

/// Writes a number in decimal.
pub fn format_u64(n: u64) -> (r: String)
    ensures
        r@ == decimal(n as nat),
{
    let mut out: String = String::new();
    push_decimal(&mut out, n);
    assert(out@ =~= decimal(n as nat));
    out
}

/// Writes a signed number in decimal.
pub fn format_i64(n: i64) -> (r: String)
    ensures
        r@ == signed_decimal(n as int),
{
    let mut out: String = String::new();
    if n < 0 {
        out.push('-');
        let m: u64 = (-(n as i128)) as u64;
        push_decimal(&mut out, m);
        assert(out@ =~= signed_decimal(n as int));
    } else {
        push_decimal(&mut out, n as u64);
        assert(out@ =~= signed_decimal(n as int));
    }
    out
}

proof fn lemma_decimal(n: nat)
    ensures
        decimal(n).len() > 0,
        all_digits(decimal(n)),
        digits_value(decimal(n)) == n,
    decreases n,
{
    let d = (n % 10 + 48) as char;
    assert(is_digit(d));
    if n >= 10 {
        lemma_decimal(n / 10);
        assert(decimal(n).drop_last() =~= decimal(n / 10));
        assert forall|i: int| 0 <= i < decimal(n).len() implies is_digit(
            #[trigger] decimal(n)[i],
        ) by {
            if i < decimal(n / 10).len() {
                assert(is_digit(decimal(n / 10)[i]));
            }
        }
    } else {
        assert(decimal(n).drop_last() =~= Seq::<char>::empty());
        assert(digits_value(Seq::<char>::empty()) == 0);
    }
}

/// A number read back from its decimal form is the number.
pub proof fn parse_undoes_format(n: nat, max: nat)
    requires
        n <= max,
    ensures
        number_in(decimal(n), max) == Some(n),
{
    lemma_decimal(n);
    assert(is_digit(decimal(n)[0]));
}

/// Different numbers have different decimal forms.
pub proof fn decimal_injective(a: nat, b: nat)
    requires
        decimal(a) == decimal(b),
    ensures
        a == b,
{
    lemma_decimal(a);
    lemma_decimal(b);
}

/// A decimal form holds digits only.
pub proof fn decimal_is_digits(n: nat)
    ensures
        decimal(n).len() > 0,
        all_digits(decimal(n)),
{
    lemma_decimal(n);
}

// ---- order ----

/// Text order: by the first character that differs, a text before its extensions.
pub open spec fn text_less(a: Seq<char>, b: Seq<char>) -> bool
    decreases a.len(),
{
    if b.len() == 0 {
        false
    } else if a.len() == 0 {
        true
    } else if a[0] != b[0] {
        a[0] < b[0]
    } else {
        text_less(a.subrange(1, a.len() as int), b.subrange(1, b.len() as int))
    }
}

/// Tells whether `a` stands before `b` in text order.
pub fn less_text(a: &str, b: &str) -> (r: bool)
    ensures
        r == text_less(a@, b@),
{
    let ac = chars_of(a);
    let bc = chars_of(b);
    let mut i: usize = 0;
    assert(a@.subrange(0, a@.len() as int) =~= a@);
    assert(b@.subrange(0, b@.len() as int) =~= b@);
    while i < ac.len() && i < bc.len()
        invariant
            ac@ == a@,
            bc@ == b@,
            i <= ac.len(),
            i <= bc.len(),
            text_less(
                a@.subrange(i as int, a@.len() as int),
                b@.subrange(i as int, b@.len() as int),
            ) == text_less(a@, b@),
        decreases ac.len() - i,
    {
        let ghost ra = a@.subrange(i as int, a@.len() as int);
        let ghost rb = b@.subrange(i as int, b@.len() as int);
        if ac[i] != bc[i] {
            assert(ra[0] == ac@[i as int] && rb[0] == bc@[i as int]);
            return ac[i] < bc[i];
        }
        proof {
            assert(ra[0] == rb[0]);
            assert(ra.subrange(1, ra.len() as int) =~= a@.subrange(i as int + 1, a@.len() as int));
            assert(rb.subrange(1, rb.len() as int) =~= b@.subrange(i as int + 1, b@.len() as int));
        }
        i += 1;
    }
    i < bc.len()
}

/// No text is before itself.
pub proof fn text_less_irreflexive(a: Seq<char>)
    ensures
        !text_less(a, a),
    decreases a.len(),
{
    if a.len() > 0 {
        text_less_irreflexive(a.subrange(1, a.len() as int));
    }
}

/// Text order is transitive.
pub proof fn text_less_transitive(a: Seq<char>, b: Seq<char>, c: Seq<char>)
    requires
        text_less(a, b),
        text_less(b, c),
    ensures
        text_less(a, c),
    decreases a.len(),
{
    if a.len() > 0 && a[0] == b[0] && b[0] == c[0] {
        text_less_transitive(
            a.subrange(1, a.len() as int),
            b.subrange(1, b.len() as int),
            c.subrange(1, c.len() as int),
        );
    }
}

/// Of two texts that differ one is before the other.
pub proof fn text_less_total(a: Seq<char>, b: Seq<char>)
    ensures
        text_less(a, b) || text_less(b, a) || a == b,
    decreases a.len(),
{
    if a.len() == 0 && b.len() == 0 {
        assert(a =~= b);
    } else if a.len() > 0 && b.len() > 0 && a[0] == b[0] {
        let ra = a.subrange(1, a.len() as int);
        let rb = b.subrange(1, b.len() as int);
        text_less_total(ra, rb);
        if ra == rb {
            assert(a =~= seq![a[0]] + ra);
            assert(b =~= seq![b[0]] + rb);
        }
    }
}

// ---- laws ----

proof fn lemma_trim_start(s: Seq<char>) -> (i: int)
    ensures
        0 <= i <= s.len(),
        trim_start(s) == s.subrange(i, s.len() as int),
        forall|k: int| 0 <= k < i ==> is_space(#[trigger] s[k]),
        i < s.len() ==> !is_space(s[i]),
    decreases s.len(),
{
    if s.len() > 0 && is_space(s[0]) {
        let t = s.subrange(1, s.len() as int);
        let i = lemma_trim_start(t);
        assert(t.subrange(i, t.len() as int) =~= s.subrange(i + 1, s.len() as int));
        assert forall|k: int| 0 <= k < i + 1 implies is_space(#[trigger] s[k]) by {
            if k > 0 {
                assert(s[k] == t[k - 1]);
            }
        }
        if i + 1 < s.len() {
            assert(t[i] == s[i + 1]);
        }
        i + 1
    } else {
        assert(s.subrange(0, s.len() as int) =~= s);
        0
    }
}

proof fn lemma_trim_end(s: Seq<char>) -> (j: int)
    ensures
        0 <= j <= s.len(),
        trim_end(s) == s.subrange(0, j),
        forall|k: int| j <= k < s.len() ==> is_space(#[trigger] s[k]),
        j > 0 ==> !is_space(s[j - 1]),
    decreases s.len(),
{
    if s.len() > 0 && is_space(s.last()) {
        let t = s.drop_last();
        let j = lemma_trim_end(t);
        assert(t.subrange(0, j) =~= s.subrange(0, j));
        assert forall|k: int| j <= k < s.len() implies is_space(#[trigger] s[k]) by {
            if k < t.len() {
                assert(s[k] == t[k]);
            }
        }
        j
    } else {
        assert(s.subrange(0, s.len() as int) =~= s);
        s.len() as int
    }
}

/// Trimming takes blanks off the two ends and nothing else, until there is none left to take.
pub proof fn trimming_takes_blanks_off_the_ends(s: Seq<char>)
    ensures
        exists|i: int, j: int|
            0 <= i <= j <= s.len() && trimmed(s) == #[trigger] s.subrange(i, j) && (forall|k: int|
                0 <= k < i || j <= k < s.len() ==> is_space(#[trigger] s[k])),
        trimmed(s).len() > 0 ==> !is_space(trimmed(s)[0]) && !is_space(trimmed(s).last()),
        trimmed(trimmed(s)) == trimmed(s),
        forall|k: int|
            0 <= k < s.len() && !is_space(#[trigger] s[k]) ==> trimmed(s).contains(s[k]),
{
    let i = lemma_trim_start(s);
    let t = trim_start(s);
    let j = lemma_trim_end(t);
    assert(t.subrange(0, j) =~= s.subrange(i, i + j));
    assert forall|k: int| 0 <= k < i || i + j <= k < s.len() implies is_space(
        #[trigger] s[k],
    ) by {
        if k >= i + j {
            assert(t[k - i] == s[k]);
        }
    }
    let r = trimmed(s);
    assert(r == s.subrange(i, i + j));
    if r.len() > 0 {
        assert(r[0] == s[i]);
        assert(r.last() == t[j - 1]);
    }
    assert(trim_start(r) == r);
    assert(trim_end(r) == r);
    assert forall|k: int| 0 <= k < s.len() && !is_space(#[trigger] s[k]) implies r.contains(
        s[k],
    ) by {
        assert(i <= k < i + j);
        assert(r[k - i] == s[k]);
    }
}

/// Blanks are the space, the tab and the ends of lines; letters, digits and the punctuation of
/// names, numbers and prefixes are none.
pub proof fn blanks_are_blanks(c: char)
    ensures
        c == ' ' || c == '\t' || c == '\n' || c == '\r' ==> is_space(c),
        '!' <= c <= '~' ==> !is_space(c),
{
}

/// The letters `A` to `Z` become those 32 places on, `a` to `z`, and nothing else changes.
pub proof fn lowering_changes_capitals_only(s: Seq<char>, i: int)
    requires
        0 <= i < s.len(),
    ensures
        lowered(s).len() == s.len(),
        'A' <= s[i] <= 'Z' ==> lowered(s)[i] as int == s[i] as int + 32,
        !('A' <= s[i] <= 'Z') ==> lowered(s)[i] == s[i],
        lowered(lowered(s)) == lowered(s),
{
    assert forall|k: int| 0 <= k < s.len() implies lower_char(lower_char(s[k])) == lower_char(
        s[k],
    ) by {
        let c = s[k];
        if 'A' <= c <= 'Z' {
            assert(lower_char(c) as int == c as int + 32);
        }
    }
    assert(lowered(lowered(s)) =~= lowered(s));
}

/// No piece holds what the text was split at, and there is one piece more than separators.
pub proof fn pieces_hold_no_separator(s: Seq<char>, sep: char)
    ensures
        forall|i: int| 0 <= i < split_on(s, sep).len() ==> !(#[trigger] split_on(s, sep)[i]).contains(
            sep,
        ),
        split_on(s, sep).len() == 1 + s.filter(|c: char| c == sep).len(),
    decreases s.len(),
{
    reveal(Seq::filter);
    if s.len() > 0 {
        let rest = s.drop_last();
        let head = split_on(rest, sep);
        pieces_hold_no_separator(rest, sep);
        lemma_split_nonempty(rest, sep);
        let all = split_on(s, sep);
        assert forall|i: int| 0 <= i < all.len() implies !(#[trigger] all[i]).contains(sep) by {
            if s.last() == sep {
                if i < head.len() {
                    assert(all[i] == head[i]);
                }
            } else if i < head.len() - 1 {
                assert(all[i] == head[i]);
            } else {
                let piece = head[head.len() - 1];
                assert(!piece.contains(sep));
                if all[i].contains(sep) {
                    let k = choose|k: int| 0 <= k < all[i].len() && all[i][k] == sep;
                    assert(piece[k] == sep);
                }
            }
        }
    }
}

/// Lines that hold no end of a line, each followed by one, are read back; so are they where the
/// last one lacks it, unless it is empty.
pub proof fn lines_read_back(lines: Seq<Seq<char>>)
    requires
        lines.len() > 0,
        forall|i: int|
            0 <= i < lines.len() ==> !(#[trigger] lines[i]).contains('\n') && (lines[i].len() > 0
                ==> lines[i].last() != '\r'),
    ensures
        lines_of(joined(lines, seq!['\n']) + seq!['\n']) == lines,
        lines.last().len() > 0 ==> lines_of(joined(lines, seq!['\n'])) == lines,
{
    let s = joined(lines, seq!['\n']);
    let t = s + seq!['\n'];
    split_undoes_join(lines, '\n');
    assert(t.drop_last() =~= s);
    assert(split_on(t, '\n') == lines.push(Seq::<char>::empty()));
    assert(lines_of(t) =~= lines);
    if lines.last().len() > 0 {
        assert(lines_of(s) =~= lines);
    }
}

/// A number is read with any zeros or one `+` before it, and just where it is no larger than the
/// most that fits.
pub proof fn numbers_read_with_zeros_and_a_plus(n: nat, max: nat)
    ensures
        number_in(decimal(n), max) == (if n <= max {
            Some(n)
        } else {
            None
        }),
        number_in(seq!['+'] + decimal(n), max) == number_in(decimal(n), max),
        number_in(seq!['0'] + decimal(n), max) == number_in(decimal(n), max),
        number_in(seq!['-'] + decimal(n), max) is None,
        number_in(Seq::empty(), max) is None,
{
    let d = decimal(n);
    lemma_decimal(n);
    assert((seq!['+'] + d).subrange(1, d.len() as int + 1) =~= d);
    assert(is_digit(d[0]));
    let z = seq!['0'] + d;
    assert(z.len() > 0 && z[0] == '0');
    assert forall|i: int| 0 <= i < z.len() implies is_digit(#[trigger] z[i]) by {
        if i > 0 {
            assert(z[i] == d[i - 1]);
        }
    }
    lemma_zero_first(d);
    let m = seq!['-'] + d;
    assert(m[0] == '-');
    assert(!is_digit(m[0]));
}

proof fn lemma_zero_first(d: Seq<char>)
    ensures
        digits_value(seq!['0'] + d) == digits_value(d),
    decreases d.len(),
{
    let z = seq!['0'] + d;
    if d.len() == 0 {
        assert(z.drop_last() =~= d);
        assert(z.last() == '0');
        assert(digits_value(d) == 0);
    } else {
        assert(z.drop_last() =~= seq!['0'] + d.drop_last());
        assert(z.last() == d.last());
        lemma_zero_first(d.drop_last());
    }
}

/// Texts are in the order of the first character in which they differ; a text stands before what
/// it begins.
pub proof fn texts_are_in_lexical_order(a: Seq<char>, b: Seq<char>, i: int)
    requires
        0 <= i <= a.len(),
        i <= b.len(),
        forall|k: int| 0 <= k < i ==> #[trigger] a[k] == b[k],
    ensures
        i < a.len() && i < b.len() && a[i] < b[i] ==> text_less(a, b) && !text_less(b, a),
        i == a.len() && i < b.len() ==> text_less(a, b) && !text_less(b, a),
    decreases i,
{
    if i > 0 {
        let x = a.subrange(1, a.len() as int);
        let y = b.subrange(1, b.len() as int);
        assert(a[0] == b[0]);
        assert forall|k: int| 0 <= k < i - 1 implies #[trigger] x[k] == y[k] by {
            assert(x[k] == a[k + 1] && y[k] == b[k + 1]);
        }
        texts_are_in_lexical_order(x, y, i - 1);
    }
}

/// Words hold no blank and are not empty, and nothing but blanks is left out between them.
pub proof fn words_hold_no_blank(s: Seq<char>)
    ensures
        forall|i: int|
            0 <= i < words_of(s).len() ==> (#[trigger] words_of(s)[i]).len() > 0 && forall|k: int|
                0 <= k < words_of(s)[i].len() ==> !is_space(#[trigger] words_of(s)[i][k]),
        joined(words_of(s), Seq::empty()) == s.filter(|c: char| !is_space(c)),
{
    lemma_pieces_between_blanks(s);
    let pred = |w: Seq<char>| w.len() > 0;
    lemma_filtered_join(split_spaces(s));
    let ws = words_of(s);
    assert forall|i: int| 0 <= i < ws.len() implies (#[trigger] ws[i]).len() > 0 && forall|k: int|
        0 <= k < ws[i].len() ==> !is_space(#[trigger] ws[i][k]) by {
        #[allow(deprecated)]
        split_spaces(s).filter_lemma(pred);
        assert(pred(ws[i]));
        assert(ws.contains(ws[i]));
        split_spaces(s).lemma_filter_contains_rev(pred, ws[i]);
        let j = choose|j: int| 0 <= j < split_spaces(s).len() && split_spaces(s)[j] == ws[i];
        assert(forall|k: int|
            0 <= k < split_spaces(s)[j].len() ==> !is_space(#[trigger] split_spaces(s)[j][k]));
    }
}

proof fn lemma_join_push(parts: Seq<Seq<char>>, p: Seq<char>)
    ensures
        joined(parts.push(p), Seq::empty()) == joined(parts, Seq::empty()) + p,
{
    let all = parts.push(p);
    assert(all.drop_last() =~= parts);
    if parts.len() == 0 {
        assert(joined(all, Seq::empty()) =~= joined(parts, Seq::empty()) + p);
    } else {
        assert(joined(parts, Seq::empty()) + Seq::<char>::empty() =~= joined(parts, Seq::empty()));
    }
}

proof fn lemma_filtered_join(parts: Seq<Seq<char>>)
    ensures
        joined(parts.filter(|w: Seq<char>| w.len() > 0), Seq::empty()) == joined(
            parts,
            Seq::empty(),
        ),
    decreases parts.len(),
{
    reveal(Seq::filter);
    if parts.len() > 0 {
        let rest = parts.drop_last();
        lemma_filtered_join(rest);
        assert(parts =~= rest.push(parts.last()));
        lemma_join_push(rest, parts.last());
        if parts.last().len() > 0 {
            lemma_join_push(rest.filter(|w: Seq<char>| w.len() > 0), parts.last());
        } else {
            assert(joined(rest, Seq::empty()) + parts.last() =~= joined(rest, Seq::empty()));
        }
    }
}

proof fn lemma_pieces_between_blanks(s: Seq<char>)
    ensures
        split_spaces(s).len() > 0,
        forall|i: int, k: int|
            #![trigger split_spaces(s)[i][k]]
            0 <= i < split_spaces(s).len() && 0 <= k < split_spaces(s)[i].len() ==> !is_space(
                split_spaces(s)[i][k],
            ),
        joined(split_spaces(s), Seq::empty()) == s.filter(|c: char| !is_space(c)),
    decreases s.len(),
{
    reveal(Seq::filter);
    if s.len() > 0 {
        let rest = s.drop_last();
        lemma_pieces_between_blanks(rest);
        let head = split_spaces(rest);
        let all = split_spaces(s);
        if is_space(s.last()) {
            lemma_join_push(head, Seq::empty());
            assert(joined(head, Seq::empty()) + Seq::<char>::empty() =~= joined(
                head,
                Seq::empty(),
            ));
            assert forall|i: int, k: int|
                #![trigger all[i][k]]
                0 <= i < all.len() && 0 <= k < all[i].len() implies !is_space(all[i][k]) by {
                if i < head.len() {
                    assert(all[i] == head[i]);
                    assert(!is_space(head[i][k]));
                }
            }
        } else {
            let front = head.drop_last();
            let piece = head.last();
            assert(head =~= front.push(piece));
            lemma_join_push(front, piece);
            lemma_join_push(front, piece.push(s.last()));
            assert(joined(front, Seq::empty()) + piece.push(s.last()) =~= (joined(
                front,
                Seq::empty(),
            ) + piece).push(s.last()));
            assert forall|i: int, k: int|
                #![trigger all[i][k]]
                0 <= i < all.len() && 0 <= k < all[i].len() implies !is_space(all[i][k]) by {
                if i < front.len() {
                    assert(all[i] == head[i]);
                    assert(!is_space(head[i][k]));
                } else if k < piece.len() {
                    assert(!is_space(head[head.len() - 1][k]));
                }
            }
        }
    } else {
        assert(joined(split_spaces(s), Seq::empty()) =~= s.filter(|c: char| !is_space(c)));
    }
}

/// Each place that holds the one character holds the other after replacing, and no other place
/// changes.
pub proof fn replacing_changes_one_character(s: Seq<char>, from: char, to: char, i: int)
    requires
        0 <= i < s.len(),
    ensures
        replaced(s, from, to).len() == s.len(),
        replaced(s, from, to)[i] == (if s[i] == from {
            to
        } else {
            s[i]
        }),
{
}

/// A text holds another just where it is something, the other, and something.
pub proof fn substrings_stand_between(s: Seq<char>, a: Seq<char>, p: Seq<char>, b: Seq<char>)
    ensures
        has_substring(a + p + b, p),
        has_substring(s, p) ==> p.len() <= s.len() && exists|i: int|
            0 <= i <= s.len() - p.len() && #[trigger] s.subrange(i, i + p.len()) == p,
        without_prefix(p + b, p) == Some(b),
        without_suffix(a + p, p) == Some(a),
        !begins_with(s, p) ==> without_prefix(s, p) is None,
{
    let t = a + p + b;
    let n = a.len() as int;
    assert(t.subrange(n, n + p.len()) =~= p);
    assert(occurs_at(t, p, n));
    assert((p + b).subrange(0, p.len() as int) =~= p);
    assert((p + b).subrange(p.len() as int, (p + b).len() as int) =~= b);
    assert((a + p).subrange(n, (a + p).len() as int) =~= p);
    assert((a + p).subrange(0, n) =~= a);
    if has_substring(s, p) {
        let i = choose|i: int| occurs_at(s, p, i);
        assert(s.subrange(i, i + p.len()) == p);
    }
}

/// Digits spell the number that each of them, at its place, adds up to.
pub proof fn digits_spell_by_place(s: Seq<char>, c: char)
    requires
        '0' <= c <= '9',
    ensures
        digits_value(s.push(c)) == 10 * digits_value(s) + (c as int - 48),
        digits_value(Seq::empty()) == 0,
        is_digit(c),
{
    assert(s.push(c).drop_last() =~= s);
}

/// A text without blanks is one word.
pub proof fn text_without_blanks_is_one_word(s: Seq<char>)
    requires
        s.len() > 0,
        forall|i: int| 0 <= i < s.len() ==> !is_space(#[trigger] s[i]),
    ensures
        words_of(s) == seq![s],
{
    reveal(Seq::filter);
    lemma_one_piece(s);
    let one = seq![s];
    assert(one.drop_last() =~= Seq::empty());
    assert(words_of(s) =~= one);
}

proof fn lemma_one_piece(s: Seq<char>)
    requires
        forall|i: int| 0 <= i < s.len() ==> !is_space(#[trigger] s[i]),
    ensures
        split_spaces(s) == seq![s],
    decreases s.len(),
{
    if s.len() > 0 {
        let rest = s.drop_last();
        assert forall|i: int| 0 <= i < rest.len() implies !is_space(#[trigger] rest[i]) by {
            assert(rest[i] == s[i]);
        }
        lemma_one_piece(rest);
        assert(!is_space(s[s.len() - 1]));
        assert(rest.push(s.last()) =~= s);
        assert(split_spaces(s) =~= seq![s]);
    } else {
        assert(s =~= Seq::empty());
        assert(split_spaces(s) =~= seq![s]);
    }
}

} // verus!
