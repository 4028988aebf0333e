//! Ordering of lists: stable ranking, and ascending lists without repeats.

use crate::text::{less_text, text_less};
use vstd::prelude::*;

verus! {

/// A type whose values can be ranked: `before` is a strict weak order.
pub trait Ranked: Sized {
    spec fn before(&self, other: &Self) -> bool;

    proof fn before_asymmetric(a: &Self, b: &Self)
        requires
            a.before(b),
        ensures
            !b.before(a),
    ;

    proof fn not_before_transitive(a: &Self, b: &Self, c: &Self)
        requires
            !b.before(a),
            !c.before(b),
        ensures
            !c.before(a),
    ;

    fn is_before(&self, other: &Self) -> (r: bool)
        ensures
            r == self.before(other),
    ;
}

/// No element stands behind one that it ranks before.
pub open spec fn in_rank_order<T: Ranked>(s: Seq<T>) -> bool {
    forall|i: int, j: int| #![trigger s[i], s[j]] 0 <= i < j < s.len() ==> !s[j].before(&s[i])
}

/// `s` with `x` put behind the last element that `x` does not rank before.
pub open spec fn inserted<T: Ranked>(s: Seq<T>, x: T) -> Seq<T>
    decreases s.len(),
{
    if s.len() == 0 || !x.before(&s.last()) {
        s.push(x)
    } else {
        inserted(s.drop_last(), x).push(s.last())
    }
}

/// The stable ranking of `s`: elements that rank alike keep their order.
pub open spec fn ranked<T: Ranked>(s: Seq<T>) -> Seq<T>
    decreases s.len(),
{
    if s.len() == 0 {
        s
    } else {
        inserted(ranked(s.drop_last()), s.last())
    }
}

proof fn lemma_inserted_at<T: Ranked>(s: Seq<T>, x: T, i: int)
    requires
        0 <= i <= s.len(),
        forall|k: int| #![trigger s[k]] i <= k < s.len() ==> x.before(&s[k]),
        i > 0 ==> !x.before(&s[i - 1]),
    ensures
        inserted(s, x) == s.insert(i, x),
    decreases s.len(),
{
    if i == s.len() {
        assert(s.insert(i, x) =~= s.push(x));
    } else {
        let t = s.drop_last();
        assert forall|k: int| #![trigger t[k]] i <= k < t.len() implies x.before(&t[k]) by {
            assert(t[k] == s[k]);
        }
        lemma_inserted_at(t, x, i);
        assert(x.before(&s[s.len() - 1]));
        assert(t.insert(i, x).push(s.last()) =~= s.insert(i, x));
    }
}

proof fn lemma_inserted_order<T: Ranked>(s: Seq<T>, x: T)
    requires
        in_rank_order(s),
    ensures
        in_rank_order(inserted(s, x)),
        inserted(s, x).len() == s.len() + 1,
        forall|k: int|
            0 <= k < inserted(s, x).len() ==> (#[trigger] inserted(s, x)[k] == x || s.contains(
                inserted(s, x)[k],
            )),
    decreases s.len(),
{
    let r = inserted(s, x);
    if s.len() == 0 {
    } else if !x.before(&s.last()) {
        assert forall|i: int, j: int| #![trigger r[i], r[j]] 0 <= i < j < r.len() implies !r[j].before(&r[i]) by {
            if j == s.len() && i < s.len() - 1 {
                assert(!s[s.len() - 1].before(&s[i]));
                T::not_before_transitive(&s[i], &s.last(), &x);
            }
        }
        assert forall|k: int| 0 <= k < r.len() implies (#[trigger] r[k] == x || s.contains(
            r[k],
        )) by {
            if k < s.len() {
                assert(s[k] == r[k]);
            }
        }
    } else {
        let t = s.drop_last();
        assert(in_rank_order(t)) by {
            assert forall|i: int, j: int| #![trigger t[i], t[j]] 0 <= i < j < t.len() implies !t[j].before(&t[i]) by {
                assert(!s[j].before(&s[i]));
            }
        }
        lemma_inserted_order(t, x);
        let u = inserted(t, x);
        T::before_asymmetric(&x, &s.last());
        assert forall|i: int, j: int| #![trigger r[i], r[j]] 0 <= i < j < r.len() implies !r[j].before(&r[i]) by {
            if j == u.len() {
                assert(r[i] == u[i]);
                if u[i] != x {
                    let k = choose|k: int| 0 <= k < t.len() && t[k] == u[i];
                    assert(s[k] == u[i]);
                    assert(!s[s.len() - 1].before(&s[k]));
                }
            } else {
                assert(r[i] == u[i] && r[j] == u[j]);
            }
        }
        assert forall|k: int| 0 <= k < r.len() implies (#[trigger] r[k] == x || s.contains(
            r[k],
        )) by {
            if k < u.len() {
                assert(r[k] == u[k]);
                if u[k] != x {
                    let m = choose|m: int| 0 <= m < t.len() && t[m] == u[k];
                    assert(s[m] == r[k]);
                }
            } else {
                assert(s[s.len() - 1] == r[k]);
            }
        }
    }
}

proof fn lemma_inserted_multiset<T: Ranked>(s: Seq<T>, x: T)
    ensures
        inserted(s, x).to_multiset() =~= s.to_multiset().insert(x),
    decreases s.len(),
{
    broadcast use vstd::seq_lib::group_to_multiset_ensures;

    if s.len() == 0 || !x.before(&s.last()) {
    } else {
        let t = s.drop_last();
        lemma_inserted_multiset(t, x);
        assert(s =~= t.push(s.last()));
        assert(s.to_multiset() =~= t.to_multiset().insert(s.last()));
        assert(inserted(s, x).to_multiset() =~= inserted(t, x).to_multiset().insert(s.last()));
    }
}

/// A ranking stands in rank order and holds just the elements of the list it ranks.
pub proof fn ranked_is_ordered_permutation<T: Ranked>(s: Seq<T>)
    ensures
        in_rank_order(ranked(s)),
        ranked(s).to_multiset() =~= s.to_multiset(),
        ranked(s).len() == s.len(),
    decreases s.len(),
{
    broadcast use vstd::seq_lib::group_to_multiset_ensures;

    if s.len() > 0 {
        let t = s.drop_last();
        ranked_is_ordered_permutation(t);
        lemma_inserted_order(ranked(t), s.last());
        lemma_inserted_multiset(ranked(t), s.last());
        assert(s =~= t.push(s.last()));
    }
}

/// A ranking holds an element just where the list it ranks does.
pub proof fn ranked_contains<T: Ranked>(s: Seq<T>, x: T)
    ensures
        ranked(s).contains(x) <==> s.contains(x),
{
    broadcast use vstd::seq_lib::group_to_multiset_ensures;

    ranked_is_ordered_permutation(s);
    assert(ranked(s).contains(x) <==> ranked(s).to_multiset().count(x) > 0);
    assert(s.contains(x) <==> s.to_multiset().count(x) > 0);
}

/// Ranks a list, stably.
pub fn rank<T: Ranked>(items: Vec<T>) -> (r: Vec<T>)
    ensures
        r@ == ranked(items@),
{
    let ghost all = items@;
    let mut rest = items;
    let mut rev: Vec<T> = Vec::new();
    while rest.len() > 0
        invariant
            rest.len() + rev.len() == all.len(),
            forall|k: int| 0 <= k < rest.len() ==> #[trigger] rest@[k] == all[k],
            forall|k: int| 0 <= k < rev.len() ==> #[trigger] rev@[k] == all[all.len() - 1 - k],
        decreases rest.len(),
    {
        match rest.pop() {
            Some(x) => {
                rev.push(x);
            },
            None => {},
        }
    }
    let mut out: Vec<T> = Vec::new();
    while rev.len() > 0
        invariant
            rev.len() <= all.len(),
            forall|k: int| 0 <= k < rev.len() ==> #[trigger] rev@[k] == all[all.len() - 1 - k],
            out@ == ranked(all.subrange(0, all.len() - rev.len())),
        decreases rev.len(),
    {
        let ghost done = all.len() - rev.len();
        match rev.pop() {
            Some(x) => {
                assert(x == all[done]);
                let mut i: usize = out.len();
                while i > 0 && x.is_before(&out[i - 1])
                    invariant
                        i <= out.len(),
                        forall|k: int| #![trigger out@[k]] i <= k < out.len() ==> x.before(&out@[k]),
                    decreases i,
                {
                    i -= 1;
                }
                proof {
                    lemma_inserted_at(out@, x, i as int);
                    let next = all.subrange(0, done + 1);
                    assert(next.drop_last() =~= all.subrange(0, done));
                    assert(next.last() == x);
                }
                out.insert(i, x);
            },
            None => {},
        }
    }
    assert(all.subrange(0, all.len() as int) =~= all);
    out
}

/// Each element ranks before every one behind it.
pub open spec fn strictly_ascending<T: Ranked>(s: Seq<T>) -> bool {
    forall|i: int, j: int| #![trigger s[i], s[j]] 0 <= i < j < s.len() ==> s[i].before(&s[j])
}

/// The two rank alike.
pub open spec fn alike<T: Ranked>(a: T, b: T) -> bool {
    !a.before(&b) && !b.before(&a)
}

/// Sorts a list and drops each element that ranks like one before it.
pub fn sort_unique<T: Ranked>(items: Vec<T>) -> (r: Vec<T>)
    ensures
        strictly_ascending(r@),
        forall|k: int| 0 <= k < r.len() ==> items@.contains(#[trigger] r@[k]),
        forall|x: T| #[trigger]
            items@.contains(x) ==> exists|k: int| 0 <= k < r.len() && alike(r@[k], x),
{
    let ghost all = items@;
    let mut src = rank(items);
    let ghost ord = src@;
    proof {
        ranked_is_ordered_permutation(all);
    }
    // Takes the ranked list from its end; `rev` ends up in descending order.
    let mut rev: Vec<T> = Vec::new();
    while src.len() > 0
        invariant
            in_rank_order(ord),
            src.len() <= ord.len(),
            src@ == ord.subrange(0, src.len() as int),
            forall|i: int, j: int| #![trigger rev@[i], rev@[j]]
                0 <= i < j < rev.len() ==> rev@[j].before(&rev@[i]),
            forall|k: int| 0 <= k < rev.len() ==> ord.contains(#[trigger] rev@[k]),
            forall|m: int, k: int| #![trigger rev@[k], ord[m]]
                0 <= m < src.len() && 0 <= k < rev.len() ==> !rev@[k].before(&ord[m]),
            forall|m: int|
                src.len() <= m < ord.len() ==> exists|k: int|
                    0 <= k < rev.len() && alike(rev@[k], #[trigger] ord[m]),
        decreases src.len(),
    {
        let ghost n = src.len() as int;
        let ghost rev0 = rev@;
        match src.pop() {
            Some(x) => {
                assert(x == ord[n - 1]);
                let len: usize = rev.len();
                if len == 0 || x.is_before(&rev[len - 1]) {
                    rev.push(x);
                    proof {
                        assert forall|i: int, j: int| #![trigger rev@[i], rev@[j]] 0 <= i < j < rev@.len() implies rev@[j].before(&rev@[i]) by {
                            if j == rev0.len() && i < rev0.len() - 1 {
                                let l = rev0.len() - 1;
                                assert(rev0[l].before(&rev0[i]));
                                lemma_before_transitive(&x, &rev0[l], &rev0[i]);
                            }
                        }
                        assert forall|m: int, k: int| #![trigger rev@[k], ord[m]]
                            0 <= m < src@.len() && 0 <= k < rev@.len() implies !rev@[k].before(&ord[m]) by {
                            if k == rev0.len() {
                                assert(!ord[n - 1].before(&ord[m]));
                            } else {
                                assert(rev@[k] == rev0[k]);
                            }
                        }
                        assert(ord[n - 1] == x);
                        assert forall|m: int| src@.len() <= m < ord.len() implies exists|k: int|
                            0 <= k < rev@.len() && alike(rev@[k], #[trigger] ord[m]) by {
                            if m == n - 1 {
                                lemma_not_before_self(&x);
                                assert(alike(rev@[rev0.len() as int], ord[m]));
                            } else {
                                let k = choose|k: int|
                                    0 <= k < rev0.len() && alike(rev0[k], ord[m]);
                                assert(rev@[k] == rev0[k]);
                            }
                        }
                    }
                } else {
                    proof {
                        let l = rev0.len() - 1;
                        assert(!rev0[l].before(&ord[n - 1]));
                        assert(alike(rev@[l], ord[n - 1]));
                        assert forall|m: int| src@.len() <= m < ord.len() implies exists|k: int|
                            0 <= k < rev@.len() && alike(rev@[k], #[trigger] ord[m]) by {
                            if m == n - 1 {
                                assert(alike(rev@[l], ord[m]));
                            } else {
                                let k = choose|k: int|
                                    0 <= k < rev0.len() && alike(rev0[k], ord[m]);
                                assert(alike(rev@[k], ord[m]));
                            }
                        }
                    }
                }
            },
            None => {},
        }
    }
    let ghost desc = rev@;
    let mut out: Vec<T> = Vec::new();
    while rev.len() > 0
        invariant
            rev.len() + out.len() == desc.len(),
            rev@ == desc.subrange(0, rev.len() as int),
            forall|k: int| 0 <= k < out.len() ==> #[trigger] out@[k] == desc[desc.len() - 1 - k],
        decreases rev.len(),
    {
        match rev.pop() {
            Some(x) => {
                out.push(x);
            },
            None => {},
        }
    }
    proof {
        assert forall|k: int| 0 <= k < out@.len() implies all.contains(#[trigger] out@[k]) by {
            assert(ord.contains(desc[desc.len() - 1 - k]));
            ranked_contains(all, out@[k]);
        }
        assert forall|x: T| #[trigger] all.contains(x) implies exists|k: int|
            0 <= k < out@.len() && alike(out@[k], x) by {
            ranked_contains(all, x);
            let m = choose|m: int| 0 <= m < ord.len() && ord[m] == x;
            assert(ord[m] == x);
            let k = choose|k: int| 0 <= k < desc.len() && alike(desc[k], ord[m]);
            assert(alike(out@[desc.len() - 1 - k], x));
        }
    }
    out
}

proof fn lemma_not_before_self<T: Ranked>(a: &T)
    ensures
        !a.before(a),
{
    if a.before(a) {
        T::before_asymmetric(a, a);
    }
}

proof fn lemma_before_transitive<T: Ranked>(a: &T, b: &T, c: &T)
    requires
        a.before(b),
        b.before(c),
    ensures
        a.before(c),
{
    T::before_asymmetric(b, c);
    if !a.before(c) {
        T::not_before_transitive(b, c, a);
    }
}

impl Ranked for u32 {
    open spec fn before(&self, other: &Self) -> bool {
        *self < *other
    }

    proof fn before_asymmetric(a: &Self, b: &Self) {
    }

    proof fn not_before_transitive(a: &Self, b: &Self, c: &Self) {
    }

    fn is_before(&self, other: &Self) -> (r: bool) {
        *self < *other
    }
}

impl Ranked for u64 {
    open spec fn before(&self, other: &Self) -> bool {
        *self < *other
    }

    proof fn before_asymmetric(a: &Self, b: &Self) {
    }

    proof fn not_before_transitive(a: &Self, b: &Self, c: &Self) {
    }

    fn is_before(&self, other: &Self) -> (r: bool) {
        *self < *other
    }
}

impl Ranked for String {
    open spec fn before(&self, other: &Self) -> bool {
        text_less(self@, other@)
    }

    proof fn before_asymmetric(a: &Self, b: &Self) {
        if text_less(b@, a@) {
            crate::text::text_less_transitive(a@, b@, a@);
            crate::text::text_less_irreflexive(a@);
        }
    }

    proof fn not_before_transitive(a: &Self, b: &Self, c: &Self) {
        if text_less(c@, a@) {
            crate::text::text_less_total(a@, b@);
            crate::text::text_less_total(b@, c@);
            if text_less(a@, b@) {
                crate::text::text_less_transitive(c@, a@, b@);
            }
        }
    }

    fn is_before(&self, other: &Self) -> (r: bool) {
        less_text(self.as_str(), other.as_str())
    }
}

/// The ascending list of the numbers that a list holds.
pub open spec fn is_sorted_set_of_u32(r: Seq<u32>, s: Seq<u32>) -> bool {
    &&& forall|i: int, j: int| 0 <= i < j < r.len() ==> #[trigger] r[i] < #[trigger] r[j]
    &&& forall|x: u32| #[trigger] r.contains(x) <==> s.contains(x)
}

/// Sorts numbers and drops repeats.
pub fn sort_u32(items: Vec<u32>) -> (r: Vec<u32>)
    ensures
        is_sorted_set_of_u32(r@, items@),
{
    let ghost all = items@;
    let out = sort_unique(items);
    proof {
        assert forall|i: int, j: int| 0 <= i < j < out@.len() implies #[trigger] out@[i]
            < #[trigger] out@[j] by {
            assert(out@[i].before(&out@[j]));
        }
        assert forall|x: u32| #[trigger] out@.contains(x) <==> all.contains(x) by {
            if out@.contains(x) {
                let k = choose|k: int| 0 <= k < out@.len() && out@[k] == x;
                assert(all.contains(out@[k]));
            }
            if all.contains(x) {
                let k = choose|k: int| 0 <= k < out@.len() && alike(out@[k], x);
                assert(out@[k] == x);
            }
        }
    }
    out
}

/// The ascending list of the numbers that a list holds.
pub open spec fn is_sorted_set_of_u64(r: Seq<u64>, s: Seq<u64>) -> bool {
    &&& forall|i: int, j: int| 0 <= i < j < r.len() ==> #[trigger] r[i] < #[trigger] r[j]
    &&& forall|x: u64| #[trigger] r.contains(x) <==> s.contains(x)
}

/// Sorts numbers and drops repeats.
pub fn sort_u64(items: Vec<u64>) -> (r: Vec<u64>)
    ensures
        is_sorted_set_of_u64(r@, items@),
{
    let ghost all = items@;
    let out = sort_unique(items);
    proof {
        assert forall|i: int, j: int| 0 <= i < j < out@.len() implies #[trigger] out@[i]
            < #[trigger] out@[j] by {
            assert(out@[i].before(&out@[j]));
        }
        assert forall|x: u64| #[trigger] out@.contains(x) <==> all.contains(x) by {
            if out@.contains(x) {
                let k = choose|k: int| 0 <= k < out@.len() && out@[k] == x;
                assert(all.contains(out@[k]));
            }
            if all.contains(x) {
                let k = choose|k: int| 0 <= k < out@.len() && alike(out@[k], x);
                assert(out@[k] == x);
            }
        }
    }
    out
}

/// The ascending list of the texts that a list holds.
pub open spec fn is_sorted_set_of_texts(r: Seq<Seq<char>>, s: Seq<Seq<char>>) -> bool {
    &&& forall|i: int, j: int|
        0 <= i < j < r.len() ==> text_less(#[trigger] r[i], #[trigger] r[j])
    &&& forall|x: Seq<char>| #[trigger] r.contains(x) <==> s.contains(x)
}

/// Sorts texts and drops repeats.
pub fn sort_texts(items: Vec<String>) -> (r: Vec<String>)
    ensures
        is_sorted_set_of_texts(crate::text::texts(r@), crate::text::texts(items@)),
{
    let ghost all = items@;
    let out = sort_unique(items);
    proof {
        let rt = crate::text::texts(out@);
        let st = crate::text::texts(all);
        assert forall|i: int, j: int| 0 <= i < j < rt.len() implies text_less(
            #[trigger] rt[i],
            #[trigger] rt[j],
        ) by {
            assert(out@[i].before(&out@[j]));
        }
        assert forall|x: Seq<char>| #[trigger] rt.contains(x) <==> st.contains(x) by {
            if rt.contains(x) {
                let k = choose|k: int| 0 <= k < rt.len() && rt[k] == x;
                assert(all.contains(out@[k]));
                let m = choose|m: int| 0 <= m < all.len() && all[m] == out@[k];
                assert(st[m] == x);
            }
            if st.contains(x) {
                let m = choose|m: int| 0 <= m < st.len() && st[m] == x;
                assert(all.contains(all[m]));
                let k = choose|k: int| 0 <= k < out@.len() && alike(out@[k], all[m]);
                crate::text::text_less_total(out@[k]@, all[m]@);
                assert(rt[k] == x);
            }
        }
    }
    out
}

} // verus!
