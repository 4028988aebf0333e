//! Bringing stored rows in line with wanted ones, touching only what differs.

use crate::textmap::TextMap;
use vstd::prelude::*;
use vstd::seq_lib::lemma_seq_contains_after_push;

verus! {

/// A row that can be compared and copied.
pub trait Row: View + Sized {
    /// Tells whether two rows say the same.
    fn same(&self, other: &Self) -> (r: bool)
        ensures
            r == (self@ == other@),
    ;

    /// A copy of the row.
    fn copy(&self) -> (r: Self)
        ensures
            r@ == self@,
    ;
}

/// A stored row. One that is retracted stays, marked as deleted.
pub struct Stored<R> {
    pub row: R,
    pub deleted: bool,
}

/// What a stored row says.
#[verifier::ext_equal]
pub struct StoredView<V> {
    pub row: V,
    pub deleted: bool,
}

/// A change of what is stored.
pub enum Change<R> {
    /// Store the row under the key, live.
    Upsert { key: String, row: R },
    /// Mark what is stored under the key as deleted.
    Retract { key: String },
}

/// What a change says.
pub enum ChangeView<V> {
    Upsert { key: Seq<char>, row: V },
    Retract { key: Seq<char> },
}

/// What a change says.
pub open spec fn change_view<R: Row>(c: Change<R>) -> ChangeView<R::V> {
    match c {
        Change::Upsert { key, row } => ChangeView::Upsert { key: key@, row: row@ },
        Change::Retract { key } => ChangeView::Retract { key: key@ },
    }
}

/// What changes say.
pub open spec fn change_views<R: Row>(v: Seq<Change<R>>) -> Seq<ChangeView<R::V>> {
    Seq::new(v.len(), |i: int| change_view(v[i]))
}

/// What is stored under each key.
pub open spec fn stored_views<R: Row>(m: Map<Seq<char>, Stored<R>>) -> Map<
    Seq<char>,
    StoredView<R::V>,
> {
    m.map_values(|s: Stored<R>| StoredView { row: s.row@, deleted: s.deleted })
}

/// What is wanted under each key.
pub open spec fn wanted_views<R: Row>(m: Map<Seq<char>, R>) -> Map<Seq<char>, R::V> {
    m.map_values(|r: R| r@)
}

/// A wanted row is stored already, live.
pub open spec fn is_current<V>(stored: Map<Seq<char>, StoredView<V>>, k: Seq<char>, row: V) -> bool {
    stored.contains_key(k) && stored[k] == (StoredView { row, deleted: false })
}

/// The rows among the first keys that must be stored.
pub open spec fn upserts<V>(
    stored: Map<Seq<char>, StoredView<V>>,
    wanted: Map<Seq<char>, V>,
    keys: Seq<Seq<char>>,
) -> Seq<ChangeView<V>>
    decreases keys.len(),
{
    if keys.len() == 0 {
        Seq::empty()
    } else {
        let head = upserts(stored, wanted, keys.drop_last());
        let k = keys.last();
        if is_current(stored, k, wanted[k]) {
            head
        } else {
            head.push(ChangeView::Upsert { key: k, row: wanted[k] })
        }
    }
}

/// The stored rows among the first keys that are live and not wanted.
pub open spec fn retracts<V>(
    stored: Map<Seq<char>, StoredView<V>>,
    wanted: Map<Seq<char>, V>,
    keys: Seq<Seq<char>>,
) -> Seq<ChangeView<V>>
    decreases keys.len(),
{
    if keys.len() == 0 {
        Seq::empty()
    } else {
        let head = retracts(stored, wanted, keys.drop_last());
        let k = keys.last();
        if !stored[k].deleted && !wanted.contains_key(k) {
            head.push(ChangeView::Retract { key: k })
        } else {
            head
        }
    }
}

/// The changes that bring stored rows in line with wanted ones: the rows that are new, differ or
/// were deleted, in the order of the wanted keys; then the live rows that are not wanted, in the
/// order of the stored keys.
pub open spec fn changes<V>(
    stored: Map<Seq<char>, StoredView<V>>,
    stored_keys: Seq<Seq<char>>,
    wanted: Map<Seq<char>, V>,
    wanted_keys: Seq<Seq<char>>,
) -> Seq<ChangeView<V>> {
    upserts(stored, wanted, wanted_keys) + retracts(stored, wanted, stored_keys)
}

/// Plans the changes that bring stored rows in line with wanted ones.
pub fn plan_changes<R: Row>(stored: &TextMap<Stored<R>>, wanted: &TextMap<R>) -> (r: Vec<
    Change<R>,
>)
    requires
        stored.wf(),
        wanted.wf(),
    ensures
        change_views(r@) == changes(
            stored_views(stored.map()),
            stored.keys(),
            wanted_views(wanted.map()),
            wanted.keys(),
        ),
{
    let ghost s = stored_views(stored.map());
    let ghost w = wanted_views(wanted.map());
    let mut out: Vec<Change<R>> = Vec::new();
    let n: usize = wanted.len();
    let mut i: usize = 0;
    proof {
        stored.lemma_wf();
        wanted.lemma_wf();
        assert(wanted.keys().subrange(0, 0) =~= Seq::empty());
        assert(change_views(out@) =~= Seq::empty());
    }
    while i < n
        invariant
            i <= n,
            n == wanted.keys().len(),
            stored.wf(),
            wanted.wf(),
            s == stored_views(stored.map()),
            w == wanted_views(wanted.map()),
            change_views(out@) == upserts(s, w, wanted.keys().subrange(0, i as int)),
        decreases n - i,
    {
        let ghost before = out@;
        let key = wanted.key_at(i);
        let row = wanted.value_at(i);
        proof {
            wanted.lemma_wf();
            let next = wanted.keys().subrange(0, i as int + 1);
            assert(next.drop_last() =~= wanted.keys().subrange(0, i as int));
            assert(next.last() == key@);
            assert(wanted.map().contains_key(wanted.keys()[i as int]));
            assert(w[key@] == row@);
        }
        let current = match stored.get(key.as_str()) {
            Some(old) => !old.deleted && old.row.same(row),
            None => false,
        };
        assert(current == is_current(s, key@, row@));
        if !current {
            let c = Change::Upsert { key: key.clone(), row: row.copy() };
            let ghost cv = change_view(c);
            out.push(c);
            assert(change_views(out@) =~= change_views(before).push(cv));
        }
        i += 1;
    }
    assert(wanted.keys().subrange(0, n as int) =~= wanted.keys());
    let ghost ups = change_views(out@);
    let m: usize = stored.len();
    let mut j: usize = 0;
    assert(stored.keys().subrange(0, 0) =~= Seq::empty());
    assert(change_views(out@) =~= ups + Seq::empty());
    while j < m
        invariant
            j <= m,
            m == stored.keys().len(),
            stored.wf(),
            wanted.wf(),
            s == stored_views(stored.map()),
            w == wanted_views(wanted.map()),
            change_views(out@) == ups + retracts(s, w, stored.keys().subrange(0, j as int)),
        decreases m - j,
    {
        let ghost before = out@;
        let key = stored.key_at(j);
        let old = stored.value_at(j);
        proof {
            stored.lemma_wf();
            let next = stored.keys().subrange(0, j as int + 1);
            assert(next.drop_last() =~= stored.keys().subrange(0, j as int));
            assert(next.last() == key@);
            assert(stored.map().contains_key(stored.keys()[j as int]));
        }
        if !old.deleted && wanted.get(key.as_str()).is_none() {
            let c: Change<R> = Change::Retract { key: key.clone() };
            let ghost cv = change_view(c);
            out.push(c);
            assert(change_views(out@) =~= change_views(before).push(cv));
        }
        assert(change_views(out@) =~= ups + retracts(s, w, stored.keys().subrange(0, j as int + 1)));
        j += 1;
    }
    assert(stored.keys().subrange(0, m as int) =~= stored.keys());
    out
}

// ---- laws ----

/// What is stored after a change.
pub open spec fn after_change<V>(
    stored: Map<Seq<char>, StoredView<V>>,
    c: ChangeView<V>,
) -> Map<Seq<char>, StoredView<V>> {
    match c {
        ChangeView::Upsert { key, row } => stored.insert(key, StoredView { row, deleted: false }),
        ChangeView::Retract { key } => stored.insert(
            key,
            StoredView { row: stored[key].row, deleted: true },
        ),
    }
}

/// What is stored after changes, in order.
pub open spec fn after_changes<V>(
    stored: Map<Seq<char>, StoredView<V>>,
    cs: Seq<ChangeView<V>>,
) -> Map<Seq<char>, StoredView<V>>
    decreases cs.len(),
{
    if cs.len() == 0 {
        stored
    } else {
        after_change(after_changes(stored, cs.drop_last()), cs.last())
    }
}

/// Stored rows in line with wanted ones: these are live, all others are kept as deleted.
pub open spec fn synced<V>(
    stored: Map<Seq<char>, StoredView<V>>,
    wanted: Map<Seq<char>, V>,
) -> Map<Seq<char>, StoredView<V>> {
    Map::new(
        |k: Seq<char>| stored.contains_key(k) || wanted.contains_key(k),
        |k: Seq<char>|
            if wanted.contains_key(k) {
                StoredView { row: wanted[k], deleted: false }
            } else {
                StoredView { row: stored[k].row, deleted: true }
            },
    )
}

/// `rows` lists the stored rows that are live, in any order.
pub open spec fn lists_live<V>(stored: Map<Seq<char>, StoredView<V>>, rows: Seq<V>) -> bool {
    &&& forall|k: Seq<char>| #[trigger]
        stored.contains_key(k) && !stored[k].deleted ==> rows.contains(stored[k].row)
    &&& forall|i: int|
        0 <= i < rows.len() ==> exists|k: Seq<char>| #[trigger]
            stored.contains_key(k) && !stored[k].deleted && stored[k].row == #[trigger] rows[i]
}

/// The keys of a map are those of a list.
pub open spec fn keys_of<V>(m: Map<Seq<char>, V>, keys: Seq<Seq<char>>) -> bool {
    forall|k: Seq<char>| #[trigger] m.contains_key(k) <==> keys.contains(k)
}

proof fn lemma_after_append<V>(
    stored: Map<Seq<char>, StoredView<V>>,
    a: Seq<ChangeView<V>>,
    b: Seq<ChangeView<V>>,
)
    ensures
        after_changes(stored, a + b) == after_changes(after_changes(stored, a), b),
    decreases b.len(),
{
    if b.len() == 0 {
        assert(a + b =~= a);
    } else {
        lemma_after_append(stored, a, b.drop_last());
        assert((a + b).drop_last() =~= a + b.drop_last());
        assert((a + b).last() == b.last());
    }
}

proof fn lemma_after_upserts<V>(
    stored: Map<Seq<char>, StoredView<V>>,
    wanted: Map<Seq<char>, V>,
    keys: Seq<Seq<char>>,
    k: Seq<char>,
)
    ensures
        ({
            let m = after_changes(stored, upserts(stored, wanted, keys));
            if keys.contains(k) {
                m.contains_key(k) && m[k] == (StoredView { row: wanted[k], deleted: false })
            } else {
                (m.contains_key(k) <==> stored.contains_key(k)) && (stored.contains_key(k)
                    ==> m[k] == stored[k])
            }
        }),
    decreases keys.len(),
{
    if keys.len() > 0 {
        let head = keys.drop_last();
        let last = keys.last();
        lemma_after_upserts(stored, wanted, head, k);
        assert(keys =~= head.push(last));
        lemma_seq_contains_after_push(head, last, k);
        let ups = upserts(stored, wanted, head);
        if !is_current(stored, last, wanted[last]) {
            let c = ChangeView::Upsert { key: last, row: wanted[last] };
            assert(ups.push(c).drop_last() =~= ups);
        }
    }
}

proof fn lemma_after_retracts<V>(
    stored: Map<Seq<char>, StoredView<V>>,
    wanted: Map<Seq<char>, V>,
    base: Map<Seq<char>, StoredView<V>>,
    keys: Seq<Seq<char>>,
    k: Seq<char>,
)
    requires
        forall|j: Seq<char>|
            stored.contains_key(j) && !wanted.contains_key(j) ==> #[trigger] base.contains_key(j)
                && base[j] == stored[j],
        forall|i: int| 0 <= i < keys.len() ==> stored.contains_key(#[trigger] keys[i]),
    ensures
        ({
            let m = after_changes(base, retracts(stored, wanted, keys));
            &&& m.contains_key(k) <==> base.contains_key(k)
            &&& base.contains_key(k) ==> m[k] == (if keys.contains(k) && !wanted.contains_key(k) {
                StoredView { row: stored[k].row, deleted: true }
            } else {
                base[k]
            })
        }),
    decreases keys.len(),
{
    if keys.len() > 0 {
        let head = keys.drop_last();
        let last = keys.last();
        assert forall|i: int| 0 <= i < head.len() implies stored.contains_key(
            #[trigger] head[i],
        ) by {
            assert(head[i] == keys[i]);
        }
        assert(stored.contains_key(keys[keys.len() - 1]));
        lemma_after_retracts(stored, wanted, base, head, k);
        lemma_after_retracts(stored, wanted, base, head, last);
        assert(keys =~= head.push(last));
        lemma_seq_contains_after_push(head, last, k);
        let rs = retracts(stored, wanted, head);
        if !stored[last].deleted && !wanted.contains_key(last) {
            let c = ChangeView::<V>::Retract { key: last };
            assert(rs.push(c).drop_last() =~= rs);
            assert(base.contains_key(last));
        } else if !wanted.contains_key(last) {
            assert(base.contains_key(last));
            assert(base[last] == (StoredView { row: stored[last].row, deleted: true }));
        }
    }
}

/// Making the planned changes leaves exactly the wanted rows live; nothing stored is lost.
pub proof fn changes_sync<V>(
    stored: Map<Seq<char>, StoredView<V>>,
    stored_keys: Seq<Seq<char>>,
    wanted: Map<Seq<char>, V>,
    wanted_keys: Seq<Seq<char>>,
)
    requires
        keys_of(stored, stored_keys),
        keys_of(wanted, wanted_keys),
    ensures
        after_changes(stored, changes(stored, stored_keys, wanted, wanted_keys)) == synced(
            stored,
            wanted,
        ),
{
    let ups = upserts(stored, wanted, wanted_keys);
    let rets = retracts(stored, wanted, stored_keys);
    lemma_after_append(stored, ups, rets);
    let base = after_changes(stored, ups);
    assert forall|j: Seq<char>|
        stored.contains_key(j) && !wanted.contains_key(j) implies #[trigger] base.contains_key(j)
        && base[j] == stored[j] by {
        lemma_after_upserts(stored, wanted, wanted_keys, j);
    }
    assert forall|i: int| 0 <= i < stored_keys.len() implies stored.contains_key(
        #[trigger] stored_keys[i],
    ) by {
        assert(stored_keys.contains(stored_keys[i]));
    }
    let m = after_changes(base, rets);
    assert forall|k: Seq<char>|
        (#[trigger] m.contains_key(k) <==> synced(stored, wanted).contains_key(k)) && (
        m.contains_key(k) ==> m[k] == synced(stored, wanted)[k]) by {
        lemma_after_upserts(stored, wanted, wanted_keys, k);
        lemma_after_retracts(stored, wanted, base, stored_keys, k);
    }
    assert(m =~= synced(stored, wanted));
}

proof fn lemma_no_upserts<V>(
    stored: Map<Seq<char>, StoredView<V>>,
    wanted: Map<Seq<char>, V>,
    keys: Seq<Seq<char>>,
)
    requires
        forall|i: int|
            0 <= i < keys.len() ==> is_current(stored, #[trigger] keys[i], wanted[keys[i]]),
    ensures
        upserts(stored, wanted, keys) == Seq::<ChangeView<V>>::empty(),
    decreases keys.len(),
{
    if keys.len() > 0 {
        let head = keys.drop_last();
        assert forall|i: int| 0 <= i < head.len() implies is_current(
            stored,
            #[trigger] head[i],
            wanted[head[i]],
        ) by {
            assert(head[i] == keys[i]);
        }
        lemma_no_upserts(stored, wanted, head);
        assert(is_current(stored, keys[keys.len() - 1], wanted[keys[keys.len() - 1]]));
    }
}

proof fn lemma_no_retracts<V>(
    stored: Map<Seq<char>, StoredView<V>>,
    wanted: Map<Seq<char>, V>,
    keys: Seq<Seq<char>>,
)
    requires
        forall|i: int|
            0 <= i < keys.len() ==> stored[#[trigger] keys[i]].deleted || wanted.contains_key(
                keys[i],
            ),
    ensures
        retracts(stored, wanted, keys) == Seq::<ChangeView<V>>::empty(),
    decreases keys.len(),
{
    if keys.len() > 0 {
        let head = keys.drop_last();
        assert forall|i: int| 0 <= i < head.len() implies stored[#[trigger] head[i]].deleted
            || wanted.contains_key(head[i]) by {
            assert(head[i] == keys[i]);
        }
        lemma_no_retracts(stored, wanted, head);
        assert(stored[keys[keys.len() - 1]].deleted || wanted.contains_key(keys[keys.len() - 1]));
    }
}

/// Rows that are in line already need no change: doing the same once more changes nothing.
pub proof fn synced_rows_stay<V>(
    stored: Map<Seq<char>, StoredView<V>>,
    wanted: Map<Seq<char>, V>,
    synced_keys: Seq<Seq<char>>,
    wanted_keys: Seq<Seq<char>>,
)
    requires
        keys_of(synced(stored, wanted), synced_keys),
        keys_of(wanted, wanted_keys),
    ensures
        changes(synced(stored, wanted), synced_keys, wanted, wanted_keys) == Seq::<
            ChangeView<V>,
        >::empty(),
{
    let s = synced(stored, wanted);
    assert forall|i: int| 0 <= i < wanted_keys.len() implies is_current(
        s,
        #[trigger] wanted_keys[i],
        wanted[wanted_keys[i]],
    ) by {
        assert(wanted_keys.contains(wanted_keys[i]));
    }
    lemma_no_upserts(s, wanted, wanted_keys);
    assert forall|i: int| 0 <= i < synced_keys.len() implies s[#[trigger] synced_keys[i]].deleted
        || wanted.contains_key(synced_keys[i]) by {
        assert(synced_keys.contains(synced_keys[i]));
        assert(s.contains_key(synced_keys[i]));
    }
    lemma_no_retracts(s, wanted, synced_keys);
    assert(changes(s, synced_keys, wanted, wanted_keys) =~= Seq::<ChangeView<V>>::empty());
}

/// The keys of a map are those that it lists.
pub proof fn map_lists_its_keys<V>(m: TextMap<V>)
    requires
        m.wf(),
    ensures
        keys_of(m.map(), m.keys()),
{
}

proof fn lemma_upserts_at<V>(
    stored: Map<Seq<char>, StoredView<V>>,
    wanted: Map<Seq<char>, V>,
    keys: Seq<Seq<char>>,
    c: ChangeView<V>,
)
    ensures
        upserts(stored, wanted, keys).contains(c) <==> (c matches ChangeView::Upsert { key, row }
            && keys.contains(key) && row == wanted[key] && !is_current(stored, key, row)),
        upserts(stored, wanted, keys).len() <= keys.len(),
    decreases keys.len(),
{
    if keys.len() > 0 {
        let rest = keys.drop_last();
        let k = keys.last();
        assert(keys =~= rest.push(k));
        lemma_upserts_at(stored, wanted, rest, c);
        if let ChangeView::Upsert { key, row } = c {
            lemma_seq_contains_after_push(rest, k, key);
        }
        lemma_seq_contains_after_push(
            upserts(stored, wanted, rest),
            ChangeView::Upsert { key: k, row: wanted[k] },
            c,
        );
    }
}

proof fn lemma_retracts_at<V>(
    stored: Map<Seq<char>, StoredView<V>>,
    wanted: Map<Seq<char>, V>,
    keys: Seq<Seq<char>>,
    c: ChangeView<V>,
)
    ensures
        retracts(stored, wanted, keys).contains(c) <==> (c matches ChangeView::Retract { key }
            && keys.contains(key) && !stored[key].deleted && !wanted.contains_key(key)),
    decreases keys.len(),
{
    if keys.len() > 0 {
        let rest = keys.drop_last();
        let k = keys.last();
        assert(keys =~= rest.push(k));
        lemma_retracts_at(stored, wanted, rest, c);
        if let ChangeView::Retract { key } = c {
            lemma_seq_contains_after_push(rest, k, key);
        }
        lemma_seq_contains_after_push(
            retracts(stored, wanted, rest),
            ChangeView::Retract { key: k },
            c,
        );
    }
}

/// A row is written just where it is wanted, and is not stored, is deleted, or says something else;
/// a row is retracted just where it is stored, live, and not wanted. Nothing else is changed.
pub proof fn only_what_differs_is_changed<V>(
    stored: Map<Seq<char>, StoredView<V>>,
    stored_keys: Seq<Seq<char>>,
    wanted: Map<Seq<char>, V>,
    wanted_keys: Seq<Seq<char>>,
    key: Seq<char>,
    row: V,
)
    requires
        forall|k: Seq<char>| #[trigger] stored.contains_key(k) <==> stored_keys.contains(k),
        forall|k: Seq<char>| #[trigger] wanted.contains_key(k) <==> wanted_keys.contains(k),
    ensures
        ({
            let plan = changes(stored, stored_keys, wanted, wanted_keys);
            &&& plan.contains(ChangeView::Upsert { key, row }) <==> wanted.contains_key(key) && row
                == wanted[key] && (!stored.contains_key(key) || stored[key].deleted
                || stored[key].row != row)
            &&& plan.contains(ChangeView::Retract { key }) <==> stored.contains_key(key)
                && !stored[key].deleted && !wanted.contains_key(key)
        }),
{
    let ups = upserts(stored, wanted, wanted_keys);
    let rets = retracts(stored, wanted, stored_keys);
    let u = ChangeView::Upsert { key, row };
    let r = ChangeView::<V>::Retract { key };
    lemma_upserts_at(stored, wanted, wanted_keys, u);
    lemma_upserts_at(stored, wanted, wanted_keys, r);
    lemma_retracts_at(stored, wanted, stored_keys, u);
    lemma_retracts_at(stored, wanted, stored_keys, r);
    vstd::seq_lib::lemma_seq_concat_contains_all_elements(ups, rets, u);
    vstd::seq_lib::lemma_seq_concat_contains_all_elements(ups, rets, r);
}

} // verus!
