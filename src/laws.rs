use vstd::prelude::*;
use vstd::multiset::Multiset;
use crate::types::{key_of, ShoePayload, ShoeView, SortKey};
use crate::catalog::{created_record, has_id, index_of, liked_record, ShoeCatalog};
use crate::ordering::{insert_by, page_of, sort_by, sorted_by};
use crate::validate::first_invalid;

verus! {

broadcast use {
    vstd::seq_lib::group_to_multiset_ensures,
    vstd::seq_lib::lemma_multiset_commutative,
    vstd::multiset::group_multiset_axioms,
};

/// Every record of `insert_by(x, s, key)` is `x` or a record of `s`, and the
/// records are those of `s` with `x` added.
pub proof fn lemma_insert_by_contents(x: ShoeView, s: Seq<ShoeView>, key: SortKey)
    ensures
        insert_by(x, s, key).to_multiset() == s.to_multiset().insert(x),
        insert_by(x, s, key).len() == s.len() + 1,
        forall|i: int| 0 <= i < s.len() + 1 ==> #[trigger] insert_by(x, s, key)[i] == x || s.contains(insert_by(x, s, key)[i]),
    decreases s.len(),
{
    let r = insert_by(x, s, key);
    if s.len() == 0 {
        assert(s =~= Seq::<ShoeView>::empty());
        assert(r =~= s.push(x));
    } else if key_of(x, key) < key_of(s[0], key) {
        assert(r =~= seq![x] + s);
        let e = Seq::<ShoeView>::empty();
        assert(seq![x] =~= e.push(x));
        assert(e.to_multiset() =~= Multiset::empty());
        assert(r.to_multiset() =~= s.to_multiset().insert(x));
        assert forall|i: int| 0 <= i < s.len() + 1 implies #[trigger] r[i] == x || s.contains(r[i]) by {
            if i > 0 {
                assert(r[i] == s[i - 1]);
            }
        }
    } else {
        let t = s.drop_first();
        lemma_insert_by_contents(x, t, key);
        assert(r =~= seq![s[0]] + insert_by(x, t, key));
        assert(s =~= seq![s[0]] + t);
        let e = Seq::<ShoeView>::empty();
        assert(seq![s[0]] =~= e.push(s[0]));
        assert(e.to_multiset() =~= Multiset::empty());
        assert(r.to_multiset() =~= s.to_multiset().insert(x));
        assert forall|i: int| 0 <= i < s.len() + 1 implies #[trigger] r[i] == x || s.contains(r[i]) by {
            if i == 0 {
                assert(s[0] == r[0]);
            } else {
                let y = insert_by(x, t, key)[i - 1];
                assert(r[i] == y);
                if y != x {
                    let j = choose|j: int| 0 <= j < t.len() && t[j] == y;
                    assert(s[j + 1] == y);
                }
            }
        }
    }
}

/// Inserting into a sorted sequence keeps it sorted.
pub proof fn lemma_insert_by_sorted(x: ShoeView, s: Seq<ShoeView>, key: SortKey)
    requires
        sorted_by(s, key),
    ensures
        sorted_by(insert_by(x, s, key), key),
    decreases s.len(),
{
    let r = insert_by(x, s, key);
    lemma_insert_by_contents(x, s, key);
    if s.len() == 0 {
    } else if key_of(x, key) < key_of(s[0], key) {
        assert forall|i: int, j: int| 0 <= i <= j < r.len() implies key_of(#[trigger] r[i], key) <= key_of(#[trigger] r[j], key) by {
            if i > 0 {
                assert(r[i] == s[i - 1] && r[j] == s[j - 1]);
            } else if j > 0 {
                assert(r[j] == s[j - 1]);
                assert(key_of(s[0], key) <= key_of(s[j - 1], key));
            }
        }
    } else {
        let t = s.drop_first();
        assert(sorted_by(t, key)) by {
            assert forall|i: int, j: int| 0 <= i <= j < t.len() implies key_of(#[trigger] t[i], key) <= key_of(#[trigger] t[j], key) by {
                assert(t[i] == s[i + 1] && t[j] == s[j + 1]);
            }
        }
        lemma_insert_by_sorted(x, t, key);
        lemma_insert_by_contents(x, t, key);
        let u = insert_by(x, t, key);
        assert forall|i: int, j: int| 0 <= i <= j < r.len() implies key_of(#[trigger] r[i], key) <= key_of(#[trigger] r[j], key) by {
            if i > 0 {
                assert(r[i] == u[i - 1] && r[j] == u[j - 1]);
            } else if j > 0 {
                assert(r[j] == u[j - 1]);
                assert(r[0] == s[0]);
                if u[j - 1] != x {
                    let k = choose|k: int| 0 <= k < t.len() && t[k] == u[j - 1];
                    assert(s[k + 1] == t[k]);
                }
            }
        }
    }
}

/// A sort holds the records of its input, each as often, in key order.
pub proof fn lemma_sort_by_is_sorted_permutation(l: Seq<ShoeView>, key: SortKey)
    ensures
        sort_by(l, key).to_multiset() == l.to_multiset(),
        sort_by(l, key).len() == l.len(),
        sorted_by(sort_by(l, key), key),
    decreases l.len(),
{
    if l.len() == 0 {
        assert(l =~= Seq::<ShoeView>::empty());
    } else {
        let rest = l.drop_last();
        lemma_sort_by_is_sorted_permutation(rest, key);
        lemma_insert_by_contents(l.last(), sort_by(rest, key), key);
        lemma_insert_by_sorted(l.last(), sort_by(rest, key), key);
        assert(l =~= rest.push(l.last()));
    }
}

/// The first `k` pages of `s`, with `size` records to a page, one after another.
pub open spec fn pages_upto(s: Seq<ShoeView>, size: int, k: nat) -> Seq<ShoeView>
    decreases k,
{
    if k == 0 {
        Seq::empty()
    } else {
        pages_upto(s, size, (k - 1) as nat) + page_of(s, k - 1, size)
    }
}

/// Pages laid end to end give back the sequence they were cut from: the
/// first `k` pages are its first `k * size` records, and a page that starts
/// past the end is empty.
pub proof fn lemma_pages_concatenate(s: Seq<ShoeView>, size: int, k: nat)
    requires
        size > 0,
    ensures
        pages_upto(s, size, k) == s.subrange(0, if k * size <= s.len() { k * size } else { s.len() as int }),
        k * size >= s.len() ==> page_of(s, k as int, size) == Seq::<ShoeView>::empty(),
    decreases k,
{
    assert(k * size >= 0) by (nonlinear_arith) requires size > 0;
    if k == 0 {
        assert(s.subrange(0, 0) =~= Seq::<ShoeView>::empty());
    } else {
        lemma_pages_concatenate(s, size, (k - 1) as nat);
        assert((k - 1) * size + size == k * size) by (nonlinear_arith);
        let prev = if (k - 1) * size <= s.len() { (k - 1) * size } else { s.len() as int };
        let next = if k * size <= s.len() { k * size } else { s.len() as int };
        assert(s.subrange(0, next) =~= s.subrange(0, prev) + page_of(s, k - 1, size));
    }
    if k * size >= s.len() {
        assert(k * size >= s.len());
    }
}

/// Every page of a listing sorted by `key`, laid end to end, gives back all
/// the records in key order, each exactly once; pages past the end are empty.
pub proof fn lemma_sorted_pages_cover_listing(c: &ShoeCatalog, key: SortKey, size: int, k: nat)
    requires
        size > 0,
        k * size >= c.listing().len(),
    ensures
        pages_upto(sort_by(c.listing(), key), size, k) == sort_by(c.listing(), key),
        pages_upto(sort_by(c.listing(), key), size, k).to_multiset() == c.listing().to_multiset(),
        sorted_by(pages_upto(sort_by(c.listing(), key), size, k), key),
        page_of(sort_by(c.listing(), key), k as int, size) == Seq::<ShoeView>::empty(),
{
    let s = sort_by(c.listing(), key);
    lemma_sort_by_is_sorted_permutation(c.listing(), key);
    lemma_pages_concatenate(s, size, k);
    assert(s.subrange(0, s.len() as int) =~= s);
}

/// The id that `add_shoe` gives a new record has never been issued, no stored
/// record carries it, and the record's owner is the caller.
pub proof fn lemma_added_id_is_fresh(c: &ShoeCatalog, caller: Seq<char>, now: u64, p: &ShoePayload)
    requires
        c.wf(),
        first_invalid(p) is None,
    ensures
        created_record(c.issued(), caller, now, p).id >= c.issued(),
        !has_id(c.listing(), created_record(c.issued(), caller, now, p).id),
        created_record(c.issued(), caller, now, p).owner == caller,
{
}

/// After a record `s` is added under a fresh id, looking that id up gives `s`.
pub proof fn lemma_lookup_after_add(c: &ShoeCatalog, after: &ShoeCatalog, s: ShoeView)
    requires
        c.wf(),
        after.wf(),
        s.id == c.issued(),
        after.listing() == c.listing().push(s),
    ensures
        after.lookup(s.id) == Some(s),
{
    let l = after.listing();
    assert(l[l.len() - 1].id == s.id);
    assert(has_id(l, s.id));
    let k = index_of(l, s.id);
    if k != l.len() - 1 {
        assert(l[k] == c.listing()[k]);
    }
}

/// After the record under `id` is replaced by `t`, looking `id` up gives `t`.
pub proof fn lemma_lookup_after_replace(c: &ShoeCatalog, after: &ShoeCatalog, id: u64, t: ShoeView)
    requires
        c.wf(),
        after.wf(),
        has_id(c.listing(), id),
        t.id == id,
        after.listing() == c.listing().update(index_of(c.listing(), id), t),
    ensures
        after.lookup(id) == Some(t),
{
    let i = index_of(c.listing(), id);
    let l = after.listing();
    assert(l[i].id == id);
    assert(has_id(l, id));
    let k = index_of(l, id);
    if k < i {
        assert(l[k].id < l[i].id);
    } else if k > i {
        assert(l[i].id < l[k].id);
    }
}

/// A first like by `caller` adds exactly that identity to the record, so that
/// the record then counts `caller` among those that liked it, which makes a
/// second like by `caller` fail with `AlreadyLiked`.
pub proof fn lemma_like_once(c: &ShoeCatalog, after: &ShoeCatalog, id: u64, caller: Seq<char>)
    requires
        c.wf(),
        after.wf(),
        c.lookup(id) matches Some(s) && !s.liked_by.contains(caller),
        after.listing() == c.listing().update(index_of(c.listing(), id), liked_record(c.lookup(id)->Some_0, caller)),
    ensures
        after.lookup(id) matches Some(t) && t.liked_by == c.lookup(id)->Some_0.liked_by.push(caller)
            && t.liked_by.len() == c.lookup(id)->Some_0.liked_by.len() + 1
            && t.liked_by.contains(caller),
{
    let s = c.lookup(id)->Some_0;
    let i = index_of(c.listing(), id);
    lemma_lookup_after_replace(c, after, id, liked_record(s, caller));
    let t = liked_record(s, caller);
    assert(t.liked_by[s.liked_by.len() as int] == caller);
}

/// Once the record under `id` is removed, looking `id` up finds nothing.
pub proof fn lemma_lookup_after_delete(c: &ShoeCatalog, after: &ShoeCatalog, id: u64)
    requires
        c.wf(),
        has_id(c.listing(), id),
        after.listing() == c.listing().remove(index_of(c.listing(), id)),
    ensures
        after.lookup(id) is None,
{
    let i = index_of(c.listing(), id);
    let l = after.listing();
    if has_id(l, id) {
        let k = choose|k: int| 0 <= k < l.len() && l[k].id == id;
        if k < i {
            assert(l[k] == c.listing()[k]);
            assert(c.listing()[k].id < c.listing()[i].id);
        } else {
            assert(l[k] == c.listing()[k + 1]);
            assert(c.listing()[i].id < c.listing()[k + 1].id);
        }
    }
}

/// Every stored id lies below the counter, which no operation lowers and
/// `add_shoe` issues from: an id that was stored, even one deleted since, is
/// never issued again.
pub proof fn lemma_stored_ids_below_counter(c: &ShoeCatalog, id: u64)
    requires
        c.wf(),
        has_id(c.listing(), id),
    ensures
        id < c.issued(),
{
    let i = choose|i: int| 0 <= i < c.listing().len() && #[trigger] c.listing()[i].id == id;
}

/// A payload with no stock fails validation.
pub proof fn lemma_zero_quantity_rejected(p: &ShoePayload)
    requires
        p.quantity == 0,
    ensures
        first_invalid(p) is Some,
{
}

} // verus!
