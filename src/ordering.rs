use vstd::prelude::*;
use crate::types::{key_of, Shoe, ShoeView, SortKey};
use crate::catalog::views;

verus! {

/// `s` with `x` placed before the first record whose key is greater than
/// that of `x`, so that records with equal keys keep their order.
pub open spec fn insert_by(x: ShoeView, s: Seq<ShoeView>, key: SortKey) -> Seq<ShoeView>
    decreases s.len(),
{
    if s.len() == 0 {
        seq![x]
    } else if key_of(x, key) < key_of(s[0], key) {
        seq![x] + s
    } else {
        seq![s[0]] + insert_by(x, s.drop_first(), key)
    }
}

/// The stable ascending sort of `l` by `key`.
pub open spec fn sort_by(l: Seq<ShoeView>, key: SortKey) -> Seq<ShoeView>
    decreases l.len(),
{
    if l.len() == 0 {
        Seq::empty()
    } else {
        insert_by(l.last(), sort_by(l.drop_last(), key), key)
    }
}

/// Page `page` of `s`, with `size` records to a page; empty past the end.
pub open spec fn page_of(s: Seq<ShoeView>, page: int, size: int) -> Seq<ShoeView> {
    let start = page * size;
    if start >= s.len() {
        Seq::empty()
    } else if start + size <= s.len() {
        s.subrange(start, start + size)
    } else {
        s.subrange(start, s.len() as int)
    }
}

/// Keys never decrease along `s`.
pub open spec fn sorted_by(s: Seq<ShoeView>, key: SortKey) -> bool {
    forall|i: int, j: int| 0 <= i <= j < s.len() ==> key_of(#[trigger] s[i], key) <= key_of(#[trigger] s[j], key)
}

/// Inserting at the first position whose key is greater than that of `x`.
pub proof fn lemma_insert_at(x: ShoeView, s: Seq<ShoeView>, key: SortKey, p: int)
    requires
        0 <= p <= s.len(),
        forall|q: int| 0 <= q < p ==> !(key_of(x, key) < key_of(#[trigger] s[q], key)),
        p == s.len() || key_of(x, key) < key_of(s[p], key),
    ensures
        insert_by(x, s, key) == s.subrange(0, p).push(x) + s.subrange(p, s.len() as int),
    decreases p,
{
    if s.len() == 0 {
        assert(insert_by(x, s, key) =~= s.subrange(0, p).push(x) + s.subrange(p, s.len() as int));
    } else if p == 0 {
        assert(insert_by(x, s, key) =~= s.subrange(0, p).push(x) + s.subrange(p, s.len() as int));
    } else {
        let t = s.drop_first();
        assert forall|q: int| 0 <= q < p - 1 implies !(key_of(x, key) < key_of(#[trigger] t[q], key)) by {
            assert(t[q] == s[q + 1]);
        }
        lemma_insert_at(x, t, key, p - 1);
        assert(insert_by(x, s, key) =~= s.subrange(0, p).push(x) + s.subrange(p, s.len() as int));
    }
}

/// Inserts `x` into `v` as `insert_by` does.
pub fn insert_sorted(v: &mut Vec<Shoe>, x: Shoe, key: SortKey)
    ensures
        views(final(v)@) == insert_by(x@, views(old(v)@), key),
{
    let ghost s = views(v@);
    let kx = key.value(&x);
    let mut p: usize = 0;
    let mut found = false;
    while !found && p < v.len()
        invariant
            p <= v@.len(),
            found ==> p < v@.len() && key_of(x@, key) < key_of(s[p as int], key),
            s == views(v@),
            *v == *old(v),
            kx as int == key_of(x@, key),
            forall|q: int| 0 <= q < p ==> !(key_of(x@, key) < key_of(#[trigger] s[q], key)),
        decreases v@.len() - p + (if found { 0int } else { 1int }),
    {
        assert(s[p as int] == v@[p as int]@);
        if kx < key.value(&v[p]) {
            found = true;
        } else {
            p = p + 1;
        }
    }
    proof {
        lemma_insert_at(x@, s, key, p as int);
    }
    let ghost xv = x@;
    v.insert(p, x);
    proof {
        assert(views(v@) =~= s.subrange(0, p as int).push(xv) + s.subrange(p as int, s.len() as int));
    }
}

/// The records of `v` in the stable ascending order of `key`.
pub fn sorted_copy(v: &Vec<Shoe>, key: SortKey) -> (r: Vec<Shoe>)
    ensures
        views(r@) == sort_by(views(v@), key),
{
    let mut out: Vec<Shoe> = Vec::new();
    let mut i: usize = 0;
    proof {
        assert(views(v@).subrange(0, 0) =~= Seq::<ShoeView>::empty());
        assert(views(out@) =~= Seq::<ShoeView>::empty());
    }
    while i < v.len()
        invariant
            i <= v@.len(),
            views(out@) == sort_by(views(v@).subrange(0, i as int), key),
        decreases v@.len() - i,
    {
        let ghost l = views(v@);
        proof {
            assert(l.subrange(0, i + 1).drop_last() =~= l.subrange(0, i as int));
            assert(l.subrange(0, i + 1).last() == v@[i as int]@);
        }
        insert_sorted(&mut out, v[i].duplicate(), key);
        i = i + 1;
    }
    proof {
        assert(views(v@).subrange(0, v@.len() as int) =~= views(v@));
    }
    out
}

/// Page `page` of `v`, with `size` records to a page.
pub fn page_copy(v: &Vec<Shoe>, page: u64, size: u64) -> (r: Vec<Shoe>)
    ensures
        views(r@) == page_of(views(v@), page as int, size as int),
{
    let n = v.len() as u128;
    proof {
        assert((page as int) * (size as int) <= 0xffff_ffff_ffff_ffffint * 0xffff_ffff_ffff_ffffint)
            by (nonlinear_arith)
            requires
                page <= 0xffff_ffff_ffff_ffffu64,
                size <= 0xffff_ffff_ffff_ffffu64,
        ;
    }
    let start: u128 = page as u128 * size as u128;
    let mut out: Vec<Shoe> = Vec::new();
    if start >= n {
        proof {
            assert(views(out@) =~= page_of(views(v@), page as int, size as int));
        }
        return out;
    }
    let end: u128 = if start + size as u128 <= n { start + size as u128 } else { n };
    let mut i: usize = start as usize;
    while i < end as usize
        invariant
            start <= i <= end <= n,
            n == v@.len(),
            views(out@) == views(v@).subrange(start as int, i as int),
        decreases end - i,
    {
        let ghost before = views(out@);
        out.push(v[i].duplicate());
        proof {
            assert(views(out@) =~= before.push(v@[i as int]@));
            assert(views(out@) =~= views(v@).subrange(start as int, i + 1));
        }
        i = i + 1;
    }
    proof {
        assert(views(out@) =~= page_of(views(v@), page as int, size as int));
    }
    out
}

} // verus!
