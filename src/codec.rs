use vstd::prelude::*;
use vstd::utf8::{decode_utf8, encode_utf8, encode_utf8_decode_utf8, encode_utf8_valid_utf8, valid_utf8};
use vstd::string::StrSliceExecFns;
use crate::types::{Shoe, ShoeView};

verus! {

/// The most bytes that a record may take in stored form.
pub const MAX_RECORD_BYTES: usize = 1024;

/// The eight little-endian bytes of `x`.
pub open spec fn u64_bytes(x: u64) -> Seq<u8> {
    seq![
        x as u8,
        (x >> 8) as u8,
        (x >> 16) as u8,
        (x >> 24) as u8,
        (x >> 32) as u8,
        (x >> 40) as u8,
        (x >> 48) as u8,
        (x >> 56) as u8,
    ]
}

/// The UTF-8 bytes of `s`, after their count.
pub open spec fn str_bytes(s: Seq<char>) -> Seq<u8> {
    u64_bytes(encode_utf8(s).len() as u64) + encode_utf8(s)
}

/// Each text of `l` in turn.
pub open spec fn list_bytes(l: Seq<Seq<char>>) -> Seq<u8>
    decreases l.len(),
{
    if l.len() == 0 {
        Seq::empty()
    } else {
        str_bytes(l[0]) + list_bytes(l.drop_first())
    }
}

/// A signed 16-bit value shifted into the unsigned range.
pub open spec fn i16_code(x: i16) -> u64 {
    (x as int + 32768) as u64
}

/// `0`, or `1` followed by the value.
pub open spec fn opt_bytes(o: Option<u64>) -> Seq<u8> {
    match o {
        Some(t) => u64_bytes(1) + u64_bytes(t),
        None => u64_bytes(0),
    }
}

/// Field `k` of a record in stored form, in the order id, owner, name, size,
/// image url, price, quantity, like, created at, updated at, number of likes,
/// and the identities that liked it.
pub open spec fn part(v: ShoeView, k: int) -> Seq<u8> {
    if k == 0 {
        u64_bytes(v.id)
    } else if k == 1 {
        str_bytes(v.owner)
    } else if k == 2 {
        str_bytes(v.name)
    } else if k == 3 {
        str_bytes(v.size)
    } else if k == 4 {
        str_bytes(v.shoe_url)
    } else if k == 5 {
        u64_bytes(i16_code(v.price))
    } else if k == 6 {
        u64_bytes(i16_code(v.quantity))
    } else if k == 7 {
        u64_bytes(v.like as u64)
    } else if k == 8 {
        u64_bytes(v.created_at)
    } else if k == 9 {
        opt_bytes(v.updated_at)
    } else if k == 10 {
        u64_bytes(v.liked_by.len() as u64)
    } else {
        list_bytes(v.liked_by)
    }
}

/// The fields from `k` on, in stored form.
pub open spec fn tail(v: ShoeView, k: int) -> Seq<u8>
    decreases 12 - k,
{
    if k >= 12 || k < 0 {
        Seq::empty()
    } else {
        part(v, k) + tail(v, k + 1)
    }
}

/// The stored form of a record.
pub open spec fn record_bytes(v: ShoeView) -> Seq<u8> {
    tail(v, 0)
}

proof fn lemma_tail_step(prefix: Seq<u8>, v: ShoeView, k: int)
    requires
        0 <= k < 12,
        prefix + tail(v, k) == record_bytes(v),
    ensures
        (prefix + part(v, k)) + tail(v, k + 1) == record_bytes(v),
{
    assert((prefix + part(v, k)) + tail(v, k + 1) =~= prefix + tail(v, k));
}

proof fn lemma_list_bytes_push(l: Seq<Seq<char>>, x: Seq<char>)
    ensures
        list_bytes(l.push(x)) == list_bytes(l) + str_bytes(x),
    decreases l.len(),
{
    if l.len() == 0 {
        assert(l.push(x).drop_first() =~= Seq::<Seq<char>>::empty());
        assert(list_bytes(l.push(x).drop_first()) == Seq::<u8>::empty());
        assert(list_bytes(l) == Seq::<u8>::empty());
        assert(l.push(x)[0] == x);
        assert(list_bytes(l.push(x)) =~= list_bytes(l) + str_bytes(x));
    } else {
        lemma_list_bytes_push(l.drop_first(), x);
        assert(l.push(x).drop_first() =~= l.drop_first().push(x));
        assert(l.push(x)[0] == l[0]);
        assert(list_bytes(l.push(x)) == str_bytes(l[0]) + list_bytes(l.drop_first().push(x)));
        assert(list_bytes(l.push(x)) =~= list_bytes(l) + str_bytes(x));
    }
}

fn push_u64(out: &mut Vec<u8>, x: u64)
    ensures
        final(out)@ == old(out)@ + u64_bytes(x),
{
    out.push(#[verifier::truncate] (x as u8));
    out.push(#[verifier::truncate] ((x >> 8) as u8));
    out.push(#[verifier::truncate] ((x >> 16) as u8));
    out.push(#[verifier::truncate] ((x >> 24) as u8));
    out.push(#[verifier::truncate] ((x >> 32) as u8));
    out.push(#[verifier::truncate] ((x >> 40) as u8));
    out.push(#[verifier::truncate] ((x >> 48) as u8));
    out.push(#[verifier::truncate] ((x >> 56) as u8));
    proof {
        assert(out@ =~= old(out)@ + u64_bytes(x));
    }
}

fn push_str(out: &mut Vec<u8>, s: &String)
    ensures
        final(out)@ == old(out)@ + str_bytes(s@),
{
    let mut bytes = s.as_str().as_bytes_vec();
    push_u64(out, bytes.len() as u64);
    out.append(&mut bytes);
    proof {
        assert(out@ =~= old(out)@ + str_bytes(s@));
    }
}

/// The stored form of `s`.
pub fn encode(s: &Shoe) -> (r: Vec<u8>)
    ensures
        r@ == record_bytes(s@),
{
    let ghost v = s@;
    let mut out: Vec<u8> = Vec::new();
    proof {
        assert(out@ + tail(v, 0) =~= record_bytes(v));
    }
    let ghost p0 = out@;
    push_u64(&mut out, s.id);
    proof {
        lemma_tail_step(p0, v, 0);
    }
    let ghost p1 = out@;
    push_str(&mut out, &s.owner);
    proof {
        lemma_tail_step(p1, v, 1);
    }
    let ghost p2 = out@;
    push_str(&mut out, &s.name);
    proof {
        lemma_tail_step(p2, v, 2);
    }
    let ghost p3 = out@;
    push_str(&mut out, &s.size);
    proof {
        lemma_tail_step(p3, v, 3);
    }
    let ghost p4 = out@;
    push_str(&mut out, &s.shoe_url);
    proof {
        lemma_tail_step(p4, v, 4);
    }
    let ghost p5 = out@;
    push_u64(&mut out, (s.price as i32 + 32768) as u64);
    proof {
        lemma_tail_step(p5, v, 5);
    }
    let ghost p6 = out@;
    push_u64(&mut out, (s.quantity as i32 + 32768) as u64);
    proof {
        lemma_tail_step(p6, v, 6);
    }
    let ghost p7 = out@;
    push_u64(&mut out, s.like as u64);
    proof {
        lemma_tail_step(p7, v, 7);
    }
    let ghost p8 = out@;
    push_u64(&mut out, s.created_at);
    proof {
        lemma_tail_step(p8, v, 8);
    }
    let ghost p9 = out@;
    match s.updated_at {
        Some(t) => {
            push_u64(&mut out, 1);
            push_u64(&mut out, t);
        },
        None => push_u64(&mut out, 0),
    }
    proof {
        assert(out@ =~= p9 + part(v, 9));
        lemma_tail_step(p9, v, 9);
    }
    let ghost p10 = out@;
    push_u64(&mut out, s.liked_by.len() as u64);
    proof {
        lemma_tail_step(p10, v, 10);
    }
    let ghost head = out@;
    let ghost l = s.liked_by.deep_view();
    let mut i: usize = 0;
    proof {
        assert(l.subrange(0, 0) =~= Seq::<Seq<char>>::empty());
        assert(out@ =~= head + list_bytes(l.subrange(0, 0)));
    }
    while i < s.liked_by.len()
        invariant
            i <= s.liked_by@.len(),
            l == s.liked_by.deep_view(),
            out@ == head + list_bytes(l.subrange(0, i as int)),
        decreases s.liked_by@.len() - i,
    {
        push_str(&mut out, &s.liked_by[i]);
        proof {
            lemma_list_bytes_push(l.subrange(0, i as int), l[i as int]);
            assert(l.subrange(0, i as int).push(l[i as int]) =~= l.subrange(0, i + 1));
            assert(out@ =~= head + list_bytes(l.subrange(0, i + 1)));
        }
        i = i + 1;
    }
    proof {
        assert(l.subrange(0, l.len() as int) =~= l);
        lemma_tail_step(head, v, 11);
        assert(out@ =~= record_bytes(v));
    }
    out
}

/// Relies on `String::from_utf8`: it accepts exactly the valid UTF-8 byte
/// sequences, and the text is their decoding.
#[verifier::external_body]
fn string_from_utf8(bytes: Vec<u8>) -> (r: Option<String>)
    ensures
        r is Some == valid_utf8(bytes@),
        r matches Some(t) ==> t@ == decode_utf8(bytes@),
{
    String::from_utf8(bytes).ok()
}

proof fn lemma_split(b: Seq<u8>, pos: int, a: Seq<u8>, rest: Seq<u8>)
    requires
        0 <= pos <= b.len(),
        b.subrange(pos, b.len() as int) == a + rest,
    ensures
        pos + a.len() <= b.len(),
        b.subrange(pos, pos + a.len()) == a,
        b.subrange(pos + a.len(), b.len() as int) == rest,
{
    let t = b.subrange(pos, b.len() as int);
    assert(t.len() == a.len() + rest.len());
    assert(b.subrange(pos, pos + a.len()) =~= a) by {
        assert forall|k: int| 0 <= k < a.len() implies b.subrange(pos, pos + a.len())[k] == a[k] by {
            assert(t[k] == (a + rest)[k]);
        }
    }
    assert(b.subrange(pos + a.len(), b.len() as int) =~= rest) by {
        assert forall|k: int| 0 <= k < rest.len() implies b.subrange(pos + a.len(), b.len() as int)[k] == rest[k] by {
            assert(t[a.len() + k] == (a + rest)[a.len() + k]);
        }
    }
}

proof fn lemma_list_len(l: Seq<Seq<char>>)
    ensures
        l.len() <= list_bytes(l).len(),
    decreases l.len(),
{
    if l.len() > 0 {
        lemma_list_len(l.drop_first());
    }
}

fn take_u64(b: &Vec<u8>, pos: usize, Ghost(x): Ghost<u64>, Ghost(rest): Ghost<Seq<u8>>) -> (r: Option<(u64, usize)>)
    ensures
        r matches Some(p) ==> p.1 <= b@.len(),
        pos <= b@.len() && b@.subrange(pos as int, b@.len() as int) == u64_bytes(x) + rest ==> (r matches Some(p)
            && p.0 == x && p.1 == pos + 8 && b@.subrange(pos + 8, b@.len() as int) == rest),
{
    let len = b.len();
    if pos > len || len - pos < 8 {
        proof {
            if pos <= b@.len() && b@.subrange(pos as int, b@.len() as int) == u64_bytes(x) + rest {
                assert(u64_bytes(x).len() == 8);
                lemma_split(b@, pos as int, u64_bytes(x), rest);
            }
        }
        return None;
    }
    let b0 = b[pos];
    let b1 = b[pos + 1];
    let b2 = b[pos + 2];
    let b3 = b[pos + 3];
    let b4 = b[pos + 4];
    let b5 = b[pos + 5];
    let b6 = b[pos + 6];
    let b7 = b[pos + 7];
    let r = (b0 as u64) | ((b1 as u64) << 8) | ((b2 as u64) << 16) | ((b3 as u64) << 24) | ((b4 as u64) << 32)
        | ((b5 as u64) << 40) | ((b6 as u64) << 48) | ((b7 as u64) << 56);
    proof {
        if b@.subrange(pos as int, b@.len() as int) == u64_bytes(x) + rest {
            assert(u64_bytes(x).len() == 8);
            lemma_split(b@, pos as int, u64_bytes(x), rest);
            assert forall|k: int| 0 <= k < 8 implies b@[pos + k] == #[trigger] u64_bytes(x)[k] by {
                assert(b@.subrange(pos as int, pos + 8)[k] == b@[pos + k]);
            }
            assert(b0 == u64_bytes(x)[0] && b1 == u64_bytes(x)[1] && b2 == u64_bytes(x)[2] && b3 == u64_bytes(x)[3]);
            assert(b4 == u64_bytes(x)[4] && b5 == u64_bytes(x)[5] && b6 == u64_bytes(x)[6] && b7 == u64_bytes(x)[7]);
            assert(r == x) by (bit_vector)
                requires
                    b0 == x as u8,
                    b1 == (x >> 8) as u8,
                    b2 == (x >> 16) as u8,
                    b3 == (x >> 24) as u8,
                    b4 == (x >> 32) as u8,
                    b5 == (x >> 40) as u8,
                    b6 == (x >> 48) as u8,
                    b7 == (x >> 56) as u8,
                    r == (b0 as u64) | ((b1 as u64) << 8) | ((b2 as u64) << 16) | ((b3 as u64) << 24) | ((b4
                        as u64) << 32) | ((b5 as u64) << 40) | ((b6 as u64) << 48) | ((b7 as u64) << 56),
            ;
        }
    }
    Some((r, pos + 8))
}

fn take_str(b: &Vec<u8>, pos: usize, Ghost(s): Ghost<Seq<char>>, Ghost(rest): Ghost<Seq<u8>>) -> (r: Option<(String, usize)>)
    ensures
        r matches Some(p) ==> p.1 <= b@.len(),
        pos <= b@.len() && b@.subrange(pos as int, b@.len() as int) == str_bytes(s) + rest ==> (r matches Some(p)
            && p.0@ == s && b@.subrange(p.1 as int, b@.len() as int) == rest),
{
    let len = b.len();
    let ghost e = encode_utf8(s);
    let ghost hyp = pos <= b@.len() && b@.subrange(pos as int, b@.len() as int) == str_bytes(s) + rest;
    proof {
        if hyp {
            lemma_split(b@, pos as int, str_bytes(s), rest);
            assert(e.len() <= u64::MAX);
            assert(str_bytes(s) + rest =~= u64_bytes(e.len() as u64) + (e + rest));
        }
    }
    let (n, start) = match take_u64(b, pos, Ghost(e.len() as u64), Ghost(e + rest)) {
        Some(x) => x,
        None => return None,
    };
    proof {
        if hyp {
            lemma_split(b@, start as int, e, rest);
            assert(n as int == e.len());
        }
    }
    if n > (len - start) as u64 {
        return None;
    }
    let end = start + n as usize;
    let mut v: Vec<u8> = Vec::new();
    let mut i = start;
    while i < end
        invariant
            start <= i <= end <= b@.len(),
            v@ == b@.subrange(start as int, i as int),
        decreases end - i,
    {
        v.push(b[i]);
        i = i + 1;
        proof {
            assert(v@ =~= b@.subrange(start as int, i as int));
        }
    }
    proof {
        encode_utf8_valid_utf8(s);
        encode_utf8_decode_utf8(s);
    }
    match string_from_utf8(v) {
        Some(t) => Some((t, end)),
        None => None,
    }
}

fn take_likes(b: &Vec<u8>, pos: usize, Ghost(l): Ghost<Seq<Seq<char>>>) -> (r: Option<Vec<String>>)
    ensures
        pos <= b@.len() && b@.subrange(pos as int, b@.len() as int) == u64_bytes(l.len() as u64) + list_bytes(l)
            ==> (r matches Some(v) && v.deep_view() == l),
{
    let len = b.len();
    let ghost hyp = pos <= b@.len() && b@.subrange(pos as int, b@.len() as int) == u64_bytes(l.len() as u64)
        + list_bytes(l);
    proof {
        if hyp {
            lemma_list_len(l);
            lemma_split(b@, pos as int, u64_bytes(l.len() as u64), list_bytes(l));
            assert(l.len() <= u64::MAX);
        }
    }
    let (count, start) = match take_u64(b, pos, Ghost(l.len() as u64), Ghost(list_bytes(l))) {
        Some(x) => x,
        None => return None,
    };
    if count > len as u64 {
        return None;
    }
    let count = count as usize;
    let mut at = start;
    let mut liked_by: Vec<String> = Vec::new();
    let mut j: usize = 0;
    proof {
        if hyp {
            assert(l.subrange(0, l.len() as int) =~= l);
            assert(l.subrange(0, 0) =~= Seq::<Seq<char>>::empty());
            assert(liked_by.deep_view() =~= l.subrange(0, 0));
        }
    }
    while j < count
        invariant
            j <= count,
            at <= b@.len(),
            hyp == (pos <= b@.len() && b@.subrange(pos as int, b@.len() as int) == u64_bytes(l.len() as u64)
                + list_bytes(l)),
            hyp ==> count == l.len() && b@.subrange(at as int, b@.len() as int) == list_bytes(
                l.subrange(j as int, l.len() as int),
            ) && liked_by.deep_view() == l.subrange(0, j as int),
        decreases count - j,
    {
        let ghost sub = l.subrange(j as int, l.len() as int);
        proof {
            if hyp {
                assert(sub[0] == l[j as int]);
                assert(sub.drop_first() =~= l.subrange(j + 1, l.len() as int));
                assert(list_bytes(sub) == str_bytes(sub[0]) + list_bytes(sub.drop_first()));
            }
        }
        let (t, next) = match take_str(b, at, Ghost(l[j as int]), Ghost(list_bytes(l.subrange(j + 1, l.len() as int)))) {
            Some(x) => x,
            None => return None,
        };
        let ghost before = liked_by.deep_view();
        let ghost tv = t@;
        liked_by.push(t);
        proof {
            assert(liked_by.deep_view() =~= before.push(tv));
        }
        at = next;
        j = j + 1;
        proof {
            if hyp {
                assert(liked_by.deep_view() =~= l.subrange(0, j as int));
            }
        }
    }
    proof {
        if hyp {
            assert(liked_by.deep_view() =~= l);
        }
    }
    Some(liked_by)
}

/// Reads a record from `b` field by field; `None` where a field runs past
/// the end or a text is not UTF-8. Where `b` is the stored form of `v`, the
/// result is `v`. Other bytes may also give a record: callers that need its
/// stored form to be `b` compare `encode` of it with `b`.
pub(crate) fn parse(b: &Vec<u8>, Ghost(v): Ghost<ShoeView>) -> (r: Option<Shoe>)
    ensures
        b@ == record_bytes(v) ==> (r matches Some(s) && s@ == v),
{
    proof {
        assert(b@.subrange(0, b@.len() as int) =~= b@);
    }
    let (id, pos) = match take_u64(b, 0, Ghost(v.id), Ghost(tail(v, 1))) { Some(x) => x, None => return None };
    let (owner, pos) = match take_str(b, pos, Ghost(v.owner), Ghost(tail(v, 2))) { Some(x) => x, None => return None };
    let (name, pos) = match take_str(b, pos, Ghost(v.name), Ghost(tail(v, 3))) { Some(x) => x, None => return None };
    let (size, pos) = match take_str(b, pos, Ghost(v.size), Ghost(tail(v, 4))) { Some(x) => x, None => return None };
    let (shoe_url, pos) = match take_str(b, pos, Ghost(v.shoe_url), Ghost(tail(v, 5))) {
        Some(x) => x,
        None => return None,
    };
    let (price, pos) = match take_u64(b, pos, Ghost(i16_code(v.price)), Ghost(tail(v, 6))) {
        Some(x) => x,
        None => return None,
    };
    let (quantity, pos) = match take_u64(b, pos, Ghost(i16_code(v.quantity)), Ghost(tail(v, 7))) {
        Some(x) => x,
        None => return None,
    };
    let (like, pos) = match take_u64(b, pos, Ghost(v.like as u64), Ghost(tail(v, 8))) {
        Some(x) => x,
        None => return None,
    };
    let (created_at, pos) = match take_u64(b, pos, Ghost(v.created_at), Ghost(tail(v, 9))) {
        Some(x) => x,
        None => return None,
    };
    let ghost tag = if v.updated_at is Some { 1u64 } else { 0u64 };
    let ghost after_tag = match v.updated_at {
        Some(t) => u64_bytes(t) + tail(v, 10),
        None => tail(v, 10),
    };
    proof {
        assert(tail(v, 9) =~= u64_bytes(tag) + after_tag);
    }
    let (has_update, pos) = match take_u64(b, pos, Ghost(tag), Ghost(after_tag)) {
        Some(x) => x,
        None => return None,
    };
    let (updated_at, pos) = if has_update == 1 {
        match take_u64(b, pos, Ghost(v.updated_at->Some_0), Ghost(tail(v, 10))) {
            Some((t, p)) => (Some(t), p),
            None => return None,
        }
    } else {
        (None, pos)
    };
    proof {
        assert(tail(v, 11) == part(v, 11) + tail(v, 12));
        assert(tail(v, 10) =~= u64_bytes(v.liked_by.len() as u64) + list_bytes(v.liked_by));
    }
    let liked_by = match take_likes(b, pos, Ghost(v.liked_by)) {
        Some(l) => l,
        None => return None,
    };
    if price > 0xffff || quantity > 0xffff || like > 0xffff_ffff {
        return None;
    }
    Some(Shoe {
        owner,
        id,
        name,
        size,
        shoe_url,
        price: (price as i32 - 32768) as i16,
        quantity: (quantity as i32 - 32768) as i16,
        like: like as u32,
        liked_by,
        created_at,
        updated_at,
    })
}

/// Whether two byte strings are equal.
pub(crate) fn same_bytes(a: &Vec<u8>, b: &Vec<u8>) -> (r: bool)
    ensures
        r == (a@ == b@),
{
    if a.len() != b.len() {
        return false;
    }
    let mut i: usize = 0;
    while i < a.len()
        invariant
            a@.len() == b@.len(),
            i <= a@.len(),
            forall|j: int| 0 <= j < i ==> a@[j] == b@[j],
        decreases a@.len() - i,
    {
        if a[i] != b[i] {
            return false;
        }
        i = i + 1;
    }
    proof {
        assert(a@ =~= b@);
    }
    true
}

} // verus!
