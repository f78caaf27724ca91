use vstd::prelude::*;
use crate::types::{Invalid, ShoePayload};

verus! {

pub open spec fn is_letter(c: char) -> bool {
    ('a' <= c && c <= 'z') || ('A' <= c && c <= 'Z')
}

pub open spec fn is_digit(c: char) -> bool {
    '0' <= c && c <= '9'
}

pub open spec fn is_alnum(c: char) -> bool {
    is_letter(c) || is_digit(c)
}

pub open spec fn is_separator(c: char) -> bool {
    c == '.' || c == '-'
}

/// `s` begins with `p`.
pub open spec fn starts_with(s: Seq<char>, p: Seq<char>) -> bool {
    p.len() <= s.len() && s.subrange(0, p.len() as int) == p
}

/// `s` without a leading `https://` or `http://`.
pub open spec fn without_scheme(s: Seq<char>) -> Seq<char> {
    if starts_with(s, "https://"@) {
        s.subrange(8, s.len() as int)
    } else if starts_with(s, "http://"@) {
        s.subrange(7, s.len() as int)
    } else {
        s
    }
}

/// Labels of letters and digits joined by single `.` or `-`.
pub open spec fn domain_ok(d: Seq<char>) -> bool {
    &&& d.len() > 0
    &&& is_alnum(d[0])
    &&& is_alnum(d.last())
    &&& forall|i: int| 0 <= i < d.len() ==> is_alnum(#[trigger] d[i]) || is_separator(d[i])
    &&& forall|i: int| 0 <= i < d.len() - 1 && is_separator(#[trigger] d[i]) ==> !is_separator(d[i + 1])
}

/// A top-level label: two to five letters.
pub open spec fn tld_ok(t: Seq<char>) -> bool {
    2 <= t.len() <= 5 && forall|i: int| 0 <= i < t.len() ==> is_letter(#[trigger] t[i])
}

/// A host: a domain, a dot, and a top-level label.
pub open spec fn host_ok(h: Seq<char>) -> bool {
    exists|d: int|
        0 < d < h.len() && #[trigger] h[d] == '.' && domain_ok(h.subrange(0, d)) && tld_ok(
            h.subrange(d + 1, h.len() as int),
        )
}

/// A port: one to five digits.
pub open spec fn port_ok(p: Seq<char>) -> bool {
    1 <= p.len() <= 5 && forall|i: int| 0 <= i < p.len() ==> is_digit(#[trigger] p[i])
}

/// A host, optionally followed by `:` and a port.
pub open spec fn authority_ok(a: Seq<char>) -> bool {
    if exists|i: int| 0 <= i < a.len() && #[trigger] a[i] == ':' {
        exists|c: int|
            0 <= c < a.len() && #[trigger] a[c] == ':' && (forall|i: int| 0 <= i < c ==> #[trigger] a[i] != ':')
                && host_ok(a.subrange(0, c)) && port_ok(a.subrange(c + 1, a.len() as int))
    } else {
        host_ok(a)
    }
}

/// Whether `s` has the shape of a web address: an optional `http://` or
/// `https://`, an authority, and an optional path that starts with `/`.
pub open spec fn url_shape(s: Seq<char>) -> bool {
    exists|a: int| #[trigger] authority_ends_at(without_scheme(s), a)
}

/// `r[..a]` is an authority, and the path, if any, starts at `a`.
pub open spec fn authority_ends_at(r: Seq<char>, a: int) -> bool {
    &&& 0 <= a <= r.len()
    &&& (a == r.len() || r[a] == '/')
    &&& forall|i: int| 0 <= i < a ==> #[trigger] r[i] != '/'
    &&& authority_ok(r.subrange(0, a))
}

/// The first rule that a payload breaks, checked in order: the image url, the
/// price, the quantity.
pub open spec fn first_invalid(p: &ShoePayload) -> Option<Invalid> {
    if !url_shape(p.shoe_url@) {
        Some(Invalid::ImageUrl)
    } else if p.price < 0 {
        Some(Invalid::NegativePrice)
    } else if p.quantity <= 0 {
        Some(Invalid::NonPositiveQuantity)
    } else {
        None
    }
}

fn letter(c: char) -> (r: bool)
    ensures
        r == is_letter(c),
{
    ('a' <= c && c <= 'z') || ('A' <= c && c <= 'Z')
}

fn digit(c: char) -> (r: bool)
    ensures
        r == is_digit(c),
{
    '0' <= c && c <= '9'
}

fn separator(c: char) -> (r: bool)
    ensures
        r == is_separator(c),
{
    c == '.' || c == '-'
}

/// The position of the first `c` in `cs[lo..hi]`, or `hi`.
fn find_first(cs: &Vec<char>, lo: usize, hi: usize, c: char) -> (r: usize)
    requires
        lo <= hi <= cs@.len(),
    ensures
        lo <= r <= hi,
        r < hi ==> cs@[r as int] == c,
        forall|i: int| lo <= i < r ==> cs@[i] != c,
{
    let mut i = lo;
    while i < hi
        invariant
            lo <= i <= hi <= cs@.len(),
            forall|j: int| lo <= j < i ==> cs@[j] != c,
        decreases hi - i,
    {
        if cs[i] == c {
            return i;
        }
        i = i + 1;
    }
    hi
}

/// The position of the last `c` in `cs[lo..hi]`, or `hi`.
fn find_last(cs: &Vec<char>, lo: usize, hi: usize, c: char) -> (r: usize)
    requires
        lo <= hi <= cs@.len(),
    ensures
        lo <= r <= hi,
        r < hi ==> cs@[r as int] == c && forall|i: int| r < i < hi ==> cs@[i] != c,
        r == hi ==> forall|i: int| lo <= i < hi ==> cs@[i] != c,
{
    let mut i = hi;
    while i > lo
        invariant
            lo <= i <= hi <= cs@.len(),
            forall|j: int| i <= j < hi ==> cs@[j] != c,
        decreases i - lo,
    {
        if cs[i - 1] == c {
            return i - 1;
        }
        i = i - 1;
    }
    hi
}

/// Whether `cs[lo..hi]` is a top-level label.
fn tld_at(cs: &Vec<char>, lo: usize, hi: usize) -> (r: bool)
    requires
        lo <= hi <= cs@.len(),
    ensures
        r == tld_ok(cs@.subrange(lo as int, hi as int)),
{
    let ghost t = cs@.subrange(lo as int, hi as int);
    if hi - lo < 2 || hi - lo > 5 {
        return false;
    }
    let mut i = lo;
    while i < hi
        invariant
            lo <= i <= hi <= cs@.len(),
            t == cs@.subrange(lo as int, hi as int),
            forall|j: int| 0 <= j < i - lo ==> is_letter(#[trigger] t[j]),
        decreases hi - i,
    {
        if !letter(cs[i]) {
            assert(!is_letter(t[i - lo]));
            return false;
        }
        i = i + 1;
    }
    true
}

/// Whether `cs[lo..hi]` is a port.
fn port_at(cs: &Vec<char>, lo: usize, hi: usize) -> (r: bool)
    requires
        lo <= hi <= cs@.len(),
    ensures
        r == port_ok(cs@.subrange(lo as int, hi as int)),
{
    let ghost t = cs@.subrange(lo as int, hi as int);
    if hi - lo < 1 || hi - lo > 5 {
        return false;
    }
    let mut i = lo;
    while i < hi
        invariant
            lo <= i <= hi <= cs@.len(),
            t == cs@.subrange(lo as int, hi as int),
            forall|j: int| 0 <= j < i - lo ==> is_digit(#[trigger] t[j]),
        decreases hi - i,
    {
        if !digit(cs[i]) {
            assert(!is_digit(t[i - lo]));
            return false;
        }
        i = i + 1;
    }
    true
}

/// Whether `cs[lo..hi]` is a domain.
fn domain_at(cs: &Vec<char>, lo: usize, hi: usize) -> (r: bool)
    requires
        lo <= hi <= cs@.len(),
    ensures
        r == domain_ok(cs@.subrange(lo as int, hi as int)),
{
    let ghost d = cs@.subrange(lo as int, hi as int);
    if hi == lo {
        return false;
    }
    if !(letter(cs[lo]) || digit(cs[lo])) || !(letter(cs[hi - 1]) || digit(cs[hi - 1])) {
        assert(d[0] == cs@[lo as int] && d.last() == cs@[hi - 1]);
        return false;
    }
    let mut i = lo;
    while i < hi
        invariant
            lo <= i <= hi <= cs@.len(),
            lo < hi,
            d == cs@.subrange(lo as int, hi as int),
            forall|j: int| 0 <= j < i - lo ==> is_alnum(#[trigger] d[j]) || is_separator(d[j]),
            forall|j: int| 0 <= j < i - lo && j < d.len() - 1 && is_separator(#[trigger] d[j]) ==> !is_separator(d[j + 1]),
        decreases hi - i,
    {
        let c = cs[i];
        assert(d[i - lo] == c);
        if !(letter(c) || digit(c) || separator(c)) {
            return false;
        }
        if separator(c) && i + 1 < hi && separator(cs[i + 1]) {
            assert(d[i + 1 - lo] == cs@[i + 1]);
            return false;
        }
        proof {
            if i + 1 < hi {
                assert(d[i + 1 - lo] == cs@[i + 1]);
            }
        }
        i = i + 1;
    }
    true
}

/// Whether `cs[lo..hi]` is a host.
fn host_at(cs: &Vec<char>, lo: usize, hi: usize) -> (r: bool)
    requires
        lo <= hi <= cs@.len(),
    ensures
        r == host_ok(cs@.subrange(lo as int, hi as int)),
{
    let ghost h = cs@.subrange(lo as int, hi as int);
    let d = find_last(cs, lo, hi, '.');
    if d == hi || d == lo {
        proof {
            if host_ok(h) {
                let e = choose|e: int|
                    0 < e < h.len() && #[trigger] h[e] == '.' && domain_ok(h.subrange(0, e)) && tld_ok(
                        h.subrange(e + 1, h.len() as int),
                    );
                assert(h[e] == cs@[lo + e]);
                if d == lo {
                    let t = h.subrange(e + 1, h.len() as int);
                    assert(t[d - lo - e - 1 + 0] == t[0]);
                    assert(is_letter(t[0]));
                    assert(cs@[lo + e] == '.');
                }
            }
        }
        return false;
    }
    let ok = domain_at(cs, lo, d) && tld_at(cs, d + 1, hi);
    proof {
        let e = (d - lo) as int;
        assert(h[e] == cs@[d as int]);
        assert(h.subrange(0, e) =~= cs@.subrange(lo as int, d as int));
        assert(h.subrange(e + 1, h.len() as int) =~= cs@.subrange(d + 1, hi as int));
        if host_ok(h) && !ok {
            let f = choose|f: int|
                0 < f < h.len() && #[trigger] h[f] == '.' && domain_ok(h.subrange(0, f)) && tld_ok(
                    h.subrange(f + 1, h.len() as int),
                );
            assert(h[f] == cs@[lo + f]);
            if f < e {
                let t = h.subrange(f + 1, h.len() as int);
                assert(t[e - f - 1] == h[e]);
                assert(is_letter(t[e - f - 1]));
            } else if f > e {
                assert(cs@[lo + f] != '.');
            }
        }
    }
    ok
}

/// Whether `cs[lo..hi]` is an authority: a host with an optional port.
fn authority_at(cs: &Vec<char>, lo: usize, hi: usize) -> (r: bool)
    requires
        lo <= hi <= cs@.len(),
    ensures
        r == authority_ok(cs@.subrange(lo as int, hi as int)),
{
    let ghost a = cs@.subrange(lo as int, hi as int);
    let c = find_first(cs, lo, hi, ':');
    if c == hi {
        proof {
            assert forall|i: int| 0 <= i < a.len() implies #[trigger] a[i] != ':' by {
                assert(a[i] == cs@[lo + i]);
            }
        }
        return host_at(cs, lo, hi);
    }
    let ok = host_at(cs, lo, c) && port_at(cs, c + 1, hi);
    proof {
        let k = (c - lo) as int;
        assert(a[k] == cs@[c as int]);
        assert forall|i: int| 0 <= i < k implies #[trigger] a[i] != ':' by {
            assert(a[i] == cs@[lo + i]);
        }
        assert(a.subrange(0, k) =~= cs@.subrange(lo as int, c as int));
        assert(a.subrange(k + 1, a.len() as int) =~= cs@.subrange(c + 1, hi as int));
        if authority_ok(a) != ok {
            let m = choose|m: int|
                0 <= m < a.len() && #[trigger] a[m] == ':' && (forall|i: int| 0 <= i < m ==> #[trigger] a[i] != ':')
                    && host_ok(a.subrange(0, m)) && port_ok(a.subrange(m + 1, a.len() as int));
            assert(a[m] == cs@[lo + m]);
            if m < k {
            } else if m > k {
                assert(a[k] != ':');
            }
        }
    }
    ok
}

/// The characters of `s`.
fn chars_of(s: &str) -> (r: Vec<char>)
    ensures
        r@ == s@,
{
    let n = s.unicode_len();
    let mut r: Vec<char> = Vec::new();
    let mut i: usize = 0;
    while i < n
        invariant
            n == s@.len(),
            i <= n,
            r@ == s@.subrange(0, i as int),
        decreases n - i,
    {
        r.push(s.get_char(i));
        i = i + 1;
        proof {
            assert(r@ =~= s@.subrange(0, i as int));
        }
    }
    proof {
        assert(s@.subrange(0, n as int) =~= s@);
    }
    r
}

/// Whether `cs` begins with `p`.
fn has_prefix(cs: &Vec<char>, p: &str) -> (r: bool)
    ensures
        r == starts_with(cs@, p@),
{
    let n = p.unicode_len();
    if n > cs.len() {
        return false;
    }
    let mut i: usize = 0;
    while i < n
        invariant
            n == p@.len(),
            n <= cs@.len(),
            i <= n,
            forall|j: int| 0 <= j < i ==> cs@[j] == p@[j],
        decreases n - i,
    {
        if cs[i] != p.get_char(i) {
            assert(cs@.subrange(0, n as int)[i as int] != p@[i as int]);
            return false;
        }
        i = i + 1;
    }
    proof {
        assert(cs@.subrange(0, n as int) =~= p@);
    }
    true
}

/// Checks whether `s` has the shape of a web address.
pub fn is_url(s: &str) -> (r: bool)
    ensures
        r == url_shape(s@),
{
    let cs = chars_of(s);
    let n = cs.len();
    let b: usize = if has_prefix(&cs, "https://") {
        proof {
            reveal_strlit("https://");
        }
        8
    } else if has_prefix(&cs, "http://") {
        proof {
            reveal_strlit("http://");
        }
        7
    } else {
        0
    };
    proof {
        reveal_strlit("https://");
        reveal_strlit("http://");
        assert(without_scheme(s@) =~= cs@.subrange(b as int, n as int));
    }
    let a = find_first(&cs, b, n, '/');
    let ok = authority_at(&cs, b, a);
    proof {
        let r = without_scheme(s@);
        let k = (a - b) as int;
        assert(r.subrange(0, k) =~= cs@.subrange(b as int, a as int));
        assert forall|i: int| 0 <= i < k implies #[trigger] r[i] != '/' by {
            assert(r[i] == cs@[b + i]);
        }
        if a < n {
            assert(r[k] == cs@[a as int]);
        }
        if ok {
            assert(authority_ends_at(r, k));
        }
        if url_shape(s@) {
            let m = choose|m: int| #[trigger] authority_ends_at(r, m);
            if m < k {
                assert(r[m] != '/');
            } else if m > k {
                assert(r[k] != '/');
            }
        }
    }
    ok
}

/// Checks a payload; `None` when every rule passes.
pub fn check_payload(p: &ShoePayload) -> (r: Option<Invalid>)
    ensures
        r == first_invalid(p),
{
    if !is_url(p.shoe_url.as_str()) {
        Some(Invalid::ImageUrl)
    } else if p.price < 0 {
        Some(Invalid::NegativePrice)
    } else if p.quantity <= 0 {
        Some(Invalid::NonPositiveQuantity)
    } else {
        None
    }
}

} // verus!
