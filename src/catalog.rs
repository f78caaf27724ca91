use vstd::prelude::*;
use crate::types::{sort_key_named, Error, Invalid, Shoe, ShoePayload, ShoeSearchCriteria, ShoeView, SortKey};
use crate::ordering::{page_copy, page_of, sort_by, sorted_copy};
use crate::codec::{encode, parse, record_bytes, same_bytes, MAX_RECORD_BYTES};
use crate::store::StableTables;
use crate::validate::{check_payload, first_invalid};

verus! {

/// The views of a sequence of records.
pub open spec fn views(v: Seq<Shoe>) -> Seq<ShoeView> {
    v.map_values(|s: Shoe| s@)
}

/// Whether some record in `l` has id `id`.
pub open spec fn has_id(l: Seq<ShoeView>, id: u64) -> bool {
    exists|i: int| 0 <= i < l.len() && #[trigger] l[i].id == id
}

/// The position of the record with id `id` in `l`.
pub open spec fn index_of(l: Seq<ShoeView>, id: u64) -> int {
    choose|i: int| 0 <= i < l.len() && #[trigger] l[i].id == id
}

/// The ids in `l` increase strictly from each record to the next.
pub open spec fn ids_increasing(l: Seq<ShoeView>) -> bool {
    forall|i: int, j: int| 0 <= i < j < l.len() ==> #[trigger] l[i].id < #[trigger] l[j].id
}

/// No identity appears twice among those that liked a record.
pub open spec fn likes_distinct(s: ShoeView) -> bool {
    s.liked_by.no_duplicates()
}

/// The record that `add_shoe` builds.
pub open spec fn created_record(id: u64, caller: Seq<char>, now: u64, p: &ShoePayload) -> ShoeView {
    ShoeView {
        owner: caller,
        id,
        name: p.name@,
        size: p.size@,
        shoe_url: p.shoe_url@,
        price: p.price,
        quantity: p.quantity,
        like: 0,
        liked_by: Seq::empty(),
        created_at: now,
        updated_at: None,
    }
}

/// The record `s` after `update_shoe` with payload `p` at time `now`.
pub open spec fn updated_record(s: ShoeView, now: u64, p: &ShoePayload) -> ShoeView {
    ShoeView {
        name: p.name@,
        size: p.size@,
        shoe_url: p.shoe_url@,
        price: p.price,
        quantity: p.quantity,
        updated_at: Some(now),
        ..s
    }
}

/// The record `s` after `caller` liked it.
pub open spec fn liked_record(s: ShoeView, caller: Seq<char>) -> ShoeView {
    ShoeView { like: 1, liked_by: s.liked_by.push(caller), ..s }
}

/// Whether `caller` owns `s`.
pub open spec fn owned_by(s: ShoeView, caller: Seq<char>) -> bool {
    s.owner == caller
}

/// The sum of the quantities in `l`.
pub open spec fn total_quantity(l: Seq<ShoeView>) -> int
    decreases l.len(),
{
    if l.len() == 0 {
        0
    } else {
        total_quantity(l.drop_last()) + l.last().quantity as int
    }
}

/// Whether `s` meets every criterion that `c` sets.
pub open spec fn meets(s: ShoeView, c: &ShoeSearchCriteria) -> bool {
    &&& (c.name matches Some(n) ==> s.name == n@)
    &&& (c.size matches Some(z) ==> s.size == z@)
    &&& (c.min_price matches Some(lo) ==> lo <= s.price)
    &&& (c.max_price matches Some(hi) ==> s.price <= hi)
}

/// Holds of the records named `name`.
pub open spec fn named(name: Seq<char>) -> spec_fn(ShoeView) -> bool {
    |s: ShoeView| s.name == name
}

/// Holds of the records that meet every criterion that `c` sets.
pub open spec fn meeting(c: &ShoeSearchCriteria) -> spec_fn(ShoeView) -> bool {
    |s: ShoeView| meets(s, c)
}

/// The listing that `get_shoes` returns for a sort key named `sort_by_name`.
pub open spec fn shoes_page(l: Seq<ShoeView>, page: u64, page_size: u64, sort_by_name: Seq<char>) -> Result<Seq<ShoeView>, Invalid> {
    match sort_key_named(sort_by_name) {
        Some(key) => Ok(page_of(sort_by(l, key), page as int, page_size as int)),
        None => Err(Invalid::UnknownSortKey),
    }
}

/// Whether no text occurs twice in `v`.
fn distinct_texts(v: &Vec<String>) -> (r: bool)
    ensures
        r == v.deep_view().no_duplicates(),
{
    let ghost d = v.deep_view();
    let mut i: usize = 0;
    while i < v.len()
        invariant
            d == v.deep_view(),
            i <= v@.len(),
            forall|a: int, b: int| 0 <= a < b < v@.len() && a < i ==> d[a] != d[b],
        decreases v@.len() - i,
    {
        let mut j: usize = i + 1;
        while j < v.len()
            invariant
                d == v.deep_view(),
                i < j <= v@.len(),
                forall|a: int, b: int| 0 <= a < b < v@.len() && a < i ==> d[a] != d[b],
                forall|b: int| i < b < j ==> d[i as int] != d[b],
            decreases v@.len() - j,
        {
            if v[i] == v[j] {
                assert(d[i as int] == d[j as int]);
                return false;
            }
            j = j + 1;
        }
        i = i + 1;
    }
    true
}

/// Each entry is the stored form of a record under its own id, below
/// `counter`, with distinct likes, within the size limit.
pub open spec fn entry_ok(counter: u64, e: (u64, Vec<u8>)) -> bool {
    exists|v: ShoeView| #[trigger] record_bytes(v) == e.1@ && v.id == e.0 && v.id < counter && likes_distinct(v)
        && e.1@.len() <= MAX_RECORD_BYTES
}

/// The catalog: the records in id order and the next id to issue, each change
/// written through to the host's stable memory.
pub struct ShoeCatalog {
    next_id: u64,
    shoes: Vec<Shoe>,
    store: StableTables,
}

/// Returns whether `caller` is the owner of `shoe`.
pub fn validate_owner(shoe: &Shoe, caller: &String) -> (r: bool)
    ensures
        r == owned_by(shoe@, caller@),
{
    shoe.owner == *caller
}

impl ShoeCatalog {
    /// The records, in id order.
    pub closed spec fn listing(&self) -> Seq<ShoeView> {
        views(self.shoes@)
    }

    /// The next id to be issued; every id below it has been issued.
    pub closed spec fn issued(&self) -> u64 {
        self.next_id
    }

    /// Ids are unique, ordered and all issued; likes are distinct; every
    /// record fits the size limit in stored form.
    pub open spec fn wf(&self) -> bool {
        &&& ids_increasing(self.listing())
        &&& forall|i: int| 0 <= i < self.listing().len() ==> #[trigger] self.listing()[i].id < self.issued()
        &&& forall|i: int| 0 <= i < self.listing().len() ==> likes_distinct(#[trigger] self.listing()[i])
        &&& forall|i: int| 0 <= i < self.listing().len() ==> record_bytes(#[trigger] self.listing()[i]).len()
            <= MAX_RECORD_BYTES
    }

    /// The record stored under `id`, if any.
    pub open spec fn lookup(&self, id: u64) -> Option<ShoeView> {
        if has_id(self.listing(), id) {
            Some(self.listing()[index_of(self.listing(), id)])
        } else {
            None
        }
    }

    /// An empty catalog whose first id is zero, written over whatever the
    /// stable memory held; `None` when the stable memory cannot hold it.
    pub fn new() -> (r: Option<ShoeCatalog>)
        ensures
            r matches Some(c) ==> c.wf() && c.listing() == Seq::<ShoeView>::empty() && c.issued() == 0,
    {
        let store = match StableTables::create() {
            Some(t) => t,
            None => return None,
        };
        let r = ShoeCatalog { next_id: 0, shoes: Vec::new(), store };
        proof {
            assert(r.listing() =~= Seq::<ShoeView>::empty());
        }
        Some(r)
    }

    /// The catalog that the stable memory holds, as an earlier run of the
    /// canister left it; see `from_entries` for when it is refused.
    pub fn load() -> (r: Option<ShoeCatalog>)
        ensures
            r matches Some(c) ==> c.wf(),
    {
        let store = match StableTables::open() {
            Some(t) => t,
            None => return None,
        };
        let counter = store.counter();
        let entries = store.entries();
        ShoeCatalog::from_entries(store, counter, &entries)
    }

    /// The catalog made of `entries`, read from `store`, with `counter` as
    /// the next id: `Some` exactly when every entry is the stored form of a
    /// record under its own id, below `counter`, with distinct likes and
    /// within the size limit; its records are then those entries, in order.
    pub fn from_entries(store: StableTables, counter: u64, entries: &Vec<(u64, Vec<u8>)>) -> (r: Option<ShoeCatalog>)
        requires
            forall|i: int, j: int| 0 <= i < j < entries@.len() ==> #[trigger] entries@[i].0 < #[trigger] entries@[j].0,
        ensures
            r is Some <==> forall|i: int| 0 <= i < entries@.len() ==> entry_ok(counter, #[trigger] entries@[i]),
            r matches Some(c) ==> c.wf() && c.issued() == counter && c.listing().len() == entries@.len()
                && forall|i: int| 0 <= i < entries@.len() ==> (#[trigger] c.listing()[i]).id == entries@[i].0
                    && record_bytes(c.listing()[i]) == entries@[i].1@,
    {
        let mut shoes: Vec<Shoe> = Vec::new();
        let mut i: usize = 0;
        while i < entries.len()
            invariant
                i <= entries@.len(),
                shoes@.len() == i,
                forall|a: int, b: int| 0 <= a < b < entries@.len() ==> #[trigger] entries@[a].0 < #[trigger] entries@[b].0,
                forall|j: int| 0 <= j < i ==> entry_ok(counter, #[trigger] entries@[j]),
                forall|j: int| 0 <= j < i ==> (#[trigger] shoes@[j])@.id == entries@[j].0 && shoes@[j]@.id < counter
                    && likes_distinct(shoes@[j]@) && entries@[j].1@ == record_bytes(shoes@[j]@)
                    && entries@[j].1@.len() <= MAX_RECORD_BYTES,
            decreases entries@.len() - i,
        {
            let bytes = &entries[i].1;
            let ghost hint = choose|v: ShoeView| #[trigger] record_bytes(v) == bytes@ && v.id == entries@[i as int].0
                && v.id < counter && likes_distinct(v) && bytes@.len() <= MAX_RECORD_BYTES;
            let shoe = match parse(bytes, Ghost(hint)) {
                Some(s) => s,
                None => return None,
            };
            let again = encode(&shoe);
            if bytes.len() > MAX_RECORD_BYTES || !same_bytes(&again, bytes) || shoe.id != entries[i].0
                || shoe.id >= counter || !distinct_texts(&shoe.liked_by) {
                proof {
                    if entry_ok(counter, entries@[i as int]) {
                        assert(record_bytes(hint) == bytes@);
                        assert(shoe@ == hint);
                    }
                }
                return None;
            }
            proof {
                assert(record_bytes(shoe@) == entries@[i as int].1@);
                assert(entry_ok(counter, entries@[i as int]));
            }
            let ghost before = shoes@;
            shoes.push(shoe);
            proof {
                assert forall|j: int| 0 <= j < i + 1 implies (#[trigger] shoes@[j])@.id == entries@[j].0
                    && shoes@[j]@.id < counter && likes_distinct(shoes@[j]@) && entries@[j].1@ == record_bytes(
                    shoes@[j]@,
                ) && entries@[j].1@.len() <= MAX_RECORD_BYTES by {
                    if j < i {
                        assert(shoes@[j] == before[j]);
                    }
                }
            }
            i = i + 1;
        }
        let r = ShoeCatalog { next_id: counter, shoes, store };
        proof {
            let l = r.listing();
            assert forall|j: int| 0 <= j < l.len() implies (#[trigger] l[j]) == r.shoes@[j]@ by {}
            assert forall|a: int, b: int| 0 <= a < b < l.len() implies #[trigger] l[a].id < #[trigger] l[b].id by {
                assert(l[a] == r.shoes@[a]@ && l[b] == r.shoes@[b]@);
            }
            assert forall|j: int| 0 <= j < l.len() implies #[trigger] l[j].id < r.issued() && likes_distinct(l[j])
                && record_bytes(l[j]).len() <= MAX_RECORD_BYTES by {
                assert(l[j] == r.shoes@[j]@);
            }
        }
        Some(r)
    }

    /// The next id that `add_shoe` will issue.
    pub fn next_id(&self) -> (r: u64)
        ensures
            r == self.issued(),
    {
        self.next_id
    }

    /// The position of the record with id `id`.
    fn find(&self, id: u64) -> (r: Option<usize>)
        requires
            self.wf(),
        ensures
            match r {
                Some(i) => i < self.listing().len() && self.listing()[i as int].id == id
                    && index_of(self.listing(), id) == i as int,
                None => !has_id(self.listing(), id),
            },
    {
        let mut i: usize = 0;
        while i < self.shoes.len()
            invariant
                i <= self.shoes@.len(),
                self.listing().len() == self.shoes@.len(),
                self.wf(),
                forall|j: int| 0 <= j < i ==> #[trigger] self.listing()[j].id != id,
            decreases self.shoes@.len() - i,
        {
            assert(self.listing()[i as int] == self.shoes@[i as int]@);
            if self.shoes[i].id == id {
                proof {
                    assert(self.listing()[i as int].id == id);
                    assert(has_id(self.listing(), id));
                    let k = index_of(self.listing(), id);
                    if k < i {
                        assert(self.listing()[k].id < self.listing()[i as int].id);
                    } else if k > i {
                        assert(self.listing()[i as int].id < self.listing()[k].id);
                    }
                }
                return Some(i);
            }
            i = i + 1;
        }
        None
    }

    /// A copy of every record, in id order.
    fn all(&self) -> (r: Vec<Shoe>)
        ensures
            views(r@) == self.listing(),
    {
        let mut out: Vec<Shoe> = Vec::new();
        let mut i: usize = 0;
        proof {
            assert(views(out@) =~= self.listing().subrange(0, 0));
        }
        while i < self.shoes.len()
            invariant
                i <= self.shoes@.len(),
                self.listing().len() == self.shoes@.len(),
                views(out@) == self.listing().subrange(0, i as int),
            decreases self.shoes@.len() - i,
        {
            let ghost before = views(out@);
            out.push(self.shoes[i].duplicate());
            proof {
                assert(views(out@) =~= before.push(self.shoes@[i as int]@));
                assert(views(out@) =~= self.listing().subrange(0, i + 1));
            }
            i = i + 1;
        }
        proof {
            assert(self.listing().subrange(0, self.listing().len() as int) =~= self.listing());
        }
        out
    }

    /// Stores `shoe`, whose stored form is `bytes`, at position `i`, in place
    /// of the record with the same id.
    fn replace(&mut self, i: usize, shoe: Shoe, bytes: Vec<u8>)
        requires
            old(self).wf(),
            i < old(self).listing().len(),
            shoe.id == old(self).listing()[i as int].id,
            likes_distinct(shoe@),
            bytes@ == record_bytes(shoe@),
            bytes@.len() <= MAX_RECORD_BYTES,
        ensures
            final(self).wf(),
            final(self).issued() == old(self).issued(),
            final(self).listing() == old(self).listing().update(i as int, shoe@),
    {
        let id = shoe.id;
        let ghost sv = shoe@;
        self.shoes.set(i, shoe);
        self.store.insert(id, bytes);
        proof {
            assert(self.listing() =~= old(self).listing().update(i as int, sv));
            let l = old(self).listing();
            let l2 = self.listing();
            assert forall|a: int, b: int| 0 <= a < b < l2.len() implies #[trigger] l2[a].id < #[trigger] l2[b].id by {
                assert(l2[a].id == l[a].id && l2[b].id == l[b].id);
            }
            assert forall|j: int| 0 <= j < l2.len() implies #[trigger] l2[j].id < self.issued() by {
                assert(l2[j].id == l[j].id);
            }
        }
    }

    /// The record stored under `id`, or `NotFound`.
    pub fn get_shoe_by_id(&self, id: u64) -> (r: Result<Shoe, Error>)
        requires
            self.wf(),
        ensures
            match self.lookup(id) {
                Some(s) => r matches Ok(t) && t@ == s,
                None => r == Err::<Shoe, Error>(Error::NotFound { id }),
            },
    {
        match self.find(id) {
            Some(i) => Ok(self.shoes[i].duplicate()),
            None => Err(Error::NotFound { id }),
        }
    }

    /// Validates `payload` and, when it passes, issues the next id and stores
    /// a new record under it, owned by `caller` and created at `now`. A record
    /// too large to store is refused before any id is issued.
    pub fn add_shoe(&mut self, caller: &String, now: u64, payload: ShoePayload) -> (r: Result<Shoe, Error>)
        requires
            old(self).wf(),
            old(self).issued() < u64::MAX,
        ensures
            final(self).wf(),
            match first_invalid(&payload) {
                Some(reason) => r == Err::<Shoe, Error>(Error::ValidationError { reason })
                    && final(self).listing() == old(self).listing()
                    && final(self).issued() == old(self).issued(),
                None => if record_bytes(created_record(old(self).issued(), caller@, now, &payload)).len()
                    > MAX_RECORD_BYTES {
                    r == Err::<Shoe, Error>(Error::RecordTooLarge { id: old(self).issued() })
                        && final(self).listing() == old(self).listing()
                        && final(self).issued() == old(self).issued()
                } else {
                    r matches Ok(s) && s@ == created_record(old(self).issued(), caller@, now, &payload)
                        && final(self).issued() == old(self).issued() + 1
                        && final(self).listing() == old(self).listing().push(s@)
                },
            },
    {
        if let Some(reason) = check_payload(&payload) {
            return Err(Error::ValidationError { reason });
        }
        let id = self.next_id;
        let shoe = Shoe {
            owner: caller.clone(),
            id,
            name: payload.name,
            size: payload.size,
            shoe_url: payload.shoe_url,
            price: payload.price,
            quantity: payload.quantity,
            like: 0,
            liked_by: Vec::new(),
            created_at: now,
            updated_at: None,
        };
        proof {
            assert(shoe.liked_by.deep_view() =~= Seq::<Seq<char>>::empty());
        }
        let bytes = encode(&shoe);
        if bytes.len() > MAX_RECORD_BYTES {
            return Err(Error::RecordTooLarge { id });
        }
        self.next_id = id + 1;
        self.store.set_counter(id + 1);
        self.store.insert(id, bytes);
        self.shoes.push(shoe.duplicate());
        proof {
            assert(self.listing() =~= old(self).listing().push(shoe@));
        }
        Ok(shoe)
    }

    /// Replaces the payload fields of the record `id` when `caller` owns it,
    /// and stamps it with `now`; refused when the record would no longer fit
    /// in its stored form.
    pub fn update_shoe(&mut self, caller: &String, now: u64, id: u64, payload: ShoePayload) -> (r: Result<Shoe, Error>)
        requires
            old(self).wf(),
        ensures
            final(self).wf(),
            final(self).issued() == old(self).issued(),
            match old(self).lookup(id) {
                None => r == Err::<Shoe, Error>(Error::NotFound { id })
                    && final(self).listing() == old(self).listing(),
                Some(s) => if !owned_by(s, caller@) {
                    r == Err::<Shoe, Error>(Error::NotAuthorized { id, caller: *caller })
                        && final(self).listing() == old(self).listing()
                } else if record_bytes(updated_record(s, now, &payload)).len() > MAX_RECORD_BYTES {
                    r == Err::<Shoe, Error>(Error::RecordTooLarge { id })
                        && final(self).listing() == old(self).listing()
                } else {
                    r matches Ok(t) && t@ == updated_record(s, now, &payload)
                        && final(self).listing() == old(self).listing().update(index_of(old(self).listing(), id), t@)
                },
            },
    {
        let i = match self.find(id) {
            Some(i) => i,
            None => return Err(Error::NotFound { id }),
        };
        if !validate_owner(&self.shoes[i], caller) {
            return Err(Error::NotAuthorized { id, caller: caller.clone() });
        }
        let mut shoe = self.shoes[i].duplicate();
        shoe.name = payload.name;
        shoe.size = payload.size;
        shoe.shoe_url = payload.shoe_url;
        shoe.price = payload.price;
        shoe.quantity = payload.quantity;
        shoe.updated_at = Some(now);
        let bytes = encode(&shoe);
        if bytes.len() > MAX_RECORD_BYTES {
            return Err(Error::RecordTooLarge { id });
        }
        let out = shoe.duplicate();
        self.replace(i, shoe, bytes);
        Ok(out)
    }

    /// Records that `caller` likes the record `id`; each identity may like a
    /// record once, and a like that would make the record too large to store
    /// is refused.
    pub fn like_shoe(&mut self, caller: &String, id: u64) -> (r: Result<Shoe, Error>)
        requires
            old(self).wf(),
        ensures
            final(self).wf(),
            final(self).issued() == old(self).issued(),
            match old(self).lookup(id) {
                None => r == Err::<Shoe, Error>(Error::NotFound { id })
                    && final(self).listing() == old(self).listing(),
                Some(s) => if s.liked_by.contains(caller@) {
                    r == Err::<Shoe, Error>(Error::AlreadyLiked { id, caller: *caller })
                        && final(self).listing() == old(self).listing()
                } else if record_bytes(liked_record(s, caller@)).len() > MAX_RECORD_BYTES {
                    r == Err::<Shoe, Error>(Error::RecordTooLarge { id })
                        && final(self).listing() == old(self).listing()
                } else {
                    r matches Ok(t) && t@ == liked_record(s, caller@)
                        && final(self).listing() == old(self).listing().update(index_of(old(self).listing(), id), t@)
                },
            },
    {
        let i = match self.find(id) {
            Some(i) => i,
            None => return Err(Error::NotFound { id }),
        };
        let ghost s = self.listing()[i as int];
        let mut j: usize = 0;
        while j < self.shoes[i].liked_by.len()
            invariant
                *self == *old(self),
                self.wf(),
                i < self.shoes@.len(),
                i as int == index_of(self.listing(), id),
                self.listing()[i as int].id == id,
                s == self.shoes@[i as int]@,
                j <= s.liked_by.len(),
                forall|k: int| 0 <= k < j ==> s.liked_by[k] != caller@,
            decreases s.liked_by.len() - j,
        {
            if self.shoes[i].liked_by[j] == *caller {
                assert(s.liked_by[j as int] == caller@);
                assert(has_id(self.listing(), id));
                assert(s.liked_by.contains(caller@));
                return Err(Error::AlreadyLiked { id, caller: caller.clone() });
            }
            j = j + 1;
        }
        let mut shoe = self.shoes[i].duplicate();
        shoe.like = 1;
        shoe.liked_by.push(caller.clone());
        proof {
            assert(shoe.liked_by.deep_view() =~= s.liked_by.push(caller@));
            assert(shoe@ == liked_record(s, caller@));
        }
        let bytes = encode(&shoe);
        if bytes.len() > MAX_RECORD_BYTES {
            return Err(Error::RecordTooLarge { id });
        }
        let out = shoe.duplicate();
        self.replace(i, shoe, bytes);
        Ok(out)
    }

    /// Removes the record `id` when `caller` owns it and returns it.
    pub fn delete_shoe(&mut self, caller: &String, id: u64) -> (r: Result<Shoe, Error>)
        requires
            old(self).wf(),
        ensures
            final(self).wf(),
            final(self).issued() == old(self).issued(),
            match old(self).lookup(id) {
                None => r == Err::<Shoe, Error>(Error::NotFound { id })
                    && final(self).listing() == old(self).listing(),
                Some(s) => if !owned_by(s, caller@) {
                    r == Err::<Shoe, Error>(Error::NotAuthorized { id, caller: *caller })
                        && final(self).listing() == old(self).listing()
                } else {
                    r matches Ok(t) && t@ == s
                        && final(self).listing() == old(self).listing().remove(index_of(old(self).listing(), id))
                },
            },
    {
        let i = match self.find(id) {
            Some(i) => i,
            None => return Err(Error::NotFound { id }),
        };
        if !validate_owner(&self.shoes[i], caller) {
            return Err(Error::NotAuthorized { id, caller: caller.clone() });
        }
        let shoe = self.shoes.remove(i);
        self.store.remove(id);
        proof {
            assert(self.listing() =~= old(self).listing().remove(i as int));
        }
        Ok(shoe)
    }

    /// Page `page` of the records sorted by the key named `sort_by`
    /// (`price` or `created_at`, ascending, equal keys in id order).
    pub fn get_shoes(&self, page: u64, page_size: u64, sort_by: &str) -> (r: Result<Vec<Shoe>, Error>)
        requires
            self.wf(),
        ensures
            match shoes_page(self.listing(), page, page_size, sort_by@) {
                Ok(p) => r matches Ok(v) && views(v@) == p,
                Err(reason) => r == Err::<Vec<Shoe>, Error>(Error::ValidationError { reason }),
            },
    {
        let key = match SortKey::from_name(sort_by) {
            Some(key) => key,
            None => return Err(Error::ValidationError { reason: Invalid::UnknownSortKey }),
        };
        let shoes = self.all();
        let sorted = sorted_copy(&shoes, key);
        Ok(page_copy(&sorted, page, page_size))
    }

    /// The sum of the quantities of all records.
    pub fn total_number_of_shoes(&self) -> (r: i128)
        requires
            self.wf(),
        ensures
            r as int == total_quantity(self.listing()),
    {
        let shoes = self.all();
        let mut total: i128 = 0;
        let mut i: usize = 0;
        while i < shoes.len()
            invariant
                i <= shoes@.len(),
                views(shoes@) == self.listing(),
                total as int == total_quantity(self.listing().subrange(0, i as int)),
                -0x8000 * (i as int) <= total <= 0x7fff * (i as int),
            decreases shoes@.len() - i,
        {
            proof {
                let l = self.listing();
                assert(l.subrange(0, i + 1).drop_last() =~= l.subrange(0, i as int));
                assert(l.subrange(0, i + 1).last() == shoes@[i as int]@);
            }
            total = total + shoes[i].quantity as i128;
            i = i + 1;
        }
        proof {
            assert(self.listing().subrange(0, self.listing().len() as int) =~= self.listing());
        }
        total
    }

    /// The records whose name is `name`, in id order.
    pub fn search_by_name(&self, name: &String) -> (r: Vec<Shoe>)
        requires
            self.wf(),
        ensures
            views(r@) == self.listing().filter(named(name@)),
    {
        let ghost f = named(name@);
        let shoes = self.all();
        let mut out: Vec<Shoe> = Vec::new();
        let mut i: usize = 0;
        proof {
            assert(views(out@) =~= self.listing().subrange(0, 0).filter(f));
        }
        while i < shoes.len()
            invariant
                i <= shoes@.len(),
                views(shoes@) == self.listing(),
                f == named(name@),
                views(out@) == self.listing().subrange(0, i as int).filter(f),
            decreases shoes@.len() - i,
        {
            let ghost before = views(out@);
            proof {
                let l = self.listing();
                reveal(Seq::filter);
                assert(l.subrange(0, i + 1).drop_last() =~= l.subrange(0, i as int));
                assert(l.subrange(0, i + 1).last() == shoes@[i as int]@);
                assert(l.subrange(0, i + 1).filter(f) == if f(shoes@[i as int]@) {
                    l.subrange(0, i as int).filter(f).push(shoes@[i as int]@)
                } else {
                    l.subrange(0, i as int).filter(f)
                });
            }
            if shoes[i].name == *name {
                out.push(shoes[i].duplicate());
                proof {
                    assert(f(shoes@[i as int]@));
                    assert(views(out@) =~= before.push(shoes@[i as int]@));
                }
            } else {
                assert(!f(shoes@[i as int]@));
            }
            i = i + 1;
        }
        proof {
            assert(self.listing().subrange(0, self.listing().len() as int) =~= self.listing());
        }
        out
    }

    /// The records that meet every criterion set in `criteria`, in id order.
    pub fn search_shoes(&self, criteria: &ShoeSearchCriteria) -> (r: Vec<Shoe>)
        requires
            self.wf(),
        ensures
            views(r@) == self.listing().filter(meeting(criteria)),
    {
        let ghost f = meeting(criteria);
        let shoes = self.all();
        let mut out: Vec<Shoe> = Vec::new();
        let mut i: usize = 0;
        proof {
            assert(views(out@) =~= self.listing().subrange(0, 0).filter(f));
        }
        while i < shoes.len()
            invariant
                i <= shoes@.len(),
                views(shoes@) == self.listing(),
                f == meeting(criteria),
                views(out@) == self.listing().subrange(0, i as int).filter(f),
            decreases shoes@.len() - i,
        {
            let ghost before = views(out@);
            proof {
                let l = self.listing();
                reveal(Seq::filter);
                assert(l.subrange(0, i + 1).drop_last() =~= l.subrange(0, i as int));
                assert(l.subrange(0, i + 1).last() == shoes@[i as int]@);
                assert(l.subrange(0, i + 1).filter(f) == if f(shoes@[i as int]@) {
                    l.subrange(0, i as int).filter(f).push(shoes@[i as int]@)
                } else {
                    l.subrange(0, i as int).filter(f)
                });
            }
            let shoe = &shoes[i];
            let ok = match &criteria.name {
                Some(n) => shoe.name == *n,
                None => true,
            } && match &criteria.size {
                Some(z) => shoe.size == *z,
                None => true,
            } && match criteria.min_price {
                Some(lo) => lo <= shoe.price,
                None => true,
            } && match criteria.max_price {
                Some(hi) => shoe.price <= hi,
                None => true,
            };
            if ok {
                out.push(shoe.duplicate());
                proof {
                    assert(f(shoes@[i as int]@));
                    assert(views(out@) =~= before.push(shoes@[i as int]@));
                }
            } else {
                assert(!f(shoes@[i as int]@));
            }
            i = i + 1;
        }
        proof {
            assert(self.listing().subrange(0, self.listing().len() as int) =~= self.listing());
        }
        out
    }
}

} // verus!
