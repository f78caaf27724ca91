use vstd::prelude::*;

verus! {

/// A stored shoe record.
#[derive(Debug)]
pub struct Shoe {
    pub owner: String,
    pub id: u64,
    pub name: String,
    pub size: String,
    pub shoe_url: String,
    pub price: i16,
    pub quantity: i16,
    pub like: u32,
    pub liked_by: Vec<String>,
    pub created_at: u64,
    pub updated_at: Option<u64>,
}

/// The mathematical value of a record.
pub struct ShoeView {
    pub owner: Seq<char>,
    pub id: u64,
    pub name: Seq<char>,
    pub size: Seq<char>,
    pub shoe_url: Seq<char>,
    pub price: i16,
    pub quantity: i16,
    pub like: u32,
    pub liked_by: Seq<Seq<char>>,
    pub created_at: u64,
    pub updated_at: Option<u64>,
}

impl View for Shoe {
    type V = ShoeView;

    open spec fn view(&self) -> ShoeView {
        ShoeView {
            owner: self.owner@,
            id: self.id,
            name: self.name@,
            size: self.size@,
            shoe_url: self.shoe_url@,
            price: self.price,
            quantity: self.quantity,
            like: self.like,
            liked_by: self.liked_by.deep_view(),
            created_at: self.created_at,
            updated_at: self.updated_at,
        }
    }
}

impl Shoe {
    /// A copy of the record with every field equal.
    pub fn duplicate(&self) -> (r: Shoe)
        ensures
            r@ == self@,
    {
        let liked_by = self.liked_by.clone();
        proof {
            assert(liked_by.deep_view() =~= self.liked_by.deep_view());
        }
        Shoe {
            owner: self.owner.clone(),
            id: self.id,
            name: self.name.clone(),
            size: self.size.clone(),
            shoe_url: self.shoe_url.clone(),
            price: self.price,
            quantity: self.quantity,
            like: self.like,
            liked_by,
            created_at: self.created_at,
            updated_at: self.updated_at,
        }
    }
}

/// The fields a caller supplies to create or update a record.
#[derive(Debug)]
pub struct ShoePayload {
    pub name: String,
    pub size: String,
    pub shoe_url: String,
    pub price: i16,
    pub quantity: i16,
}

/// Search criteria: a field left `None` matches every record.
#[derive(Debug)]
pub struct ShoeSearchCriteria {
    pub name: Option<String>,
    pub size: Option<String>,
    pub min_price: Option<i16>,
    pub max_price: Option<i16>,
}

/// Why a payload was rejected.
#[derive(Debug, Clone, Copy, PartialEq, Eq, Structural)]
pub enum Invalid {
    ImageUrl,
    NegativePrice,
    NonPositiveQuantity,
    UnknownSortKey,
}

/// The message that describes each failure.
pub open spec fn invalid_text(i: Invalid) -> Seq<char> {
    match i {
        Invalid::ImageUrl => "the image url is not a valid url"@,
        Invalid::NegativePrice => "the price must not be negative"@,
        Invalid::NonPositiveQuantity => "the quantity must be greater than zero"@,
        Invalid::UnknownSortKey => "records can be sorted by price or created_at only"@,
    }
}

impl Invalid {
    /// A message describing the failure.
    pub fn message(&self) -> (r: String)
        ensures
            r@ == invalid_text(*self),
    {
        match self {
            Invalid::ImageUrl => String::from_str("the image url is not a valid url"),
            Invalid::NegativePrice => String::from_str("the price must not be negative"),
            Invalid::NonPositiveQuantity => String::from_str("the quantity must be greater than zero"),
            Invalid::UnknownSortKey => String::from_str("records can be sorted by price or created_at only"),
        }
    }
}

/// The errors a catalog operation can return.
#[derive(Debug)]
pub enum Error {
    NotFound { id: u64 },
    NotAuthorized { id: u64, caller: String },
    AlreadyLiked { id: u64, caller: String },
    ValidationError { reason: Invalid },
    RecordTooLarge { id: u64 },
}

/// The keys that listings can be sorted by.
#[derive(Debug, Clone, Copy, PartialEq, Eq, Structural)]
pub enum SortKey {
    Price,
    CreatedAt,
}

/// The value of a record under a sort key.
pub open spec fn key_of(s: ShoeView, key: SortKey) -> int {
    match key {
        SortKey::Price => s.price as int,
        SortKey::CreatedAt => s.created_at as int,
    }
}

/// The sort key that `name` stands for.
pub open spec fn sort_key_named(name: Seq<char>) -> Option<SortKey> {
    if name == "price"@ {
        Some(SortKey::Price)
    } else if name == "created_at"@ {
        Some(SortKey::CreatedAt)
    } else {
        None
    }
}

/// Whether two texts hold the same characters.
pub fn same_text(a: &str, b: &str) -> (r: bool)
    ensures
        r == (a@ == b@),
{
    let n = a.unicode_len();
    if n != b.unicode_len() {
        return false;
    }
    let mut i: usize = 0;
    while i < n
        invariant
            n == a@.len(),
            n == b@.len(),
            i <= n,
            forall|j: int| 0 <= j < i ==> a@[j] == b@[j],
        decreases n - i,
    {
        if a.get_char(i) != b.get_char(i) {
            return false;
        }
        i = i + 1;
    }
    proof {
        assert(a@ =~= b@);
    }
    true
}

impl SortKey {
    /// The sort key named `name`: `price` or `created_at`.
    pub fn from_name(name: &str) -> (r: Option<SortKey>)
        ensures
            r == sort_key_named(name@),
    {
        proof {
            reveal_strlit("price");
            reveal_strlit("created_at");
        }
        if same_text(name, "price") {
            Some(SortKey::Price)
        } else if same_text(name, "created_at") {
            Some(SortKey::CreatedAt)
        } else {
            None
        }
    }

    pub fn value(&self, s: &Shoe) -> (r: i128)
        ensures
            r as int == key_of(s@, *self),
    {
        match self {
            SortKey::Price => s.price as i128,
            SortKey::CreatedAt => s.created_at as i128,
        }
    }
}

} // verus!
