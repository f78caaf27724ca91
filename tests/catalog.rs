use shoe_store::{
    check_payload, is_url, validate_owner, Error, Invalid, ShoeCatalog, ShoePayload, ShoeSearchCriteria,
};

fn payload(name: &str, size: &str, price: i16, quantity: i16) -> ShoePayload {
    ShoePayload {
        name: name.to_string(),
        size: size.to_string(),
        shoe_url: "https://www.example.com/shoes/1.png".to_string(),
        price,
        quantity,
    }
}

fn alice() -> String {
    "alice".to_string()
}

fn bob() -> String {
    "bob".to_string()
}

#[test]
fn add_assigns_fresh_ids_and_owner() {
    let mut c = ShoeCatalog::new().unwrap();
    let a = c.add_shoe(&alice(), 100, payload("runner", "42", 30, 5)).unwrap();
    let b = c.add_shoe(&bob(), 200, payload("boot", "40", 10, 1)).unwrap();
    assert_eq!(a.id, 0);
    assert_eq!(b.id, 1);
    assert_eq!(a.owner, "alice");
    assert_eq!(b.owner, "bob");
    assert_eq!(a.like, 0);
    assert!(a.liked_by.is_empty());
    assert_eq!(a.created_at, 100);
    assert_eq!(a.updated_at, None);
}

#[test]
fn get_after_add_returns_stored_record() {
    let mut c = ShoeCatalog::new().unwrap();
    let a = c.add_shoe(&alice(), 7, payload("runner", "42", 30, 5)).unwrap();
    let g = c.get_shoe_by_id(a.id).unwrap();
    assert_eq!(g.id, a.id);
    assert_eq!(g.name, "runner");
    assert_eq!(g.size, "42");
    assert_eq!(g.price, 30);
    assert_eq!(g.quantity, 5);
    assert_eq!(g.owner, "alice");
    assert!(matches!(c.get_shoe_by_id(99), Err(Error::NotFound { id: 99 })));
}

#[test]
fn zero_quantity_is_rejected_without_using_an_id() {
    let mut c = ShoeCatalog::new().unwrap();
    let r = c.add_shoe(&alice(), 1, payload("runner", "42", 30, 0));
    assert!(matches!(r, Err(Error::ValidationError { reason: Invalid::NonPositiveQuantity })));
    let a = c.add_shoe(&alice(), 1, payload("runner", "42", 30, 1)).unwrap();
    assert_eq!(a.id, 0);
}

#[test]
fn negative_price_and_bad_url_are_rejected() {
    let mut c = ShoeCatalog::new().unwrap();
    let r = c.add_shoe(&alice(), 1, payload("runner", "42", -1, 3));
    assert!(matches!(r, Err(Error::ValidationError { reason: Invalid::NegativePrice })));
    let mut p = payload("runner", "42", -1, 0);
    p.shoe_url = "not a url".to_string();
    let r = c.add_shoe(&alice(), 1, p);
    assert!(matches!(r, Err(Error::ValidationError { reason: Invalid::ImageUrl })));
    assert!(c.get_shoes(0, 10, "price").unwrap().is_empty());
}

#[test]
fn url_shapes() {
    assert!(is_url("https://www.example.com/a/b.png"));
    assert!(is_url("http://shoes-shop.co.uk:8080/x"));
    assert!(is_url("example.com"));
    assert!(is_url("my-site.store"));
    assert!(!is_url("example"));
    assert!(!is_url("example.c"));
    assert!(!is_url("example.abcdef"));
    assert!(!is_url("ex..ample.com"));
    assert!(!is_url("-example.com"));
    assert!(!is_url("example.com:"));
    assert!(!is_url("example.com:123456"));
    assert!(!is_url("ftp://example.com"));
    assert!(!is_url(""));
}

#[test]
fn check_payload_reports_first_failure() {
    let mut p = payload("runner", "42", -5, 0);
    assert_eq!(check_payload(&p), Some(Invalid::NegativePrice));
    p.price = 5;
    assert_eq!(check_payload(&p), Some(Invalid::NonPositiveQuantity));
    p.quantity = 2;
    assert_eq!(check_payload(&p), None);
    p.shoe_url = "nope".to_string();
    assert_eq!(check_payload(&p), Some(Invalid::ImageUrl));
}

#[test]
fn pages_sorted_by_price() {
    let mut c = ShoeCatalog::new().unwrap();
    c.add_shoe(&alice(), 1, payload("a", "40", 30, 1)).unwrap();
    c.add_shoe(&alice(), 2, payload("b", "41", 10, 1)).unwrap();
    c.add_shoe(&alice(), 3, payload("c", "42", 20, 1)).unwrap();
    let first: Vec<i16> = c.get_shoes(0, 2, "price").unwrap().iter().map(|s| s.price).collect();
    let second: Vec<i16> = c.get_shoes(1, 2, "price").unwrap().iter().map(|s| s.price).collect();
    assert_eq!(first, vec![10, 20]);
    assert_eq!(second, vec![30]);
    assert!(c.get_shoes(2, 2, "price").unwrap().is_empty());
    assert!(c.get_shoes(u64::MAX, u64::MAX, "price").unwrap().is_empty());
}

#[test]
fn pages_concatenate_to_sorted_listing() {
    let mut c = ShoeCatalog::new().unwrap();
    let prices = [5, 3, 9, 3, 1, 7, 5];
    for (i, p) in prices.iter().enumerate() {
        c.add_shoe(&alice(), i as u64, payload("x", "40", *p, 1)).unwrap();
    }
    let mut all = Vec::new();
    for page in 0..4 {
        all.extend(c.get_shoes(page, 2, "price").unwrap());
    }
    let got: Vec<(i16, u64)> = all.iter().map(|s| (s.price, s.id)).collect();
    assert_eq!(got, vec![(1, 4), (3, 1), (3, 3), (5, 0), (5, 6), (7, 5), (9, 2)]);
}

#[test]
fn sort_by_created_at_and_unknown_key() {
    let mut c = ShoeCatalog::new().unwrap();
    c.add_shoe(&alice(), 30, payload("a", "40", 1, 1)).unwrap();
    c.add_shoe(&alice(), 10, payload("b", "40", 1, 1)).unwrap();
    let names: Vec<String> = c.get_shoes(0, 5, "created_at").unwrap().into_iter().map(|s| s.name).collect();
    assert_eq!(names, vec!["b".to_string(), "a".to_string()]);
    assert!(matches!(
        c.get_shoes(0, 5, "name"),
        Err(Error::ValidationError { reason: Invalid::UnknownSortKey })
    ));
}

#[test]
fn update_by_owner_and_non_owner() {
    let mut c = ShoeCatalog::new().unwrap();
    let a = c.add_shoe(&alice(), 5, payload("runner", "42", 30, 5)).unwrap();
    let r = c.update_shoe(&bob(), 9, a.id, payload("stolen", "1", 1, 1));
    match r {
        Err(Error::NotAuthorized { id, caller }) => {
            assert_eq!(id, a.id);
            assert_eq!(caller, "bob");
        }
        _ => panic!("expected NotAuthorized"),
    }
    let g = c.get_shoe_by_id(a.id).unwrap();
    assert_eq!(g.name, "runner");
    assert_eq!(g.updated_at, None);
    let u = c.update_shoe(&alice(), 9, a.id, payload("racer", "43", 35, 2)).unwrap();
    assert_eq!(u.name, "racer");
    assert_eq!(u.updated_at, Some(9));
    assert_eq!(u.created_at, 5);
    assert_eq!(u.owner, "alice");
    assert_eq!(c.get_shoe_by_id(a.id).unwrap().price, 35);
    assert!(matches!(c.update_shoe(&alice(), 9, 77, payload("x", "1", 1, 1)), Err(Error::NotFound { id: 77 })));
}

#[test]
fn like_twice_is_refused() {
    let mut c = ShoeCatalog::new().unwrap();
    let a = c.add_shoe(&alice(), 5, payload("runner", "42", 30, 5)).unwrap();
    let l = c.like_shoe(&bob(), a.id).unwrap();
    assert_eq!(l.like, 1);
    assert_eq!(l.liked_by, vec!["bob".to_string()]);
    assert!(matches!(c.like_shoe(&bob(), a.id), Err(Error::AlreadyLiked { .. })));
    assert_eq!(c.get_shoe_by_id(a.id).unwrap().liked_by.len(), 1);
    let l2 = c.like_shoe(&alice(), a.id).unwrap();
    assert_eq!(l2.like, 1);
    assert_eq!(l2.liked_by.len(), 2);
    assert!(matches!(c.like_shoe(&bob(), 8), Err(Error::NotFound { id: 8 })));
}

#[test]
fn delete_then_get_is_not_found() {
    let mut c = ShoeCatalog::new().unwrap();
    let a = c.add_shoe(&alice(), 5, payload("runner", "42", 30, 5)).unwrap();
    assert!(matches!(c.delete_shoe(&bob(), a.id), Err(Error::NotAuthorized { .. })));
    let d = c.delete_shoe(&alice(), a.id).unwrap();
    assert_eq!(d.name, "runner");
    assert!(matches!(c.get_shoe_by_id(a.id), Err(Error::NotFound { .. })));
    assert!(matches!(c.delete_shoe(&alice(), a.id), Err(Error::NotFound { .. })));
    let b = c.add_shoe(&alice(), 6, payload("boot", "40", 3, 1)).unwrap();
    assert_eq!(b.id, 1);
}

#[test]
fn total_and_searches() {
    let mut c = ShoeCatalog::new().unwrap();
    c.add_shoe(&alice(), 1, payload("runner", "42", 30, 32767)).unwrap();
    c.add_shoe(&alice(), 2, payload("runner", "40", 10, 32767)).unwrap();
    c.add_shoe(&alice(), 3, payload("boot", "42", 20, 6)).unwrap();
    assert_eq!(c.total_number_of_shoes(), 65540);
    let by_name: Vec<u64> = c.search_by_name(&"runner".to_string()).iter().map(|s| s.id).collect();
    assert_eq!(by_name, vec![0, 1]);
    let crit = ShoeSearchCriteria { name: None, size: Some("42".to_string()), min_price: Some(15), max_price: None };
    let found: Vec<u64> = c.search_shoes(&crit).iter().map(|s| s.id).collect();
    assert_eq!(found, vec![0, 2]);
    let all = ShoeSearchCriteria { name: None, size: None, min_price: None, max_price: None };
    assert_eq!(c.search_shoes(&all).len(), 3);
    let none = ShoeSearchCriteria { name: Some("x".to_string()), size: None, min_price: None, max_price: Some(5) };
    assert!(c.search_shoes(&none).is_empty());
    assert_eq!(ShoeCatalog::new().unwrap().total_number_of_shoes(), 0);
}

#[test]
fn owner_check() {
    let mut c = ShoeCatalog::new().unwrap();
    let a = c.add_shoe(&alice(), 1, payload("runner", "42", 30, 1)).unwrap();
    assert!(validate_owner(&a, &alice()));
    assert!(!validate_owner(&a, &bob()));
}

#[test]
fn load_opens_fresh_tables() {
    let c = ShoeCatalog::load().unwrap();
    assert_eq!(c.next_id(), 0);
    assert_eq!(c.total_number_of_shoes(), 0);
    assert!(c.get_shoes(0, 10, "price").unwrap().is_empty());
}

#[test]
fn records_round_trip_through_stable_storage() {
    let mut c = ShoeCatalog::new().unwrap();
    let p = ShoePayload {
        name: "Laufschuh ü".to_string(),
        size: "44½".to_string(),
        shoe_url: "http://shop.example.de:8080/".to_string(),
        price: 0,
        quantity: 32767,
    };
    let a = c.add_shoe(&"owner-é".to_string(), u64::MAX, p).unwrap();
    c.like_shoe(&"x".to_string(), a.id).unwrap();
    c.like_shoe(&"y😀".to_string(), a.id).unwrap();
    let g = c.get_shoe_by_id(a.id).unwrap();
    assert_eq!(g.name, "Laufschuh ü");
    assert_eq!(g.size, "44½");
    assert_eq!(g.owner, "owner-é");
    assert_eq!(g.shoe_url, "http://shop.example.de:8080/");
    assert_eq!(g.price, 0);
    assert_eq!(g.quantity, 32767);
    assert_eq!(g.created_at, u64::MAX);
    assert_eq!(g.liked_by, vec!["x".to_string(), "y😀".to_string()]);
    let u = c.update_shoe(&"owner-é".to_string(), 3, a.id, payload("n", "s", -7, -3)).unwrap();
    assert_eq!(u.updated_at, Some(3));
    let g = c.get_shoe_by_id(a.id).unwrap();
    assert_eq!(g.price, -7);
    assert_eq!(g.quantity, -3);
    assert_eq!(g.updated_at, Some(3));
    assert_eq!(g.like, 1);
}

#[test]
fn oversized_records_are_refused() {
    let mut c = ShoeCatalog::new().unwrap();
    let big = "n".repeat(1100);
    let r = c.add_shoe(&alice(), 1, payload(&big, "42", 1, 1));
    assert!(matches!(r, Err(Error::RecordTooLarge { id: 0 })));
    let a = c.add_shoe(&alice(), 1, payload("runner", "42", 1, 1)).unwrap();
    assert_eq!(a.id, 0);
    let r = c.update_shoe(&alice(), 2, a.id, payload(&big, "42", 1, 1));
    assert!(matches!(r, Err(Error::RecordTooLarge { id: 0 })));
    assert_eq!(c.get_shoe_by_id(a.id).unwrap().name, "runner");
    let mut liked = 0;
    loop {
        match c.like_shoe(&format!("fan-number-{:040}", liked), a.id) {
            Ok(_) => liked += 1,
            Err(Error::RecordTooLarge { id }) => {
                assert_eq!(id, a.id);
                break;
            }
            Err(_) => panic!("unexpected error"),
        }
    }
    assert!(liked > 0);
    assert_eq!(c.get_shoe_by_id(a.id).unwrap().liked_by.len(), liked);
}

#[test]
fn failure_messages() {
    assert_eq!(Invalid::ImageUrl.message(), "the image url is not a valid url");
    assert_eq!(Invalid::NegativePrice.message(), "the price must not be negative");
    assert_eq!(Invalid::NonPositiveQuantity.message(), "the quantity must be greater than zero");
    assert_eq!(Invalid::UnknownSortKey.message(), "records can be sorted by price or created_at only");
}

#[test]
fn deleted_ids_are_not_reissued() {
    let mut c = ShoeCatalog::new().unwrap();
    let a = c.add_shoe(&alice(), 1, payload("a", "40", 1, 1)).unwrap();
    let b = c.add_shoe(&alice(), 2, payload("b", "40", 1, 1)).unwrap();
    c.delete_shoe(&alice(), b.id).unwrap();
    let d = c.add_shoe(&alice(), 3, payload("d", "40", 1, 1)).unwrap();
    assert!(d.id > b.id && d.id > a.id);
    assert_eq!(c.next_id(), 3);
}
