use shortener::store::{Shortener, StoreError};

fn shorten(s: &mut Shortener, url: &str) -> String {
    s.get_or_create_short_code(&String::from(url)).unwrap()
}

fn code_is_well_formed(code: &str) -> bool {
    code.len() == 5 && code.chars().all(|c| c.is_ascii_alphanumeric())
}

#[test]
fn shorten_is_idempotent() {
    let mut s = Shortener::new();
    let c1 = shorten(&mut s, "https://example.com/long/path?q=1");
    let c2 = shorten(&mut s, "https://example.com/long/path?q=1");
    assert_eq!(c1, c2);
    assert_eq!(s.entry_count(), 1);
}

#[test]
fn shorten_then_resolve_round_trips() {
    let mut s = Shortener::new();
    let url = String::from("https://example.com/some/where");
    let code = s.get_or_create_short_code(&url).unwrap();
    assert_eq!(s.resolve(&code).unwrap(), url);
}

#[test]
fn resolve_on_empty_store_is_not_found() {
    let s = Shortener::new();
    assert_eq!(s.resolve(&String::from("abcde")), Err(StoreError::NotFound));
}

#[test]
fn resolve_never_inserted_code_is_not_found() {
    let mut s = Shortener::new();
    let c1 = shorten(&mut s, "https://example.com/x");
    let other = if c1 == "aaaaa" { "bbbbb" } else { "aaaaa" };
    assert_eq!(s.resolve(&String::from(other)), Err(StoreError::NotFound));
}

#[test]
fn resolve_tolerates_arbitrary_strings() {
    let mut s = Shortener::new();
    shorten(&mut s, "https://example.com/x");
    assert_eq!(s.resolve(&String::from("")), Err(StoreError::NotFound));
    assert_eq!(s.resolve(&String::from("way too long to be a code")), Err(StoreError::NotFound));
    assert_eq!(s.resolve(&String::from("a!b?c")), Err(StoreError::NotFound));
}

#[test]
fn codes_are_five_alphanumeric_chars() {
    let mut s = Shortener::new();
    for i in 0..20 {
        let code = shorten(&mut s, &format!("https://example.com/page/{}", i));
        assert!(code_is_well_formed(&code));
    }
}

#[test]
fn distinct_urls_get_distinct_codes() {
    let mut s = Shortener::new();
    let c1 = shorten(&mut s, "https://example.com/one");
    let c2 = shorten(&mut s, "https://example.com/two");
    assert_ne!(c1, c2);
    assert_eq!(s.entry_count(), 2);
}

#[test]
fn repeated_shorten_keeps_a_single_entry() {
    let mut s = Shortener::new();
    let first = shorten(&mut s, "https://example.com/same");
    for _ in 0..20 {
        let again = shorten(&mut s, "https://example.com/same");
        assert_eq!(again, first);
        assert_eq!(s.entry_count(), 1);
    }
}

#[test]
fn shorten_resolve_scenario() {
    let mut s = Shortener::new();
    let c1 = shorten(&mut s, "https://example.com/a");
    assert!(code_is_well_formed(&c1));
    assert_eq!(s.resolve(&c1).unwrap(), "https://example.com/a");
    let again = shorten(&mut s, "https://example.com/a");
    assert_eq!(again, c1);
    let unused = if c1 == "zzzzz" { "yyyyy" } else { "zzzzz" };
    assert_eq!(s.resolve(&String::from(unused)), Err(StoreError::NotFound));
}

#[test]
fn many_urls_all_round_trip() {
    let mut s = Shortener::new();
    let urls: Vec<String> = (0..50).map(|i| format!("https://example.com/item/{}", i)).collect();
    let codes: Vec<String> =
        urls.iter().map(|u| s.get_or_create_short_code(u).unwrap()).collect();
    assert_eq!(s.entry_count(), 50);
    for (u, c) in urls.iter().zip(codes.iter()) {
        assert!(code_is_well_formed(c));
        assert_eq!(s.resolve(c).unwrap(), *u);
    }
    for (i, c) in codes.iter().enumerate() {
        for c2 in codes.iter().skip(i + 1) {
            assert_ne!(c, c2);
        }
    }
}
