use image::{Rgba, RgbaImage};
use prtoolbar::avatars::{AvatarCache, RETRY_AFTER_MS};

const AVATAR_PX: u32 = 32;

fn solid(rgb: [u8; 3]) -> RgbaImage {
    RgbaImage::from_pixel(AVATAR_PX, AVATAR_PX, Rgba([rgb[0], rgb[1], rgb[2], 0xFF]))
}

fn placeholder() -> RgbaImage {
    solid([0x8E, 0x8E, 0x93])
}

fn get<'a>(fresh: &'a [(String, RgbaImage)], url: &str) -> Option<&'a RgbaImage> {
    fresh.iter().find(|(u, _)| u == url).map(|(_, image)| image)
}

#[test]
fn already_cached_url_is_not_fetched_again() {
    let mut cache = AvatarCache::default();
    let calls = std::cell::Cell::new(0);
    let fetch = |_: &str| {
        calls.set(calls.get() + 1);
        Ok::<_, String>(solid([1, 1, 1]))
    };
    cache.fetch_missing_with(vec!["https://a".to_owned()], fetch, || 0, placeholder);
    assert_eq!(calls.get(), 1);

    let fresh = cache.fetch_missing_with(vec!["https://a".to_owned()], fetch, || 0, placeholder);
    assert_eq!(calls.get(), 1, "cached URL is not fetched again");
    assert!(fresh.is_empty(), "cached URL is not returned as fresh");
}

#[test]
fn duplicate_url_within_one_call_is_fetched_once() {
    let mut cache = AvatarCache::default();
    let calls = std::cell::Cell::new(0);
    let fetch = |_: &str| {
        calls.set(calls.get() + 1);
        Ok::<_, String>(solid([1, 1, 1]))
    };
    let fresh = cache.fetch_missing_with(
        vec!["https://a".to_owned(), "https://a".to_owned()],
        fetch,
        || 0,
        placeholder,
    );
    assert_eq!(calls.get(), 1);
    assert_eq!(fresh.len(), 1);
}

#[test]
fn empty_url_is_ignored() {
    let mut cache = AvatarCache::default();
    let calls = std::cell::Cell::new(0);
    let fetch = |_: &str| {
        calls.set(calls.get() + 1);
        Ok::<_, String>(solid([1, 1, 1]))
    };
    let fresh = cache.fetch_missing_with(vec![String::new()], fetch, || 0, placeholder);
    assert_eq!(calls.get(), 0);
    assert!(fresh.is_empty());
}

#[test]
fn failing_fetch_yields_placeholder_and_is_not_retried_immediately() {
    let mut cache = AvatarCache::default();
    let calls = std::cell::Cell::new(0);
    let fetch = |_: &str| {
        calls.set(calls.get() + 1);
        Err::<RgbaImage, _>("boom".to_owned())
    };
    let fresh = cache.fetch_missing_with(vec!["https://a".to_owned()], fetch, || 0, placeholder);
    assert_eq!(calls.get(), 1);
    assert_eq!(get(&fresh, "https://a").unwrap(), &placeholder());

    let fresh = cache.fetch_missing_with(vec!["https://a".to_owned()], fetch, || 0, placeholder);
    assert_eq!(calls.get(), 1, "recent failure is not retried");
    assert!(fresh.is_empty());
}

#[test]
fn failure_is_retried_after_it_ages_past_retry_after() {
    let mut cache = AvatarCache::default();
    let fail = |_: &str| Err::<RgbaImage, _>("boom".to_owned());
    let fresh = cache.fetch_missing_with(vec!["https://a".to_owned()], fail, || 5_000, placeholder);
    assert_eq!(get(&fresh, "https://a").unwrap(), &placeholder());

    let later = 5_000 + RETRY_AFTER_MS + 1_000;
    let succeed = |_: &str| Ok::<_, String>(solid([9, 9, 9]));
    let fresh = cache.fetch_missing_with(vec!["https://a".to_owned()], succeed, || later, placeholder);
    assert_eq!(get(&fresh, "https://a").unwrap(), &solid([9, 9, 9]));
}

#[test]
fn a_clock_reading_before_the_failure_counts_as_recent() {
    let mut cache = AvatarCache::default();
    let fail = |_: &str| Err::<RgbaImage, _>("boom".to_owned());
    cache.fetch_missing_with(vec!["https://b".to_owned()], fail, || 9_000, placeholder);
    let calls = std::cell::Cell::new(0);
    let fetch = |_: &str| {
        calls.set(calls.get() + 1);
        Ok::<_, String>(solid([2, 2, 2]))
    };
    let fresh = cache.fetch_missing_with(vec!["https://b".to_owned()], fetch, || 1_000, placeholder);
    assert!(fresh.is_empty());
    assert_eq!(calls.get(), 0);
}

#[test]
fn successes_and_failures_mix_in_one_refresh() {
    let mut cache = AvatarCache::default();
    let fetch = |url: &str| {
        if url.ends_with("bad") {
            Err("HTTP 404".to_owned())
        } else {
            Ok(solid([3, 3, 3]))
        }
    };
    let fresh = cache.fetch_missing_with(
        vec!["https://good".to_owned(), "https://bad".to_owned(), String::new()],
        fetch,
        || 0,
        placeholder,
    );
    let keys: Vec<&str> = fresh.iter().map(|(u, _)| u.as_str()).collect();
    assert_eq!(keys, ["https://good", "https://bad"]);
    assert_eq!(get(&fresh, "https://good").unwrap(), &solid([3, 3, 3]));
    assert_eq!(get(&fresh, "https://bad").unwrap(), &placeholder());
}
