use bytes::BytesMut;
use peta::date::{generate_date_header, set_date_header, Time, MAX_SECONDS};

fn header_text(secs: u64) -> String {
    String::from_utf8(generate_date_header(secs).to_vec()).unwrap()
}

#[test]
fn epoch_is_thursday_first_of_january_1970() {
    assert_eq!(header_text(0), "date: Thu, 01 Jan 1970 00:00:00 GMT\r\n");
}

#[test]
fn last_second_of_first_day() {
    assert_eq!(header_text(86399), "date: Thu, 01 Jan 1970 23:59:59 GMT\r\n");
}

#[test]
fn leap_days() {
    assert_eq!(header_text(68169600), "date: Tue, 29 Feb 1972 00:00:00 GMT\r\n");
    assert_eq!(header_text(951782400), "date: Tue, 29 Feb 2000 00:00:00 GMT\r\n");
    assert_eq!(header_text(951868800), "date: Wed, 01 Mar 2000 00:00:00 GMT\r\n");
}

#[test]
fn century_without_leap_day() {
    assert_eq!(header_text(4107542399), "date: Sun, 28 Feb 2100 23:59:59 GMT\r\n");
    assert_eq!(header_text(4107542400), "date: Mon, 01 Mar 2100 00:00:00 GMT\r\n");
}

#[test]
fn year_ends() {
    assert_eq!(header_text(946684799), "date: Fri, 31 Dec 1999 23:59:59 GMT\r\n");
    assert_eq!(header_text(978307199), "date: Sun, 31 Dec 2000 23:59:59 GMT\r\n");
}

#[test]
fn ordinary_instant() {
    assert_eq!(header_text(1709296496), "date: Fri, 01 Mar 2024 12:34:56 GMT\r\n");
}

#[test]
fn last_representable_second() {
    assert_eq!(header_text(MAX_SECONDS - 1), "date: Fri, 31 Dec 9999 23:59:59 GMT\r\n");
}

#[test]
fn header_is_37_bytes() {
    assert_eq!(generate_date_header(1234567890).len(), 37);
}

#[test]
fn cache_kept_within_a_second() {
    let mut cache = Time::new(100, 0);
    let mut buf = BytesMut::new();
    set_date_header(&mut cache, 100, 999_999_999, &mut buf);
    assert_eq!(&buf[..], &generate_date_header(100)[..]);
}

#[test]
fn cache_renewed_after_a_second() {
    let mut cache = Time::new(100, 500_000_000);
    let mut buf = BytesMut::new();
    set_date_header(&mut cache, 101, 500_000_000, &mut buf);
    assert_eq!(&buf[..], &generate_date_header(101)[..]);
}

#[test]
fn cache_kept_just_under_a_second() {
    let mut cache = Time::new(100, 500_000_000);
    let mut buf = BytesMut::new();
    set_date_header(&mut cache, 101, 499_999_999, &mut buf);
    assert_eq!(&buf[..], &generate_date_header(100)[..]);
}

#[test]
fn cache_kept_when_clock_goes_back() {
    let mut cache = Time::new(200, 0);
    let mut buf = BytesMut::new();
    set_date_header(&mut cache, 100, 0, &mut buf);
    assert_eq!(&buf[..], &generate_date_header(200)[..]);
}

#[test]
fn set_date_header_appends() {
    let mut cache = Time::new(0, 0);
    let mut buf = BytesMut::from(&b"HTTP/1.1 200 Ok\r\n"[..]);
    set_date_header(&mut cache, 5, 0, &mut buf);
    assert_eq!(&buf[..], &b"HTTP/1.1 200 Ok\r\ndate: Thu, 01 Jan 1970 00:00:05 GMT\r\n"[..]);
}

#[test]
fn set_date_header_reports_clock_going_back() {
    let mut cache = Time::new(200, 500);
    let mut buf = BytesMut::new();
    assert!(set_date_header(&mut cache, 200, 499, &mut buf));
    assert!(!set_date_header(&mut cache, 200, 500, &mut buf));
    assert!(!set_date_header(&mut cache, 201, 0, &mut buf));
}

#[test]
fn staleness_of_cache() {
    let cache = Time::new(10, 500_000_000);
    assert!(!cache.is_stale_at(10, 999_999_999));
    assert!(!cache.is_stale_at(11, 499_999_999));
    assert!(cache.is_stale_at(11, 500_000_000));
    assert!(cache.is_stale_at(12, 0));
    assert!(!cache.is_stale_at(9, 0));
}

#[test]
fn fresh_cache_is_kept_past_the_last_year() {
    // a cache that is not stale is used as it is, whatever `now` is
    let mut cache = Time::new(MAX_SECONDS - 1, 500_000_000);
    let mut buf = BytesMut::new();
    set_date_header(&mut cache, MAX_SECONDS, 0, &mut buf);
    assert_eq!(&buf[..], b"date: Fri, 31 Dec 9999 23:59:59 GMT\r\n");
}

#[test]
fn distinct_seconds_give_distinct_lines() {
    assert_ne!(generate_date_header(0), generate_date_header(1));
    assert_ne!(generate_date_header(59), generate_date_header(60));
    assert_ne!(generate_date_header(86399), generate_date_header(86400));
}
