use taskr::stamp::Instant;

fn instant(secs: i64, nanos: u32) -> Instant {
    Instant::new(secs, nanos).unwrap()
}

#[test]
fn stamp_of_positive_instant() {
    let t = instant(1_700_000_000, 123);
    assert_eq!(t.to_stamp(), b"+0000000001700000000.000000123".to_vec());
}

#[test]
fn stamp_of_negative_instant() {
    let t = instant(-1, 5);
    assert_eq!(t.to_stamp(), b"-0000000000000000001.000000005".to_vec());
}

#[test]
fn stamp_of_extremes() {
    assert_eq!(instant(i64::MIN, 0).to_stamp(), b"-9223372036854775808.000000000".to_vec());
    assert_eq!(instant(i64::MAX, 999_999_999).to_stamp(), b"+9223372036854775807.999999999".to_vec());
    assert_eq!(instant(0, 0).to_stamp(), b"+0000000000000000000.000000000".to_vec());
}

#[test]
fn stamp_round_trip_keeps_every_nanosecond() {
    let cases = [
        instant(0, 0),
        instant(1_700_000_000, 123_456_789),
        instant(-86_400, 1),
        instant(i64::MIN, 999_999_999),
        instant(i64::MAX, 0),
    ];
    for t in cases.iter() {
        let text = t.to_stamp();
        assert_eq!(Instant::parse_stamp(&text), Some(*t));
    }
}

#[test]
fn stamp_parse_rejects_malformed_text() {
    assert_eq!(Instant::parse_stamp(b""), None);
    assert_eq!(Instant::parse_stamp(b"Tue, 1 Jul 2003 10:52:37 +0000"), None);
    assert_eq!(Instant::parse_stamp(b"*0000000001700000000.000000123"), None);
    assert_eq!(Instant::parse_stamp(b"+0000000001700000000,000000123"), None);
    assert_eq!(Instant::parse_stamp(b"+00000000017000000x0.000000123"), None);
    assert_eq!(Instant::parse_stamp(b"+0000000001700000000.000000123 "), None);
}

#[test]
fn stamp_parse_rejects_out_of_range_seconds() {
    assert_eq!(Instant::parse_stamp(b"+9223372036854775808.000000000"), None);
    assert_eq!(Instant::parse_stamp(b"-9223372036854775809.000000000"), None);
    assert_eq!(Instant::parse_stamp(b"-0000000000000000000.000000000"), None);
}

#[test]
fn instant_new_rejects_a_full_second_of_nanos() {
    assert_eq!(Instant::new(5, 1_000_000_000), None);
    assert_eq!(Instant::new(5, 999_999_999), Some(Instant { secs: 5, nanos: 999_999_999 }));
}

#[test]
fn rfc2822_rendering() {
    let t = instant(1_057_056_757, 0);
    assert_eq!(t.to_rfc2822(), Some(String::from("Tue, 1 Jul 2003 10:52:37 +0000")));
    assert_eq!(instant(0, 500).to_rfc2822(), Some(String::from("Thu, 1 Jan 1970 00:00:00 +0000")));
}

#[test]
fn rfc2822_rendering_outside_years_0_to_9999() {
    assert_eq!(instant(253_402_300_799, 0).to_rfc2822(), Some(String::from("Fri, 31 Dec 9999 23:59:59 +0000")));
    assert_eq!(instant(253_402_300_800, 0).to_rfc2822(), None);
    assert_eq!(instant(-62_167_219_201, 0).to_rfc2822(), None);
}
