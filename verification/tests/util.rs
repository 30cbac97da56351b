//! Hashes and timestamps.

use ambidiff_core::util::{fnv1a32, format_rfc3339_utc};

#[test]
fn fnv1a32_matches_reference_vectors() {
    assert_eq!(fnv1a32(""), 0x811c9dc5);
    assert_eq!(fnv1a32("a"), 0xe40c292c);
    assert_eq!(fnv1a32("foobar"), 0xbf9cf968);
}

#[test]
fn rfc3339_epoch_and_known_dates() {
    assert_eq!(format_rfc3339_utc(0), "1970-01-01T00:00:00Z");
    assert_eq!(format_rfc3339_utc(951_782_400), "2000-02-29T00:00:00Z");
    assert_eq!(format_rfc3339_utc(1_757_155_200), "2025-09-06T10:40:00Z");
    // Negative timestamps (pre-epoch) still format sanely.
    assert_eq!(format_rfc3339_utc(-86_400), "1969-12-31T00:00:00Z");
}
