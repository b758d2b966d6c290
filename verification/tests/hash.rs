use timetrax::az_hash::{az_hash_bytes, AZHash, U64_MAX_AZ_HASH_LEN};
use timetrax::day::{Date, Day};
use timetrax::render::format_date;

#[test]
fn max_test() {
    assert!(((u64::MAX as u128) + 1).ilog(26) < U64_MAX_AZ_HASH_LEN as u32);
}

#[test]
fn hash_is_fourteen_letters_per_group() {
    // 32 digest bytes in groups of eight: four groups of fourteen letters.
    let hash = az_hash_bytes(&vec![]);
    assert_eq!(hash.len(), 4 * U64_MAX_AZ_HASH_LEN);
    assert!(hash.chars().all(|c| c.is_ascii_lowercase()));
    // different inputs hash differently
    let other = az_hash_bytes(&vec![1, 2, 3]);
    assert_ne!(hash, other);
}

#[test]
fn day_hash_uses_the_date_text() {
    assert_eq!(format_date(Date { year: 2024, month: 6, day: 1 }), "2024-06-01");
    assert_eq!(format_date(Date { year: 44, month: 12, day: 31 }), "0044-12-31");
    assert_eq!(format_date(Date { year: -44, month: 3, day: 15 }), "-0044-03-15");
    let day = Day::new(Date { year: 2024, month: 6, day: 1 });
    let tag = day.az_hash();
    assert_eq!(tag.len(), 4 * U64_MAX_AZ_HASH_LEN);
    assert!(tag.chars().all(|c| c.is_ascii_lowercase()));
    // the tag is the hash of the rendered date
    let same = Day::new(Date { year: 2024, month: 6, day: 1 }).az_hash();
    let other = Day::new(Date { year: 2024, month: 6, day: 2 }).az_hash();
    assert_eq!(tag, same);
    assert_ne!(tag, other);
}
