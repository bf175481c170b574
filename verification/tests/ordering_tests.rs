use rusty_kv::store::btree_kv::helpers::byte_ordering::cmp_le_bytes;
use std::cmp::Ordering;

#[test]
fn equal_keys_compare_equal() {
    assert_eq!(cmp_le_bytes(b"abc", b"abc"), Ordering::Equal);
    assert_eq!(cmp_le_bytes(b"", b""), Ordering::Equal);
}

#[test]
fn last_byte_weighs_most() {
    // As byte strings "ab" comes before "ba". Here the last bytes decide.
    assert_eq!(cmp_le_bytes(b"ab", b"ba"), Ordering::Greater);
    assert_eq!(cmp_le_bytes(b"ba", b"ab"), Ordering::Less);
    assert_eq!(cmp_le_bytes(&[9, 1], &[0, 2]), Ordering::Less);
    assert_eq!(cmp_le_bytes(&[0, 2], &[9, 1]), Ordering::Greater);
}

#[test]
fn first_byte_decides_among_equal_high_bytes() {
    assert_eq!(cmp_le_bytes(&[1, 5, 7], &[2, 5, 7]), Ordering::Less);
    assert_eq!(cmp_le_bytes(&[2, 5, 7], &[1, 5, 7]), Ordering::Greater);
}

#[test]
fn trailing_zero_bytes_do_not_count() {
    assert_eq!(cmp_le_bytes(&[1, 2], &[1, 2, 0, 0]), Ordering::Equal);
    assert_eq!(cmp_le_bytes(&[], &[0, 0, 0]), Ordering::Equal);
    assert_eq!(cmp_le_bytes(&[1, 2, 0], &[1, 2]), Ordering::Equal);
}

#[test]
fn longer_key_with_nonzero_high_byte_is_greater() {
    assert_eq!(cmp_le_bytes(&[255, 255], &[0, 0, 1]), Ordering::Less);
    assert_eq!(cmp_le_bytes(&[0, 0, 1], &[255, 255]), Ordering::Greater);
    assert_eq!(cmp_le_bytes(&[], &[1]), Ordering::Less);
}

#[test]
fn order_is_that_of_little_endian_numbers() {
    let numbers: [u32; 6] = [0, 1, 255, 256, 65535, 65536];
    for a in numbers {
        for b in numbers {
            assert_eq!(cmp_le_bytes(&a.to_le_bytes(), &b.to_le_bytes()), a.cmp(&b));
        }
    }
}
