use algos::basics::record::{decode_record, encode_record};
use algos::basics::lines::{count_nonblank_lines, is_blank, is_whitespace};
use algos::basics::bucket::HashMapBucket;
use algos::basics::counter::Counter;
use algos::basics::numbers::{build_users, do_math, fibonacci, is_prime};
use algos::basics::vars::{add, doble, gree_borrow_mut, green};

#[test]
fn it_works() {
    let result = add(2, 2);
    assert_eq!(result, 4);
}

#[test]
fn doubling_and_greeting() {
    assert_eq!(doble(10), 20);
    assert_eq!(doble(-3), -6);
    assert_eq!(green("Leo".to_string()), "Leo");
    let mut name = String::from("Leo");
    gree_borrow_mut(&mut name);
    assert_eq!(name, "Hello Leo");
}

#[test]
fn counter_counts_to_max() {
    let mut counter = Counter::new(3);
    assert_eq!(counter.len(), 3);
    assert_eq!(counter.next(), Some(1));
    assert_eq!(counter.len(), 2);
    assert_eq!(counter.next(), Some(2));
    assert_eq!(counter.next(), Some(3));
    assert_eq!(counter.len(), 0);
    assert_eq!(counter.next(), None);
    assert_eq!(counter.next(), None);
    assert_eq!(counter.len(), 0);
    let mut ten = Counter::new(10);
    assert_eq!(ten.next(), Some(1));
    assert_eq!(ten.len(), 9);
}

#[test]
fn bucket_gathers_values() {
    let mut bucket: HashMapBucket<u32, i32> = HashMapBucket::new();
    bucket.insert(1, 1);
    bucket.insert(2, 2);
    bucket.insert(1, 3);
    let mut other: HashMapBucket<&str, i32> = HashMapBucket::new();
    other.insert("apple", 1);
}

#[test]
fn numbers() {
    assert_eq!(do_math(0), 1024);
    assert_eq!(do_math(9), 10240);
    assert_eq!(fibonacci(10), 55);
    assert_eq!(fibonacci(0), 0);
    assert_eq!(fibonacci(1), 1);
    assert!(is_prime(7));
    assert!(is_prime(97));
    assert!(!is_prime(91));
    assert!(!is_prime(4));
    let users = build_users();
    assert_eq!(users, vec!["Ana".to_string(), "Jane".to_string()]);
}

#[test]
fn whitespace_agrees_with_std() {
    for code in 0u32..=0x10FFFF {
        if let Some(c) = char::from_u32(code) {
            assert_eq!(is_whitespace(c), c.is_whitespace(), "{:?}", c);
        }
    }
}

#[test]
fn blank_lines() {
    assert!(is_blank(&String::new()));
    assert!(is_blank(&" \t\u{3000}".to_string()));
    assert!(!is_blank(&"  x ".to_string()));
}

#[test]
fn count_nonblank_lines_skips_blank_ones() {
    let lines: Vec<String> = vec!["first", "   ", "", "\t second \t", "\u{a0}", "third"]
        .into_iter()
        .map(String::from)
        .collect();
    assert_eq!(count_nonblank_lines(&lines), 3);
    assert_eq!(count_nonblank_lines(&Vec::new()), 0);
}

#[test]
fn record_bytes_layout() {
    let bytes = encode_record(1, "Hello word".as_bytes());
    let mut expected = vec![1u8, 0, 10, 0, 0, 0, 0, 0, 0, 0];
    expected.extend_from_slice(b"Hello word");
    assert_eq!(bytes, expected);
    assert_eq!(encode_record(0x1234, &[]), vec![0x34, 0x12, 0, 0, 0, 0, 0, 0, 0, 0]);
}

#[test]
fn record_round_trip() {
    let bytes = encode_record(513, "Hello word".as_bytes());
    assert_eq!(decode_record(&bytes), Some((513, b"Hello word".to_vec())));
    let mut longer = bytes.clone();
    longer.push(7);
    assert_eq!(decode_record(&longer), Some((513, b"Hello word".to_vec())));
}

#[test]
fn record_too_short() {
    assert_eq!(decode_record(&vec![1, 0, 3]), None);
    assert_eq!(decode_record(&vec![1, 0, 3, 0, 0, 0, 0, 0, 0, 0, b'a', b'b']), None);
    assert_eq!(decode_record(&vec![1, 0, 0, 0, 0, 0, 0, 0, 0, 1]), None);
}
