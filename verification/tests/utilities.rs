use phonebook::{fib, freq, hash_to_array, is_palindrome, nthmax, zip_hash};

#[test]
fn fib_small_prefixes() {
    assert_eq!(fib(0), Vec::<u32>::new());
    assert_eq!(fib(1), vec![0]);
    assert_eq!(fib(2), vec![0, 1]);
    assert_eq!(fib(10), vec![0, 1, 1, 2, 3, 5, 8, 13, 21, 34]);
}

#[test]
fn fib_largest_prefix() {
    let v = fib(48);
    assert_eq!(v.len(), 48);
    assert_eq!(v[46], 1836311903);
    assert_eq!(v[47], 2971215073);
}

#[test]
fn palindromes() {
    assert!(is_palindrome(0));
    assert!(is_palindrome(7));
    assert!(is_palindrome(121));
    assert!(is_palindrome(1221));
    assert!(is_palindrome(4286776824));
    assert!(!is_palindrome(10));
    assert!(!is_palindrome(123));
    assert!(!is_palindrome(100));
}

#[test]
fn nthmax_basic() {
    let a = [3, 1, 4, 1, 5, 9, 2, 6];
    assert_eq!(nthmax(0, &a), Some(9));
    assert_eq!(nthmax(1, &a), Some(6));
    assert_eq!(nthmax(7, &a), Some(1));
    assert_eq!(nthmax(8, &a), None);
}

#[test]
fn nthmax_duplicates_count_separately() {
    let a = [5, 5, 3];
    assert_eq!(nthmax(0, &a), Some(5));
    assert_eq!(nthmax(1, &a), Some(5));
    assert_eq!(nthmax(2, &a), Some(3));
}

#[test]
fn nthmax_empty_and_negative() {
    assert_eq!(nthmax(0, &[]), None);
    let a = [-3, -1, -2];
    assert_eq!(nthmax(0, &a), Some(-1));
    assert_eq!(nthmax(2, &a), Some(-3));
}

#[test]
fn freq_most_common() {
    assert_eq!(freq("hello"), "l");
    assert_eq!(freq("aabbbcc"), "b");
    assert_eq!(freq(""), "");
    assert_eq!(freq("z"), "z");
}

#[test]
fn freq_tie_takes_first() {
    assert_eq!(freq("abab"), "a");
    assert_eq!(freq("ba"), "b");
}

#[test]
fn zip_hash_length_mismatch() {
    let keys = vec!["a".to_string()];
    let vals = vec!["1".to_string(), "2".to_string()];
    assert!(zip_hash(&keys, &vals).is_none());
    assert!(zip_hash(&vals, &keys).is_none());
}

#[test]
fn zip_and_sort_round_trip() {
    let keys = vec!["banana".to_string(), "apple".to_string(), "cherry".to_string()];
    let vals = vec!["yellow".to_string(), "green".to_string(), "red".to_string()];
    let m = zip_hash(&keys, &vals).unwrap();
    let pairs = hash_to_array(&m);
    assert_eq!(
        pairs,
        vec![
            ("apple".to_string(), "green".to_string()),
            ("banana".to_string(), "yellow".to_string()),
            ("cherry".to_string(), "red".to_string()),
        ]
    );
}

#[test]
fn zip_hash_later_value_wins() {
    let keys = vec!["k".to_string(), "k".to_string(), "j".to_string()];
    let vals = vec!["old".to_string(), "new".to_string(), "x".to_string()];
    let m = zip_hash(&keys, &vals).unwrap();
    let pairs = hash_to_array(&m);
    assert_eq!(
        pairs,
        vec![
            ("j".to_string(), "x".to_string()),
            ("k".to_string(), "new".to_string()),
        ]
    );
}

#[test]
fn zip_hash_empty() {
    let empty: Vec<String> = Vec::new();
    let m = zip_hash(&empty, &empty).unwrap();
    assert_eq!(hash_to_array(&m), Vec::<(String, String)>::new());
}
