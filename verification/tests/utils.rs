use phonebook::{fib, freq, hash_to_array, is_palindrome, nthmax, zip_hash};

#[test]
fn fib_empty() {
    assert_eq!(fib(0), Vec::<u32>::new());
}

#[test]
fn fib_one() {
    assert_eq!(fib(1), vec![0]);
}

#[test]
fn fib_two() {
    assert_eq!(fib(2), vec![0, 1]);
}

#[test]
fn fib_eight() {
    assert_eq!(fib(8), vec![0, 1, 1, 2, 3, 5, 8, 13]);
}

#[test]
fn fib_tenth_value() {
    let v = fib(10);
    assert_eq!(v.len(), 10);
    assert_eq!(v[9], 34);
}

#[test]
fn fib_largest_in_range() {
    let v = fib(48);
    assert_eq!(v.len(), 48);
    assert_eq!(v[47], 2971215073);
}

#[test]
fn palindrome_zero_and_single_digits() {
    assert!(is_palindrome(0));
    assert!(is_palindrome(7));
    assert!(is_palindrome(9));
}

#[test]
fn palindrome_multi_digit() {
    assert!(is_palindrome(121));
    assert!(is_palindrome(1221));
    assert!(!is_palindrome(123));
    assert!(!is_palindrome(10));
}

#[test]
fn nthmax_examples() {
    let a = [5, 3, 9, 1];
    assert_eq!(nthmax(0, &a), Some(9));
    assert_eq!(nthmax(3, &a), Some(1));
    assert_eq!(nthmax(4, &a), None);
}

#[test]
fn nthmax_middle_and_duplicates() {
    let a = [5, 3, 9, 1];
    assert_eq!(nthmax(1, &a), Some(5));
    assert_eq!(nthmax(2, &a), Some(3));
    let b = [5, 5, 3];
    assert_eq!(nthmax(0, &b), Some(5));
    assert_eq!(nthmax(1, &b), Some(5));
    assert_eq!(nthmax(2, &b), Some(3));
}

#[test]
fn nthmax_negative_values() {
    let a = [-5, -3];
    assert_eq!(nthmax(0, &a), Some(-3));
    assert_eq!(nthmax(1, &a), Some(-5));
}

#[test]
fn nthmax_empty() {
    let a: [i32; 0] = [];
    assert_eq!(nthmax(0, &a), None);
}

#[test]
fn freq_simple() {
    assert_eq!(freq("hello"), "l".to_string());
    assert_eq!(freq("aaa"), "a".to_string());
    assert_eq!(freq("x"), "x".to_string());
}

#[test]
fn freq_empty() {
    assert_eq!(freq(""), String::new());
}

#[test]
fn freq_tie_first_to_reach() {
    // both letters end at two; 'b' is the first to reach count two
    assert_eq!(freq("abba"), "b".to_string());
    // here 'a' reaches count two first
    assert_eq!(freq("abab"), "a".to_string());
}

#[test]
fn zip_hash_pairs_keys_with_values() {
    let keys = vec!["a".to_string(), "b".to_string()];
    let vals = vec!["1".to_string(), "2".to_string()];
    let m = zip_hash(&keys, &vals).unwrap();
    let pairs = hash_to_array(&m);
    assert_eq!(
        pairs,
        vec![
            ("a".to_string(), "1".to_string()),
            ("b".to_string(), "2".to_string()),
        ]
    );
}

#[test]
fn zip_hash_length_mismatch() {
    let keys = vec!["a".to_string()];
    let vals = vec!["1".to_string(), "2".to_string()];
    assert!(zip_hash(&keys, &vals).is_none());
}

#[test]
fn zip_hash_last_write_wins() {
    let keys = vec!["a".to_string(), "a".to_string()];
    let vals = vec!["1".to_string(), "2".to_string()];
    let m = zip_hash(&keys, &vals).unwrap();
    let pairs = hash_to_array(&m);
    assert_eq!(pairs, vec![("a".to_string(), "2".to_string())]);
}

#[test]
fn hash_to_array_sorts_by_key() {
    let keys = vec!["b".to_string(), "a".to_string(), "c".to_string()];
    let vals = vec!["2".to_string(), "1".to_string(), "3".to_string()];
    let m = zip_hash(&keys, &vals).unwrap();
    let pairs = hash_to_array(&m);
    assert_eq!(
        pairs,
        vec![
            ("a".to_string(), "1".to_string()),
            ("b".to_string(), "2".to_string()),
            ("c".to_string(), "3".to_string()),
        ]
    );
}
