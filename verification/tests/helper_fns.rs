use parmap::helpers::{
    cmp_vec, compute_hash_value, is_matched, random_hash, validate_hash, DIGIT_WEIGHT, FALLBACK,
    MATCH,
};

#[test]
fn cmp_vec_of_equal_vectors() {
    assert!(cmp_vec(&vec![1, 2, 3], &vec![1, 2, 3]));
    assert!(cmp_vec(&Vec::<u8>::new(), &Vec::<u8>::new()));
    assert!(cmp_vec(&vec![String::from("x")], &vec![String::from("x")]));
}

#[test]
fn cmp_vec_of_different_elements() {
    assert!(!cmp_vec(&vec![1, 2, 3], &vec![1, 2, 4]));
    assert!(!cmp_vec(&vec![0, 2, 3], &vec![1, 2, 3]));
    assert!(!cmp_vec(&vec![3, 2, 1], &vec![1, 2, 3]));
}

#[test]
fn cmp_vec_of_different_lengths() {
    assert!(!cmp_vec(&vec![1, 2, 3], &vec![1, 2]));
    assert!(!cmp_vec(&vec![1, 2], &vec![1, 2, 3]));
    assert!(!cmp_vec(&vec![1], &Vec::new()));
    assert!(!cmp_vec(&Vec::new(), &vec![1]));
}

#[test]
fn hash_value_of_nothing_is_zero() {
    assert_eq!(compute_hash_value(String::new()), 0);
}

#[test]
fn hash_value_of_hex_digits() {
    assert_eq!(DIGIT_WEIGHT, 996);
    assert_eq!(compute_hash_value(String::from("0")), 0);
    assert_eq!(compute_hash_value(String::from("1")), 996);
    assert_eq!(compute_hash_value(String::from("9")), 8964);
    assert_eq!(compute_hash_value(String::from("a")), 9960);
    assert_eq!(compute_hash_value(String::from("A")), 9960);
    assert_eq!(compute_hash_value(String::from("f")), 14940);
    assert_eq!(compute_hash_value(String::from("F")), 14940);
}

#[test]
fn hash_value_of_other_characters_is_the_fallback() {
    assert_eq!(FALLBACK, 16);
    assert_eq!(compute_hash_value(String::from("g")), 16);
    assert_eq!(compute_hash_value(String::from("G")), 16);
    assert_eq!(compute_hash_value(String::from("z")), 16);
    assert_eq!(compute_hash_value(String::from(" ")), 16);
    assert_eq!(compute_hash_value(String::from("/")), 16);
    assert_eq!(compute_hash_value(String::from(":")), 16);
    assert_eq!(compute_hash_value(String::from("é")), 16);
}

#[test]
fn hash_value_is_the_sum_over_the_characters() {
    assert_eq!(compute_hash_value(String::from("fz")), 14956);
    assert_eq!(compute_hash_value(String::from("A1z")), 10972);
    assert_eq!(compute_hash_value(String::from("zzzz")), 64);
    assert_eq!(compute_hash_value(String::from("ff").repeat(1000)), 29_880_000);
}

#[test]
fn valid_hashes_have_a_value_divisible_by_three() {
    assert!(validate_hash(String::new()));
    assert!(validate_hash(String::from("a")));
    assert!(validate_hash(String::from("0123456789abcdefABCDEF")));
    assert!(validate_hash(String::from("xyz")));
    assert!(validate_hash(String::from("x1y2z3")));
}

#[test]
fn other_hashes_are_not_valid() {
    assert!(!validate_hash(String::from("z")));
    assert!(!validate_hash(String::from("zz")));
    assert!(!validate_hash(String::from("fz")));
    assert!(!validate_hash(String::from("wxyz")));
}

#[test]
fn is_matched_knows_its_word() {
    assert_eq!(MATCH, "That");
    assert_eq!(is_matched(String::from("That")), 1);
}

#[test]
fn is_matched_rejects_other_words() {
    assert_eq!(is_matched(String::from("that")), 0);
    assert_eq!(is_matched(String::from("THAT")), 0);
    assert_eq!(is_matched(String::from("That ")), 0);
    assert_eq!(is_matched(String::from("Tha")), 0);
    assert_eq!(is_matched(String::from("This")), 0);
    assert_eq!(is_matched(String::new()), 0);
}

#[test]
fn random_hash_has_the_length_asked_for() {
    for len in [0usize, 1, 2, 15, 20, 25, 30, 500] {
        assert_eq!(random_hash(len).chars().count(), len);
        assert_eq!(random_hash(len).len(), len);
    }
}

#[test]
fn random_hash_holds_letters_and_digits_only() {
    let hash = random_hash(4000);
    assert!(hash.chars().all(|c| c.is_ascii_alphanumeric()));
}

#[test]
fn random_hashes_differ() {
    assert_ne!(random_hash(64), random_hash(64));
}

#[test]
fn random_hash_can_be_validated() {
    for len in [0usize, 7, 100] {
        let hash = random_hash(len);
        let not_hex = hash.chars().filter(|c| !c.is_ascii_hexdigit()).count();
        assert_eq!(validate_hash(hash), not_hex % 3 == 0);
    }
}
