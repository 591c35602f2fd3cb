use phonebook::PhoneBook;

#[test]
fn add_and_duplicate_name() {
    let mut book = PhoneBook::new();
    assert!(book.add("Alice".to_string(), "123-456-7890".to_string(), true));
    assert!(!book.add("Alice".to_string(), "000-000-0000".to_string(), false));
}

#[test]
fn malformed_segment_length() {
    let mut book = PhoneBook::new();
    assert!(!book.add("Bob".to_string(), "123-45-6789".to_string(), true));
}

#[test]
fn malformed_numbers_all_rejected() {
    let mut book = PhoneBook::new();
    assert!(!book.add("A".to_string(), "1234567890".to_string(), true));
    assert!(!book.add("B".to_string(), "123-456-789".to_string(), true));
    assert!(!book.add("C".to_string(), "123-456-78901".to_string(), false));
    assert!(!book.add("D".to_string(), "abc-def-ghij".to_string(), true));
    assert!(!book.add("E".to_string(), "123-456-78 0".to_string(), false));
    assert!(!book.add("F".to_string(), "123-4567890".to_string(), true));
    assert!(!book.add("G".to_string(), "123-456-7890-".to_string(), true));
    assert!(!book.add("H".to_string(), "-123-456-7890".to_string(), true));
    assert!(!book.add("I".to_string(), "".to_string(), true));
    assert!(!book.add("J".to_string(), "123+456+7890".to_string(), false));
    // after all rejections the book is still empty: any valid add works
    assert!(book.add("K".to_string(), "123-456-7890".to_string(), true));
}

#[test]
fn listed_number_exclusivity() {
    let mut book = PhoneBook::new();
    assert!(book.add("Carol".to_string(), "123-456-7890".to_string(), true));
    assert!(!book.add("Dave".to_string(), "123-456-7890".to_string(), true));
    assert!(book.add("Dave".to_string(), "123-456-7890".to_string(), false));
}

#[test]
fn many_unlisted_duplicates_allowed() {
    let mut book = PhoneBook::new();
    assert!(book.add("U1".to_string(), "555-123-4567".to_string(), false));
    assert!(book.add("U2".to_string(), "555-123-4567".to_string(), false));
    assert!(book.add("U3".to_string(), "555-123-4567".to_string(), false));
    // the number is still free to be listed once
    assert!(book.add("L1".to_string(), "555-123-4567".to_string(), true));
    assert!(!book.add("L2".to_string(), "555-123-4567".to_string(), true));
}

#[test]
fn lookup_listed_and_unlisted() {
    let mut book = PhoneBook::new();
    assert!(book.add("Carol".to_string(), "123-456-7890".to_string(), true));
    assert!(!book.add("Dave".to_string(), "123-456-7890".to_string(), true));
    assert!(book.add("Dave".to_string(), "123-456-7890".to_string(), false));
    assert_eq!(book.lookup("Dave"), None);
    assert_eq!(book.lookup("Carol"), Some("123-456-7890".to_string()));
    assert_eq!(book.lookup("Eve"), None);
}

#[test]
fn lookup_by_num_prefers_the_listed_entry() {
    let mut book = PhoneBook::new();
    assert!(book.add("Carol".to_string(), "123-456-7890".to_string(), true));
    assert!(book.add("Dave".to_string(), "123-456-7890".to_string(), false));
    assert_eq!(
        book.lookup_by_num("123-456-7890"),
        Some("Carol".to_string())
    );
    assert_eq!(book.lookup_by_num("999-999-9999"), None);
}

#[test]
fn lookup_by_num_skips_unlisted() {
    let mut book = PhoneBook::new();
    assert!(book.add("Dave".to_string(), "123-456-7890".to_string(), false));
    assert_eq!(book.lookup_by_num("123-456-7890"), None);
}

#[test]
fn names_by_ac_insertion_order() {
    let mut book = PhoneBook::new();
    assert!(book.add("Carol".to_string(), "123-456-7890".to_string(), true));
    assert!(book.add("Dave".to_string(), "123-456-7890".to_string(), false));
    assert_eq!(
        book.names_by_ac("123"),
        vec!["Carol".to_string(), "Dave".to_string()]
    );
}

#[test]
fn names_by_ac_mixed_and_nonmatching() {
    let mut book = PhoneBook::new();
    assert!(book.add("A".to_string(), "206-111-2222".to_string(), true));
    assert!(book.add("B".to_string(), "425-111-2222".to_string(), false));
    assert!(book.add("C".to_string(), "206-333-4444".to_string(), false));
    assert_eq!(
        book.names_by_ac("206"),
        vec!["A".to_string(), "C".to_string()]
    );
    assert_eq!(book.names_by_ac("425"), vec!["B".to_string()]);
    assert_eq!(book.names_by_ac("999"), Vec::<String>::new());
    // a malformed area code string simply matches nothing
    assert_eq!(book.names_by_ac("206-"), Vec::<String>::new());
    assert_eq!(book.names_by_ac(""), Vec::<String>::new());
}

#[test]
fn empty_name_is_a_legal_distinct_name() {
    let mut book = PhoneBook::new();
    assert!(book.add(String::new(), "111-222-3333".to_string(), true));
    assert!(!book.add(String::new(), "444-555-6666".to_string(), false));
    assert_eq!(book.lookup(""), Some("111-222-3333".to_string()));
}

#[test]
fn rejected_add_changes_nothing() {
    let mut book = PhoneBook::new();
    assert!(book.add("Carol".to_string(), "123-456-7890".to_string(), true));
    assert!(!book.add("Dave".to_string(), "123-456-7890".to_string(), true));
    assert!(!book.add("Carol".to_string(), "123-456-0000".to_string(), false));
    assert!(!book.add("Erin".to_string(), "123-456".to_string(), false));
    assert_eq!(book.names_by_ac("123"), vec!["Carol".to_string()]);
    assert_eq!(book.lookup("Dave"), None);
    assert_eq!(book.lookup("Erin"), None);
    assert_eq!(book.lookup("Carol"), Some("123-456-7890".to_string()));
}

#[test]
fn empty_book_answers_nothing() {
    let book = PhoneBook::new();
    assert_eq!(book.lookup("anyone"), None);
    assert_eq!(book.lookup_by_num("123-456-7890"), None);
    assert_eq!(book.names_by_ac("123"), Vec::<String>::new());
}
