use phonebook::PhoneBook;

#[test]
fn duplicate_name_rejected() {
    let mut book = PhoneBook::new();
    assert!(book.add("Alice".to_string(), "123-456-7890".to_string(), true));
    assert!(!book.add("Alice".to_string(), "987-654-3210".to_string(), false));
    assert_eq!(book.entries.len(), 1);
}

#[test]
fn listed_number_collision() {
    let mut book = PhoneBook::new();
    assert!(book.add("Bob".to_string(), "123-456-7890".to_string(), true));
    assert!(!book.add("Carol".to_string(), "123-456-7890".to_string(), true));
    assert!(book.add("Carol".to_string(), "123-456-7890".to_string(), false));
    assert_eq!(book.entries.len(), 2);
}

#[test]
fn unlisted_entries_are_invisible() {
    let mut book = PhoneBook::new();
    assert!(book.add("Dave".to_string(), "555-123-4567".to_string(), false));
    assert_eq!(book.lookup("Dave"), None);
    assert_eq!(book.lookup_by_num("555-123-4567"), None);
}

#[test]
fn listed_entries_are_found() {
    let mut book = PhoneBook::new();
    assert!(book.add("Erin".to_string(), "555-123-4567".to_string(), true));
    assert_eq!(book.lookup("Erin"), Some("555-123-4567".to_string()));
    assert_eq!(book.lookup_by_num("555-123-4567"), Some("Erin".to_string()));
}

#[test]
fn lookup_missing_name() {
    let mut book = PhoneBook::new();
    assert!(book.add("Erin".to_string(), "555-123-4567".to_string(), true));
    assert_eq!(book.lookup("Frank"), None);
    assert_eq!(book.lookup_by_num("555-999-9999"), None);
}

#[test]
fn earlier_unlisted_entry_shadows_listed_number() {
    // first-match scanning: an unlisted entry inserted before a listed one
    // with the same number makes the number lookup return absence
    let mut book = PhoneBook::new();
    assert!(book.add("Gail".to_string(), "555-123-4567".to_string(), false));
    assert!(book.add("Hank".to_string(), "555-123-4567".to_string(), true));
    assert_eq!(book.lookup_by_num("555-123-4567"), None);
    assert_eq!(book.lookup("Hank"), Some("555-123-4567".to_string()));
}

#[test]
fn names_by_ac_keeps_order_and_unlisted() {
    let mut book = PhoneBook::new();
    assert!(book.add("Alice".to_string(), "212-555-0001".to_string(), true));
    assert!(book.add("Bob".to_string(), "718-555-0002".to_string(), true));
    assert!(book.add("Carol".to_string(), "212-555-0003".to_string(), false));
    assert!(book.add("Dave".to_string(), "212-555-0001".to_string(), false));
    assert_eq!(
        book.names_by_ac("212"),
        vec!["Alice".to_string(), "Carol".to_string(), "Dave".to_string()]
    );
}

#[test]
fn names_by_ac_is_a_plain_prefix_test() {
    let mut book = PhoneBook::new();
    assert!(book.add("Alice".to_string(), "555-123-4567".to_string(), true));
    assert_eq!(book.names_by_ac("555-12"), vec!["Alice".to_string()]);
    assert_eq!(book.names_by_ac("556"), Vec::<String>::new());
}

#[test]
fn number_format_rejections() {
    assert!(!PhoneBook::validate_number("123-45-6789"));
    assert!(!PhoneBook::validate_number("abc-456-7890"));
    assert!(!PhoneBook::validate_number("123-456-789"));
    assert!(!PhoneBook::validate_number("1234567890"));
    assert!(!PhoneBook::validate_number(""));
    assert!(!PhoneBook::validate_number("123--456-7890"));
    assert!(!PhoneBook::validate_number("+23-456-7890"));
    assert!(PhoneBook::validate_number("123-456-7890"));
}

#[test]
fn add_rejects_malformed_numbers() {
    let mut book = PhoneBook::new();
    assert!(!book.add("Ivan".to_string(), "1234567890".to_string(), true));
    assert!(!book.add("Ivan".to_string(), "123-45-6789".to_string(), true));
    assert_eq!(book.entries.len(), 0);
}
