use wordfreq::table::{increment_word, CountTable};

fn fixture() -> CountTable {
    let mut h = CountTable::new();
    h.insert("two".to_owned(), 2);
    h.insert("three".to_owned(), 3);

    assert_eq!(None, h.get("one"));
    assert_eq!(Some(2), h.get("two"));
    assert_eq!(Some(3), h.get("three"));
    assert_eq!(2, h.len());

    h
}

#[test]
fn inserts_if_absent() {
    let mut under_test = fixture();
    let mut expected = fixture();

    increment_word(&mut under_test, "one".to_owned());
    expected.insert("one".to_owned(), 1);

    assert_eq!(expected, under_test);
}

#[test]
fn increments_if_present() {
    let mut under_test = fixture();
    let mut expected = fixture();

    increment_word(&mut under_test, "two".to_owned());
    expected.insert("two".to_owned(), 3);

    assert_eq!(expected, under_test);
}

#[test]
fn inserts_if_empty() {
    let mut under_test = CountTable::new();
    let mut expected = CountTable::new();

    increment_word(&mut under_test, "one".to_owned());
    expected.insert("one".to_owned(), 1);

    assert_eq!(expected, under_test);
}

#[test]
fn same_word_twice_counts_two() {
    let mut t = CountTable::new();
    increment_word(&mut t, "echo".to_owned());
    increment_word(&mut t, "echo".to_owned());

    assert_eq!(Some(2), t.get("echo"));
    assert_eq!(1, t.len());
}

#[test]
fn two_words_count_one_each() {
    let mut t = CountTable::new();
    increment_word(&mut t, "echo".to_owned());
    increment_word(&mut t, "delta".to_owned());

    assert_eq!(Some(1), t.get("echo"));
    assert_eq!(Some(1), t.get("delta"));
    assert_eq!(2, t.len());
}
