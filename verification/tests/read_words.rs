use wordfreq::table::CountTable;
use wordfreq::words::read_words;

fn table_of(pairs: &[(&str, usize)]) -> CountTable {
    let mut t = CountTable::new();
    for (w, c) in pairs {
        t.insert((*w).to_owned(), *c);
    }
    t
}

#[test]
fn one_word_per_line() {
    let mut under_test = CountTable::new();
    read_words("Hello\nWorld", &mut under_test);

    let expected = table_of(&[("hello", 1), ("world", 1)]);
    assert_eq!(expected, under_test);
}

#[test]
fn non_alphabetic() {
    let mut under_test = CountTable::new();
    read_words(".....&&*(*&( \n    %$#@Ok!!43424!", &mut under_test);

    // Ok counts as a word: non-alphabetic characters are mere dividers
    // between uncleaned words.
    let expected = table_of(&[("ok", 1)]);
    assert_eq!(expected, under_test);
}

#[test]
fn apostrophes() {
    let mut under_test = CountTable::new();
    read_words("Jesse 'jesse' 'jesse JESSE' '' ''Jesse", &mut under_test);

    // The final ''Jesse does not map to a word: its second apostrophe
    // is neither first, second-to-last nor last.
    let expected = table_of(&[("jesse", 4)]);
    assert_eq!(expected, under_test);
}

#[test]
fn acronymns() {
    let mut under_test = CountTable::new();
    read_words("U.S.A.", &mut under_test);

    let expected = table_of(&[("a", 1)]);
    assert_eq!(expected, under_test);
}

#[test]
fn one_letter_words() {
    let mut under_test = CountTable::new();
    read_words("a\ne\ni\n'o\n'u'", &mut under_test);

    // The letter e is not recorded, but single letters wrapped in
    // apostrophes (like 'o and 'u') are.
    let expected = table_of(&[("a", 1), ("i", 1), ("o", 1), ("u", 1)]);
    assert_eq!(expected, under_test);
}

#[test]
fn single_capital_letter_folds() {
    let mut under_test = CountTable::new();
    read_words("A", &mut under_test);

    let expected = table_of(&[("a", 1)]);
    assert_eq!(expected, under_test);
}

#[test]
fn digits_split_words() {
    let mut under_test = CountTable::new();
    read_words("foo42bar", &mut under_test);

    let expected = table_of(&[("bar", 1), ("foo", 1)]);
    assert_eq!(expected, under_test);
}

#[test]
fn emitted_keys_are_clean() {
    let mut t = CountTable::new();
    read_words("Don't STOP x42y Mixed-CASE", &mut t);

    assert_eq!(t.get("don't"), Some(1));
    assert_eq!(t.get("stop"), Some(1));
    assert_eq!(t.get("mixed"), Some(1));
    assert_eq!(t.get("case"), Some(1));
    assert_eq!(t.len(), 4);
    // every emitted key is lowercase, alphabetic but for at most one
    // apostrophe, and that one second-to-last
    for (word, _) in &t.entries {
        assert!(!word.is_empty());
        let chars: Vec<char> = word.chars().collect();
        let mut apostrophes: usize = 0;
        for (i, c) in chars.iter().enumerate() {
            if *c == '\'' {
                apostrophes += 1;
                assert_eq!(i, chars.len() - 2);
            } else {
                assert!(c.is_alphabetic());
                assert!(c.is_lowercase());
            }
        }
        assert!(apostrophes <= 1);
    }
}
