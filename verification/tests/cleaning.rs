use wordfreq::clean::clean_word;

#[test]
fn strips_surrounding_apostrophes() {
    assert_eq!(Some("jesse"), clean_word("'jesse'"));
    assert_eq!(Some("jesse"), clean_word("'jesse"));
    assert_eq!(Some("jesse"), clean_word("jesse'"));
    assert_eq!(Some("JESSE"), clean_word("JESSE"));
}

#[test]
fn keeps_second_to_last_apostrophe() {
    assert_eq!(Some("don't"), clean_word("don't"));
    assert_eq!(Some("dogs'"), clean_word("dogs''"));
}

#[test]
fn rejects_misplaced_apostrophes() {
    assert_eq!(None, clean_word("o'clock"));
    assert_eq!(None, clean_word("''Jesse"));
    assert_eq!(None, clean_word("te'st"));
}

#[test]
fn rejects_empty_and_bare_apostrophes() {
    assert_eq!(None, clean_word(""));
    assert_eq!(None, clean_word("'"));
    assert_eq!(None, clean_word("''"));
}

#[test]
fn single_letters_need_a_or_i() {
    assert_eq!(Some("a"), clean_word("a"));
    assert_eq!(Some("i"), clean_word("i"));
    assert_eq!(Some("A"), clean_word("A"));
    assert_eq!(Some("I"), clean_word("I"));
    assert_eq!(None, clean_word("e"));
    assert_eq!(None, clean_word("w"));
    assert_eq!(Some("w"), clean_word("'w"));
}

#[test]
fn cleaning_is_idempotent_on_cleaned_words() {
    // "'w" is left out: it cleans to "w", which the single-letter rule
    // then rejects, one of the edges the idempotence law excludes.
    for cand in ["'jesse'", "don't", "Hello", "a"] {
        let once = clean_word(cand).unwrap();
        assert_eq!(Some(once), clean_word(once));
    }
}
