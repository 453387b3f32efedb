use wordfreq::report::render_line;
use wordfreq::table::CountTable;
use wordfreq::words::read_words;

fn assert_lines(t: &CountTable, expected: &[&str]) {
    let got = t.report();
    let got: Vec<&str> = got.iter().map(|s| s.as_str()).collect();
    assert_eq!(expected, got.as_slice());
}

#[test]
fn orders_by_count_then_word() {
    let mut t = CountTable::new();
    t.insert("b".to_owned(), 3);
    t.insert("a".to_owned(), 3);
    t.insert("c".to_owned(), 1);

    let sorted = t.sorted_entries();
    let pairs: Vec<(&str, usize)> = sorted.iter().map(|p| (p.0.as_str(), p.1)).collect();
    assert_eq!(vec![("a", 3), ("b", 3), ("c", 1)], pairs);
    assert_lines(&t, &["a: 3", "b: 3", "c: 1"]);
}

#[test]
fn orders_many_counts() {
    let mut t = CountTable::new();
    t.insert("z".to_owned(), 5);
    t.insert("aa".to_owned(), 2);
    t.insert("b".to_owned(), 2);
    t.insert("x".to_owned(), 7);

    assert_lines(&t, &["x: 7", "z: 5", "aa: 2", "b: 2"]);
}

#[test]
fn renders_counts_in_decimal() {
    assert_eq!("x: 0", render_line("x", 0));
    assert_eq!("x: 7", render_line("x", 7));
    assert_eq!("word: 12", render_line("word", 12));
    assert_eq!("word: 1234567890", render_line("word", 1234567890));
}

#[test]
fn scenario_two_lines() {
    let mut t = CountTable::new();
    read_words("Hello\nWorld", &mut t);
    assert_lines(&t, &["hello: 1", "world: 1"]);
}

#[test]
fn scenario_punctuation_noise() {
    let mut t = CountTable::new();
    read_words(".....&&*(*&(\n    %$#@Ok!!43424!", &mut t);
    assert_lines(&t, &["ok: 1"]);
}

#[test]
fn scenario_apostrophe_forms() {
    let mut t = CountTable::new();
    read_words("Jesse 'jesse' 'jesse JESSE' '' ''Jesse", &mut t);
    assert_lines(&t, &["jesse: 4"]);
}

#[test]
fn scenario_dotted_acronym() {
    let mut t = CountTable::new();
    read_words("U.S.A.", &mut t);
    assert_lines(&t, &["a: 1"]);
}

#[test]
fn scenario_single_letters() {
    let mut t = CountTable::new();
    read_words("a\ne\ni\n'o\n'u'", &mut t);
    assert_lines(&t, &["a: 1", "i: 1", "o: 1", "u: 1"]);
}
