//! Splitting text into candidates and accumulating the cleaned,
//! case-folded words into the frequency table.

use vstd::prelude::*;

use crate::clean::{clean_spec, clean_word, cleaned_shape, is_boundary, lemma_clean_gives_shape};
use crate::table::{bump, increment_word, CountTable};
use crate::unicode::{char_is_alphabetic, lower_of, str_to_lowercase};

verus! {

/// The words a finished candidate contributes: the lowercase fold of
/// its cleaned form, or nothing when it is rejected.
pub open spec fn emitted(cur: Seq<char>) -> Seq<Seq<char>> {
    match clean_spec(cur) {
        Some(w) => seq![lower_of(w)],
        None => Seq::empty(),
    }
}

/// The words emitted while scanning `s` with `cur` as the candidate
/// accumulated so far: every boundary character finishes a candidate,
/// and the end of the text finishes the last one.
pub open spec fn words_from(s: Seq<char>, cur: Seq<char>) -> Seq<Seq<char>>
    decreases s.len(),
{
    if s.len() == 0 {
        emitted(cur)
    } else if is_boundary(s[0]) {
        emitted(cur) + words_from(s.drop_first(), Seq::empty())
    } else {
        words_from(s.drop_first(), cur.push(s[0]))
    }
}

/// All words emitted from a text, in order.
pub open spec fn words_in(s: Seq<char>) -> Seq<Seq<char>> {
    words_from(s, Seq::empty())
}

/// The table after counting each word of `ws` in turn.
pub open spec fn bump_all(m: Map<Seq<char>, nat>, ws: Seq<Seq<char>>) -> Map<Seq<char>, nat>
    decreases ws.len(),
{
    if ws.len() == 0 {
        m
    } else {
        bump_all(bump(m, ws[0]), ws.drop_first())
    }
}

/// A scan cannot emit more words than it has characters left, plus
/// the candidate already in hand.
pub proof fn lemma_words_from_len(s: Seq<char>, cur: Seq<char>)
    ensures
        words_from(s, cur).len() <= s.len() + 1,
    decreases s.len(),
{
    if s.len() > 0 {
        if is_boundary(s[0]) {
            lemma_words_from_len(s.drop_first(), Seq::empty());
        } else {
            lemma_words_from_len(s.drop_first(), cur.push(s[0]));
        }
    }
}

/// Counting a run of words touches exactly the keys it contains,
/// raises no count by more than the run's length, and never lowers
/// one: counts only grow while words accumulate.
pub proof fn lemma_bump_all_bound(m: Map<Seq<char>, nat>, ws: Seq<Seq<char>>, k: Seq<char>)
    ensures
        bump_all(m, ws).contains_key(k) <==> (m.contains_key(k) || ws.contains(k)),
        bump_all(m, ws).contains_key(k) ==> bump_all(m, ws)[k] <= (if m.contains_key(k) {
            m[k]
        } else {
            0nat
        }) + ws.len(),
        m.contains_key(k) ==> m[k] <= bump_all(m, ws)[k],
    decreases ws.len(),
{
    if ws.len() > 0 {
        lemma_bump_all_bound(bump(m, ws[0]), ws.drop_first(), k);
        assert(ws.contains(k) <==> (k == ws[0] || ws.drop_first().contains(k))) by {
            if ws.contains(k) {
                let i = choose|i: int| 0 <= i < ws.len() && ws[i] == k;
                if i > 0 {
                    assert(ws.drop_first()[i - 1] == k);
                }
            }
            if ws.drop_first().contains(k) {
                let i = choose|i: int| 0 <= i < ws.drop_first().len() && ws.drop_first()[i] == k;
                assert(ws[i + 1] == k);
            }
        }
    }
}

/// Scanning from a boundary character finishes the candidate in hand
/// and goes on with an empty one.
pub proof fn lemma_words_from_boundary(s: Seq<char>, i: int, cur: Seq<char>)
    requires
        0 <= i < s.len(),
        is_boundary(s[i]),
    ensures
        words_from(s.skip(i), cur) == emitted(cur) + words_from(s.skip(i + 1), Seq::empty()),
{
    assert(s.skip(i)[0] == s[i]);
    assert(s.skip(i).drop_first() =~= s.skip(i + 1));
}

/// Scanning from a non-boundary character extends the candidate in
/// hand.
pub proof fn lemma_words_from_letter(s: Seq<char>, i: int, cur: Seq<char>)
    requires
        0 <= i < s.len(),
        !is_boundary(s[i]),
    ensures
        words_from(s.skip(i), cur) == words_from(s.skip(i + 1), cur.push(s[i])),
{
    assert(s.skip(i)[0] == s[i]);
    assert(s.skip(i).drop_first() =~= s.skip(i + 1));
}

/// Every word a scan emits is the lowercase fold of some word of the
/// cleaned shape.
pub proof fn lemma_words_from_elements(s: Seq<char>, cur: Seq<char>, e: Seq<char>)
    requires
        forall|j: int| 0 <= j < cur.len() ==> !is_boundary(cur[j]),
        words_from(s, cur).contains(e),
    ensures
        exists|w: Seq<char>| cleaned_shape(w) && e == lower_of(w),
    decreases s.len(),
{
    if s.len() == 0 {
        if clean_spec(cur) is Some {
            let w = clean_spec(cur)->Some_0;
            lemma_clean_gives_shape(cur, w);
            assert(emitted(cur)[0] == lower_of(w));
            assert(cleaned_shape(w) && e == lower_of(w));
        } else {
            assert(false);
        }
    } else if is_boundary(s[0]) {
        let rest = words_from(s.drop_first(), Seq::empty());
        if emitted(cur).contains(e) {
            lemma_words_from_elements(Seq::empty(), cur, e);
        } else {
            assert(rest.contains(e)) by {
                let i = choose|i: int|
                    0 <= i < words_from(s, cur).len() && words_from(s, cur)[i] == e;
                assert(words_from(s, cur)[i] == (emitted(cur) + rest)[i]);
                if i >= emitted(cur).len() {
                    assert(rest[i - emitted(cur).len()] == e);
                } else {
                    assert(emitted(cur)[i] == e);
                }
            }
            lemma_words_from_elements(s.drop_first(), Seq::empty(), e);
        }
    } else {
        lemma_words_from_elements(s.drop_first(), cur.push(s[0]), e);
    }
}

/// Every key of a table accumulated from empty is the lowercase fold
/// of a word of the cleaned shape: nonempty, alphabetic characters
/// and at most one apostrophe, that one only second-to-last or last.
pub proof fn lemma_emitted_keys_shape(text: Seq<char>, k: Seq<char>)
    requires
        bump_all(Map::<Seq<char>, nat>::empty(), words_in(text)).contains_key(k),
    ensures
        exists|w: Seq<char>| cleaned_shape(w) && k == lower_of(w),
{
    lemma_bump_all_bound(Map::<Seq<char>, nat>::empty(), words_in(text), k);
    lemma_words_from_elements(text, Seq::empty(), k);
}

/// Splits the text at every boundary character, cleans each candidate
/// and counts every surviving word, folded to lowercase, into the
/// table. The length bounds keep every count clear of overflow: a
/// text cannot hold more words than characters.
pub fn read_words(text: &str, map: &mut CountTable)
    requires
        old(map).wf(),
        text@.len() < usize::MAX,
        forall|k: Seq<char>|
            old(map)@.contains_key(k) ==> old(map)@[k] + text@.len() < usize::MAX,
    ensures
        final(map).wf(),
        final(map)@ == bump_all(old(map)@, words_in(text@)),
{
    let n: usize = text.unicode_len();
    proof {
        lemma_words_from_len(text@, Seq::empty());
        assert(text@.skip(0) =~= text@);
        assert(text@.subrange(0, 0) =~= Seq::<char>::empty());
    }
    let mut i: usize = 0;
    let mut start: usize = 0;
    while i < n
        invariant
            map.wf(),
            i <= n,
            start <= i,
            n == text@.len(),
            n < usize::MAX,
            bump_all(
                map@,
                words_from(text@.skip(i as int), text@.subrange(start as int, i as int)),
            ) == bump_all(old(map)@, words_in(text@)),
            forall|k: Seq<char>|
                map@.contains_key(k) ==> map@[k] + words_from(
                    text@.skip(i as int),
                    text@.subrange(start as int, i as int),
                ).len() <= usize::MAX,
        decreases n - i,
    {
        let ghost cur = text@.subrange(start as int, i as int);
        let c = text.get_char(i);
        let alphabetic = char_is_alphabetic(c);
        if !alphabetic && c != '\'' {
            proof {
                lemma_words_from_boundary(text@, i as int, cur);
                lemma_words_from_len(text@.skip(i + 1), Seq::empty());
            }
            let cand = text.substring_char(start, i);
            let ghost rest = words_from(text@.skip(i + 1), Seq::<char>::empty());
            match clean_word(cand) {
                Some(cleaned) => {
                    let lw = str_to_lowercase(cleaned);
                    proof {
                        assert(emitted(cur) =~= seq![lw@]);
                        assert((seq![lw@] + rest)[0] == lw@);
                        assert((seq![lw@] + rest).drop_first() =~= rest);
                        assert(bump_all(map@, seq![lw@] + rest) == bump_all(
                            bump(map@, lw@),
                            rest,
                        ));
                    }
                    increment_word(map, lw);
                }
                None => {
                    proof {
                        assert(emitted(cur) =~= Seq::<Seq<char>>::empty());
                        assert(emitted(cur) + rest =~= rest);
                    }
                }
            }
            start = i + 1;
            proof {
                assert(text@.subrange(start as int, start as int) =~= Seq::<char>::empty());
            }
        } else {
            proof {
                lemma_words_from_letter(text@, i as int, cur);
                assert(text@.subrange(start as int, i + 1) =~= cur.push(text@[i as int]));
            }
        }
        i += 1;
    }
    proof {
        assert(text@.skip(n as int) =~= Seq::<char>::empty());
    }
    let cand = text.substring_char(start, n);
    match clean_word(cand) {
        Some(cleaned) => {
            let lw = str_to_lowercase(cleaned);
            proof {
                let cur = text@.subrange(start as int, n as int);
                assert(words_from(Seq::<char>::empty(), cur) == emitted(cur));
                assert(emitted(cur) =~= seq![lw@]);
                assert(bump_all(map@, seq![lw@]) == bump(map@, lw@)) by {
                    assert(seq![lw@].drop_first() =~= Seq::<Seq<char>>::empty());
                    assert(bump_all(map@, seq![lw@]) == bump_all(
                        bump(map@, lw@),
                        Seq::<Seq<char>>::empty(),
                    ));
                    assert(bump_all(bump(map@, lw@), Seq::<Seq<char>>::empty()) == bump(
                        map@,
                        lw@,
                    ));
                }
            }
            increment_word(map, lw);
        }
        None => {
            proof {
                let cur = text@.subrange(start as int, n as int);
                assert(words_from(Seq::<char>::empty(), cur) == emitted(cur));
                assert(emitted(cur) =~= Seq::<Seq<char>>::empty());
            }
        }
    }
}

} // verus!
