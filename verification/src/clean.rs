//! Validating and trimming one candidate substring into a countable
//! word.
//!
//! A candidate is a maximal run of non-boundary characters from a
//! line. Cleaning either rejects it or returns the substring that is
//! counted (before case folding): single characters survive only when
//! they fold to `a` or `i`; apostrophes are legal leading (stripped),
//! trailing (stripped), or at the second-to-last position (kept); an
//! apostrophe anywhere else rejects the whole candidate.

use vstd::prelude::*;

use crate::unicode::{char_lower_first, is_alpha, lower_first_of};

verus! {

/// A boundary character separates candidates: anything that is
/// neither alphabetic nor an apostrophe.
pub open spec fn is_boundary(c: char) -> bool {
    !is_alpha(c) && c != '\''
}

/// An apostrophe at a position where the cleaner tolerates none:
/// anywhere but first, second-to-last or last.
pub open spec fn has_bad_apostrophe(w: Seq<char>) -> bool {
    exists|i: int|
        0 <= i < w.len() && w[i] == '\'' && i != 0 && i != w.len() - 2 && i != w.len() - 1
}

/// What cleaning a candidate yields: the counted substring (still in
/// its original case), or nothing when the candidate is rejected.
///
/// A lone apostrophe has no lowercase mapping apart from itself, so
/// the single-character rule can never accept it; the spec says so
/// directly rather than through `lower_first_of`.
pub open spec fn clean_spec(w: Seq<char>) -> Option<Seq<char>> {
    if w.len() == 0 {
        None
    } else if w.len() == 1 {
        if w[0] != '\'' && (lower_first_of(w[0]) == 'a' || lower_first_of(w[0]) == 'i') {
            Some(w)
        } else {
            None
        }
    } else if has_bad_apostrophe(w) {
        None
    } else {
        let lo: int = if w[0] == '\'' {
            1
        } else {
            0
        };
        let hi: int = if w[w.len() - 1] == '\'' {
            w.len() - 1
        } else {
            w.len() as int
        };
        if hi <= lo {
            None
        } else {
            Some(w.subrange(lo, hi))
        }
    }
}

/// The shape every cleaned word has (before case folding): nonempty,
/// nothing but alphabetic characters and apostrophes, at most one
/// apostrophe, and that one only at the second-to-last or the last
/// position.
pub open spec fn cleaned_shape(w: Seq<char>) -> bool {
    &&& w.len() >= 1
    &&& forall|i: int| 0 <= i < w.len() ==> is_alpha(w[i]) || w[i] == '\''
    &&& forall|i: int| 0 <= i < w.len() && w[i] == '\'' ==> i == w.len() - 2 || i == w.len() - 1
    &&& !(w.len() >= 2 && w[w.len() - 2] == '\'' && w[w.len() - 1] == '\'')
}

/// Cleaning a candidate made of non-boundary characters only ever
/// yields a word of the cleaned shape.
pub proof fn lemma_clean_gives_shape(cand: Seq<char>, w: Seq<char>)
    requires
        forall|j: int| 0 <= j < cand.len() ==> !is_boundary(cand[j]),
        clean_spec(cand) == Some(w),
    ensures
        cleaned_shape(w),
{
    let n = cand.len() as int;
    if n == 1 {
        assert(w == cand);
        assert(is_alpha(cand[0]));
    } else {
        let lo: int = if cand[0] == '\'' {
            1
        } else {
            0
        };
        let hi: int = if cand[n - 1] == '\'' {
            n - 1
        } else {
            n
        };
        assert(w == cand.subrange(lo, hi));
        assert(w.len() == hi - lo);
        assert forall|i: int| 0 <= i < w.len() implies is_alpha(w[i]) || w[i] == '\'' by {
            assert(w[i] == cand[lo + i]);
        }
        assert forall|i: int| 0 <= i < w.len() && w[i] == '\'' implies i == w.len() - 2 || i
            == w.len() - 1 by {
            assert(cand[lo + i] == '\'');
            assert(lo + i == 0 || lo + i == n - 2 || lo + i == n - 1);
            assert(lo + i != 0);
            assert(lo + i != n - 1);
        }
        if w.len() >= 2 && w[w.len() - 2] == '\'' && w[w.len() - 1] == '\'' {
            assert(cand[hi - 1] == '\'');
            assert(hi == n - 1);
            assert(cand[hi - 2] == '\'');
            assert(hi - 2 == 0);
            assert(false);
        }
    }
}

/// Under two narrow exclusions, the apostrophe a cleaned word keeps
/// is interior: at the second-to-last position of a word of three or
/// more characters. The exclusions name the candidates whose cleaned
/// word ends or begins with the kept apostrophe instead: those ending
/// in two apostrophes, and the three-character ones beginning with
/// two.
pub proof fn lemma_clean_interior_apostrophe(cand: Seq<char>, w: Seq<char>)
    requires
        forall|j: int| 0 <= j < cand.len() ==> !is_boundary(cand[j]),
        clean_spec(cand) == Some(w),
        !(cand.len() >= 2 && cand[cand.len() - 2] == '\'' && cand[cand.len() - 1] == '\''),
        !(cand.len() == 3 && cand[0] == '\'' && cand[1] == '\''),
    ensures
        forall|i: int| 0 <= i < w.len() && w[i] == '\'' ==> 3 <= w.len() && i == w.len() - 2,
{
    let n = cand.len() as int;
    if n == 1 {
        assert(w == cand);
        assert(w[0] != '\'');
    } else {
        let lo: int = if cand[0] == '\'' {
            1
        } else {
            0
        };
        let hi: int = if cand[n - 1] == '\'' {
            n - 1
        } else {
            n
        };
        assert(w == cand.subrange(lo, hi));
        assert forall|i: int| 0 <= i < w.len() && w[i] == '\'' implies 3 <= w.len() && i
            == w.len() - 2 by {
            assert(cand[lo + i] == '\'');
            assert(lo + i != 0);
            assert(lo + i != n - 1);
            assert(lo + i == n - 2);
            assert(hi == n);
            assert(i == w.len() - 2);
            if i == 0 {
                assert(lo == n - 2);
                if lo == 0 {
                    assert(cand[0] == '\'');
                    assert(false);
                } else {
                    assert(n == 3 && cand[0] == '\'' && cand[1] == '\'');
                    assert(false);
                }
            }
        }
    }
}

/// Cleaning is idempotent: a cleaned word, handed back to the
/// cleaner, comes through unchanged. The exclusions of
/// `lemma_clean_interior_apostrophe` apply, and a single-letter
/// result must be one the single-character rule accepts.
pub proof fn lemma_clean_idempotent(cand: Seq<char>, w: Seq<char>)
    requires
        forall|j: int| 0 <= j < cand.len() ==> !is_boundary(cand[j]),
        clean_spec(cand) == Some(w),
        !(cand.len() >= 2 && cand[cand.len() - 2] == '\'' && cand[cand.len() - 1] == '\''),
        !(cand.len() == 3 && cand[0] == '\'' && cand[1] == '\''),
        w.len() == 1 ==> lower_first_of(w[0]) == 'a' || lower_first_of(w[0]) == 'i',
    ensures
        clean_spec(w) == Some(w),
{
    lemma_clean_gives_shape(cand, w);
    lemma_clean_interior_apostrophe(cand, w);
    if w.len() == 1 {
        assert(w[0] != '\'');
        assert(clean_spec(w) == Some(w));
    } else {
        assert(!has_bad_apostrophe(w));
        assert(w[0] != '\'');
        assert(w[w.len() - 1] != '\'');
        assert(w.subrange(0, w.len() as int) =~= w);
    }
}

/// Cleans one candidate substring: returns the substring that is to
/// be counted, or `None` when the candidate is rejected.
pub fn clean_word(word: &str) -> (r: Option<&str>)
    ensures
        match r {
            Some(c) => clean_spec(word@) == Some(c@),
            None => clean_spec(word@) is None,
        },
{
    let n: usize = word.unicode_len();
    if n == 0 {
        return None;
    }
    if n == 1 {
        let c = word.get_char(0);
        if c != '\'' {
            let lc = char_lower_first(c);
            if lc == 'a' || lc == 'i' {
                return Some(word);
            }
        }
        return None;
    }
    let mut leading = false;
    let mut trailing = false;
    let mut i: usize = 0;
    while i < n
        invariant
            2 <= n,
            i <= n,
            n == word@.len(),
            leading == (i > 0 && word@[0] == '\''),
            trailing == (i == n && word@[n - 1] == '\''),
            forall|j: int|
                0 <= j < i ==> !(word@[j] == '\'' && j != 0 && j != n - 2 && j != n - 1),
        decreases n - i,
    {
        let c = word.get_char(i);
        if c == '\'' {
            if i == 0 {
                leading = true;
            } else if i == n - 2 {
                // a legal internal apostrophe: kept
            } else if i == n - 1 {
                trailing = true;
            } else {
                proof {
                    assert(has_bad_apostrophe(word@));
                }
                return None;
            }
        }
        i += 1;
    }
    proof {
        assert(!has_bad_apostrophe(word@));
    }
    if leading && trailing && n == 2 {
        return None;
    }
    let lo: usize = if leading {
        1
    } else {
        0
    };
    let hi: usize = if trailing {
        n - 1
    } else {
        n
    };
    if lo == 0 && hi == n {
        proof {
            assert(word@.subrange(0, n as int) =~= word@);
        }
        Some(word)
    } else {
        Some(word.substring_char(lo, hi))
    }
}

} // verus!
