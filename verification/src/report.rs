//! The final report: the table's entries ordered by descending
//! count, ties broken by ascending word, each rendered as one
//! `word: count` line.

use vstd::prelude::*;

use crate::lex::{lemma_lex_lt_irreflexive, lemma_lex_lt_transitive, lemma_lex_lt_trichotomy,
    lex_lt, str_lex_lt};
use crate::table::CountTable;
use crate::unicode::push_char;

verus! {

/// The report's order: the larger count first, and among equal
/// counts the lexicographically smaller word first.
pub open spec fn report_before(a: (String, usize), b: (String, usize)) -> bool {
    a.1 > b.1 || (a.1 == b.1 && lex_lt(a.0@, b.0@))
}

/// A run of entries in the report's order.
pub open spec fn report_sorted(s: Seq<(String, usize)>) -> bool {
    forall|i: int, j: int| 0 <= i < j < s.len() ==> report_before(s[i], s[j])
}

proof fn lemma_report_before_transitive(a: (String, usize), b: (String, usize), c: (String, usize))
    requires
        report_before(a, b),
        report_before(b, c),
    ensures
        report_before(a, c),
{
    if a.1 == b.1 && b.1 == c.1 {
        lemma_lex_lt_transitive(a.0@, b.0@, c.0@);
    }
}

proof fn lemma_report_before_asymmetric(a: (String, usize), b: (String, usize))
    ensures
        !(report_before(a, b) && report_before(b, a)),
{
    if report_before(a, b) && report_before(b, a) && a.1 == b.1 {
        lemma_lex_lt_transitive(a.0@, b.0@, a.0@);
        lemma_lex_lt_irreflexive(a.0@);
    }
}

/// The report's order is deterministic: two runs in that order with
/// the same contents are the same run, so the rendered report is
/// pinned by the table alone.
pub proof fn lemma_report_order_unique(s: Seq<(String, usize)>, t: Seq<(String, usize)>)
    requires
        s.to_multiset() == t.to_multiset(),
        report_sorted(s),
        report_sorted(t),
    ensures
        s == t,
    decreases s.len(),
{
    broadcast use vstd::seq_lib::group_to_multiset_ensures;

    assert(s.to_multiset().len() == s.len());
    assert(t.to_multiset().len() == t.len());
    if s.len() == 0 {
        assert(s =~= t);
    } else {
        assert(t.len() == s.len());
        if s[0] != t[0] {
            assert(s.contains(s[0]));
            assert(s.to_multiset().count(s[0]) > 0);
            assert(t.to_multiset().count(s[0]) > 0);
            assert(t.contains(s[0]));
            let i = choose|i: int| 0 <= i < t.len() && t[i] == s[0];
            assert(report_before(t[0], s[0]));
            assert(t.contains(t[0]));
            assert(t.to_multiset().count(t[0]) > 0);
            assert(s.to_multiset().count(t[0]) > 0);
            assert(s.contains(t[0]));
            let j = choose|j: int| 0 <= j < s.len() && s[j] == t[0];
            assert(report_before(s[0], t[0]));
            lemma_report_before_asymmetric(s[0], t[0]);
        }
        assert(s.drop_first() =~= s.remove(0));
        assert(t.drop_first() =~= t.remove(0));
        assert(s.remove(0).to_multiset() == s.to_multiset().remove(s[0]));
        assert(t.remove(0).to_multiset() == t.to_multiset().remove(t[0]));
        assert forall|a: int, b: int|
            0 <= a < b < s.drop_first().len() implies report_before(
            s.drop_first()[a],
            s.drop_first()[b],
        ) by {
            assert(s.drop_first()[a] == s[a + 1] && s.drop_first()[b] == s[b + 1]);
        }
        assert forall|a: int, b: int|
            0 <= a < b < t.drop_first().len() implies report_before(
            t.drop_first()[a],
            t.drop_first()[b],
        ) by {
            assert(t.drop_first()[a] == t[a + 1] && t.drop_first()[b] == t[b + 1]);
        }
        lemma_report_order_unique(s.drop_first(), t.drop_first());
        assert forall|k: int| 0 <= k < s.len() implies s[k] == t[k] by {
            if k >= 1 {
                assert(s[k] == s.drop_first()[k - 1]);
                assert(t[k] == t.drop_first()[k - 1]);
            }
        }
        assert(s =~= t);
    }
}

/// Decides `report_before` on two entries.
fn pair_before(a: &(String, usize), b: &(String, usize)) -> (r: bool)
    ensures
        r == report_before(*a, *b),
{
    if a.1 > b.1 {
        true
    } else if a.1 == b.1 {
        str_lex_lt(a.0.as_str(), b.0.as_str())
    } else {
        false
    }
}

/// The position where `p` belongs in a run already in the report's
/// order, given that `p`'s word is fresh.
fn insert_pos(r: &Vec<(String, usize)>, p: &(String, usize)) -> (pos: usize)
    requires
        report_sorted(r@),
        forall|j: int| 0 <= j < r@.len() ==> r@[j].0@ != p.0@,
    ensures
        pos <= r@.len(),
        forall|j: int| 0 <= j < pos ==> report_before(r@[j], *p),
        pos < r@.len() ==> report_before(*p, r@[pos as int]),
{
    let mut pos: usize = 0;
    while pos < r.len()
        invariant
            pos <= r@.len(),
            forall|j: int| 0 <= j < pos ==> report_before(r@[j], *p),
            forall|j: int| 0 <= j < r@.len() ==> r@[j].0@ != p.0@,
        decreases r@.len() - pos,
    {
        if pair_before(p, &r[pos]) {
            return pos;
        }
        proof {
            lemma_lex_lt_trichotomy(r@[pos as int].0@, p.0@);
        }
        pos += 1;
    }
    pos
}

impl CountTable {
    /// The table's entries, reordered for the report: descending
    /// count, ascending word among equal counts. A stable sort over
    /// the key-ascending entries gives the same order.
    pub fn sorted_entries(&self) -> (r: Vec<(String, usize)>)
        requires
            self.wf(),
        ensures
            r@.to_multiset() == self.entries@.to_multiset(),
            report_sorted(r@),
    {
        let mut r: Vec<(String, usize)> = Vec::new();
        let mut i: usize = 0;
        proof {
            assert(self.entries@.take(0) =~= Seq::<(String, usize)>::empty());
            assert(r@.to_multiset() =~= self.entries@.take(0).to_multiset());
        }
        while i < self.entries.len()
            invariant
                self.wf(),
                i <= self.entries@.len(),
                r@.to_multiset() == self.entries@.take(i as int).to_multiset(),
                report_sorted(r@),
            decreases self.entries@.len() - i,
        {
            let p = (self.entries[i].0.clone(), self.entries[i].1);
            proof {
                broadcast use vstd::seq_lib::group_to_multiset_ensures;

                self.lemma_keys_distinct();
                assert(p == self.entries@[i as int]);
                assert forall|j: int| 0 <= j < r@.len() implies r@[j].0@ != p.0@ by {
                    assert(r@.contains(r@[j]));
                    assert(r@.to_multiset().count(r@[j]) > 0);
                    assert(self.entries@.take(i as int).to_multiset().count(r@[j]) > 0);
                    assert(self.entries@.take(i as int).contains(r@[j]));
                    let k = choose|k: int|
                        0 <= k < i && self.entries@.take(i as int)[k] == r@[j];
                    assert(self.entries@[k] == r@[j]);
                }
            }
            let ghost r0 = r@;
            let pos = insert_pos(&r, &p);
            r.insert(pos, p);
            proof {
                broadcast use vstd::seq_lib::group_to_multiset_ensures;

                assert(r@ == r0.insert(pos as int, p));
                assert(r0.insert(pos as int, p).to_multiset() == r0.to_multiset().insert(p));
                assert(self.entries@.take(i + 1) =~= self.entries@.take(i as int).push(
                    self.entries@[i as int],
                ));
                assert(self.entries@.take(i as int).push(self.entries@[i as int]).to_multiset()
                    == self.entries@.take(i as int).to_multiset().insert(
                    self.entries@[i as int],
                ));
                assert forall|a: int, b: int| 0 <= a < b < r@.len() implies report_before(
                    r@[a],
                    r@[b],
                ) by {
                    if a == pos as int && b > pos as int + 1 {
                        lemma_report_before_transitive(p, r0[pos as int], r0[b - 1]);
                    }
                }
            }
            i += 1;
        }
        proof {
            assert(self.entries@.take(self.entries@.len() as int) =~= self.entries@);
        }
        r
    }

    /// The whole report: one `word: count` line per entry, in the
    /// report's order.
    pub fn report(&self) -> (lines: Vec<String>)
        requires
            self.wf(),
        ensures
            exists|srt: Seq<(String, usize)>| report_renders(self.entries@, srt, lines@),
    {
        let srt = self.sorted_entries();
        let mut lines: Vec<String> = Vec::new();
        let mut k: usize = 0;
        while k < srt.len()
            invariant
                k <= srt@.len(),
                lines@.len() == k,
                forall|j: int|
                    0 <= j < k ==> lines@[j]@ == srt@[j].0@ + ": "@ + dec_of(srt@[j].1 as nat),
            decreases srt@.len() - k,
        {
            let line = render_line(srt[k].0.as_str(), srt[k].1);
            lines.push(line);
            k += 1;
        }
        proof {
            assert(report_renders(self.entries@, srt@, lines@));
        }
        lines
    }
}

/// That `lines` renders `srt`, a reordering of `entries` in the
/// report's order, line by line.
pub open spec fn report_renders(
    entries: Seq<(String, usize)>,
    srt: Seq<(String, usize)>,
    lines: Seq<String>,
) -> bool {
    &&& srt.to_multiset() == entries.to_multiset()
    &&& report_sorted(srt)
    &&& lines.len() == srt.len()
    &&& forall|i: int| 0 <= i < srt.len() ==> lines[i]@ == srt[i].0@ + ": "@ + dec_of(srt[i].1 as nat)
}

/// The decimal digit for a value below ten.
pub open spec fn digit_char(d: nat) -> char {
    if d == 0 {
        '0'
    } else if d == 1 {
        '1'
    } else if d == 2 {
        '2'
    } else if d == 3 {
        '3'
    } else if d == 4 {
        '4'
    } else if d == 5 {
        '5'
    } else if d == 6 {
        '6'
    } else if d == 7 {
        '7'
    } else if d == 8 {
        '8'
    } else {
        '9'
    }
}

/// The decimal rendering of a count, most significant digit first.
pub open spec fn dec_of(n: nat) -> Seq<char>
    decreases n,
{
    if n < 10 {
        seq![digit_char(n)]
    } else {
        dec_of(n / 10).push(digit_char(n % 10))
    }
}

fn digit_to_char(d: usize) -> (c: char)
    requires
        d < 10,
    ensures
        c == digit_char(d as nat),
{
    if d == 0 {
        '0'
    } else if d == 1 {
        '1'
    } else if d == 2 {
        '2'
    } else if d == 3 {
        '3'
    } else if d == 4 {
        '4'
    } else if d == 5 {
        '5'
    } else if d == 6 {
        '6'
    } else if d == 7 {
        '7'
    } else if d == 8 {
        '8'
    } else {
        '9'
    }
}

/// Appends the decimal rendering of `n` to `s`.
fn push_dec(s: &mut String, n: usize)
    ensures
        final(s)@ == old(s)@ + dec_of(n as nat),
    decreases n,
{
    if n < 10 {
        push_char(s, digit_to_char(n));
        proof {
            assert(final(s)@ =~= old(s)@ + dec_of(n as nat));
        }
    } else {
        push_dec(s, n / 10);
        push_char(s, digit_to_char(n % 10));
        proof {
            assert(final(s)@ =~= old(s)@ + dec_of(n as nat));
        }
    }
}

/// Renders one report line, `word: count`.
pub fn render_line(word: &str, count: usize) -> (r: String)
    ensures
        r@ == word@ + ": "@ + dec_of(count as nat),
{
    let mut s = word.to_owned();
    s.append(": ");
    push_dec(&mut s, count);
    proof {
        assert(s@ =~= word@ + ": "@ + dec_of(count as nat));
    }
    s
}

} // verus!
