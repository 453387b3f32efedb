//! The frequency table: a mapping from cleaned word to occurrence
//! count, kept sorted by key so that iteration walks the words in
//! ascending order, as an ordered map over `String` keys would.

use vstd::prelude::*;

use crate::lex::{lemma_lex_lt_irreflexive, lemma_lex_lt_transitive, lemma_lex_lt_trichotomy,
    lex_lt, str_eq, str_lex_lt};

verus! {

/// The mathematical content of a run of entries: word to count, later
/// entries winning when a key repeats (a well-formed table has no
/// repeats).
pub open spec fn table_map(es: Seq<(String, usize)>) -> Map<Seq<char>, nat>
    decreases es.len(),
{
    if es.len() == 0 {
        Map::empty()
    } else {
        table_map(es.drop_last()).insert(es.last().0@, es.last().1 as nat)
    }
}

/// One increment-or-insert step on the mathematical table.
pub open spec fn bump(m: Map<Seq<char>, nat>, k: Seq<char>) -> Map<Seq<char>, nat> {
    m.insert(
        k,
        if m.contains_key(k) {
            (m[k] + 1) as nat
        } else {
            1nat
        },
    )
}

/// The frequency table, an ordered mapping from cleaned word to
/// occurrence count. Entries are strictly sorted by key.
#[derive(Debug, PartialEq, Eq)]
pub struct CountTable {
    pub entries: Vec<(String, usize)>,
}

impl View for CountTable {
    type V = Map<Seq<char>, nat>;

    open spec fn view(&self) -> Map<Seq<char>, nat> {
        table_map(self.entries@)
    }
}

pub proof fn lemma_table_map_domain(es: Seq<(String, usize)>, k: Seq<char>)
    ensures
        table_map(es).contains_key(k) <==> exists|i: int| 0 <= i < es.len() && es[i].0@ == k,
    decreases es.len(),
{
    if es.len() > 0 {
        lemma_table_map_domain(es.drop_last(), k);
        if table_map(es).contains_key(k) {
            if es.last().0@ != k {
                let i = choose|i: int| 0 <= i < es.drop_last().len() && es.drop_last()[i].0@ == k;
                assert(es[i].0@ == k);
            } else {
                assert(es[es.len() - 1].0@ == k);
            }
        }
        if exists|i: int| 0 <= i < es.len() && es[i].0@ == k {
            let i = choose|i: int| 0 <= i < es.len() && es[i].0@ == k;
            if i < es.len() - 1 {
                assert(es.drop_last()[i].0@ == k);
            }
        }
    }
}

pub proof fn lemma_table_map_value(es: Seq<(String, usize)>, i: int)
    requires
        0 <= i < es.len(),
        forall|j: int| i < j < es.len() ==> es[j].0@ != es[i].0@,
    ensures
        table_map(es).contains_key(es[i].0@),
        table_map(es)[es[i].0@] == es[i].1 as nat,
    decreases es.len(),
{
    lemma_table_map_domain(es, es[i].0@);
    if i < es.len() - 1 {
        lemma_table_map_value(es.drop_last(), i);
    }
}

/// Replacing the entry at `i` by one with the same key updates the
/// mathematical table at that key alone.
pub proof fn lemma_table_map_update(es: Seq<(String, usize)>, i: int, p: (String, usize))
    requires
        0 <= i < es.len(),
        p.0@ == es[i].0@,
        forall|j: int| 0 <= j < es.len() && j != i ==> es[j].0@ != es[i].0@,
    ensures
        table_map(es.update(i, p)) == table_map(es).insert(p.0@, p.1 as nat),
    decreases es.len(),
{
    let es2 = es.update(i, p);
    if i == es.len() - 1 {
        assert(es2.drop_last() =~= es.drop_last());
        assert(table_map(es2) == table_map(es.drop_last()).insert(p.0@, p.1 as nat));
        assert(table_map(es).insert(p.0@, p.1 as nat) == table_map(es.drop_last()).insert(
            es.last().0@,
            es.last().1 as nat,
        ).insert(p.0@, p.1 as nat));
        assert(table_map(es.drop_last()).insert(p.0@, p.1 as nat) =~= table_map(
            es.drop_last(),
        ).insert(es.last().0@, es.last().1 as nat).insert(p.0@, p.1 as nat));
    } else {
        assert(es2.drop_last() =~= es.drop_last().update(i, p));
        assert(es2.last() == es.last());
        lemma_table_map_update(es.drop_last(), i, p);
        assert(table_map(es2) == table_map(es.drop_last()).insert(p.0@, p.1 as nat).insert(
            es.last().0@,
            es.last().1 as nat,
        ));
        assert(table_map(es.drop_last()).insert(p.0@, p.1 as nat).insert(
            es.last().0@,
            es.last().1 as nat,
        ) =~= table_map(es.drop_last()).insert(es.last().0@, es.last().1 as nat).insert(
            p.0@,
            p.1 as nat,
        ));
    }
}

/// Inserting an entry with a fresh key at any position adds exactly
/// that key to the mathematical table.
pub proof fn lemma_table_map_insert(es: Seq<(String, usize)>, i: int, p: (String, usize))
    requires
        0 <= i <= es.len(),
        forall|j: int| 0 <= j < es.len() ==> es[j].0@ != p.0@,
    ensures
        table_map(es.insert(i, p)) == table_map(es).insert(p.0@, p.1 as nat),
    decreases es.len(),
{
    let es2 = es.insert(i, p);
    if i == es.len() {
        assert(es2.drop_last() =~= es);
        assert(es2.last() == p);
    } else {
        assert(es2.drop_last() =~= es.drop_last().insert(i, p));
        assert(es2.last() == es.last());
        lemma_table_map_insert(es.drop_last(), i, p);
        assert(table_map(es2) == table_map(es.drop_last()).insert(p.0@, p.1 as nat).insert(
            es.last().0@,
            es.last().1 as nat,
        ));
        assert(table_map(es.drop_last()).insert(p.0@, p.1 as nat).insert(
            es.last().0@,
            es.last().1 as nat,
        ) =~= table_map(es.drop_last()).insert(es.last().0@, es.last().1 as nat).insert(
            p.0@,
            p.1 as nat,
        ));
    }
}

/// With pairwise distinct keys the mathematical table has exactly one
/// key per entry.
pub proof fn lemma_table_map_len(es: Seq<(String, usize)>)
    requires
        forall|i: int, j: int| 0 <= i < j < es.len() ==> es[i].0@ != es[j].0@,
    ensures
        table_map(es).dom().finite(),
        table_map(es).dom().len() == es.len(),
    decreases es.len(),
{
    if es.len() > 0 {
        lemma_table_map_len(es.drop_last());
        lemma_table_map_domain(es.drop_last(), es.last().0@);
    }
}

impl CountTable {
    /// Entries strictly ascending by key: the table's invariant.
    pub open spec fn wf(&self) -> bool {
        forall|i: int, j: int|
            0 <= i < j < self.entries@.len() ==> lex_lt(
                self.entries@[i].0@,
                self.entries@[j].0@,
            )
    }

    /// A well-formed table never holds the same key twice.
    pub proof fn lemma_keys_distinct(&self)
        requires
            self.wf(),
        ensures
            forall|i: int, j: int|
                0 <= i < j < self.entries@.len() ==> self.entries@[i].0@ != self.entries@[j].0@,
    {
        assert forall|i: int, j: int| 0 <= i < j < self.entries@.len() implies self.entries@[i].0@
            != self.entries@[j].0@ by {
            lemma_lex_lt_irreflexive(self.entries@[i].0@);
        }
    }

    /// Makes the empty table.
    pub fn new() -> (t: CountTable)
        ensures
            t.wf(),
            t@ == Map::<Seq<char>, nat>::empty(),
            t.entries@.len() == 0,
    {
        CountTable { entries: Vec::new() }
    }

    /// The first position whose key is not below `word`; all entries
    /// before it have keys strictly below `word`.
    fn find_slot(&self, word: &str) -> (idx: usize)
        requires
            self.wf(),
        ensures
            idx <= self.entries@.len(),
            forall|j: int| 0 <= j < idx ==> lex_lt(self.entries@[j].0@, word@),
            idx < self.entries@.len() ==> !lex_lt(self.entries@[idx as int].0@, word@),
    {
        let mut idx: usize = 0;
        while idx < self.entries.len()
            invariant
                idx <= self.entries@.len(),
                forall|j: int| 0 <= j < idx ==> lex_lt(self.entries@[j].0@, word@),
            decreases self.entries@.len() - idx,
        {
            if !str_lex_lt(self.entries[idx].0.as_str(), word) {
                return idx;
            }
            idx += 1;
        }
        idx
    }

    /// How many distinct words the table holds.
    pub fn len(&self) -> (n: usize)
        requires
            self.wf(),
        ensures
            n == self.entries@.len(),
            n == self@.dom().len(),
    {
        proof {
            self.lemma_keys_distinct();
            lemma_table_map_len(self.entries@);
        }
        self.entries.len()
    }

    /// Looks a word's count up.
    pub fn get(&self, word: &str) -> (r: Option<usize>)
        requires
            self.wf(),
        ensures
            match r {
                Some(c) => self@.contains_key(word@) && self@[word@] == c as nat,
                None => !self@.contains_key(word@),
            },
    {
        let idx = self.find_slot(word);
        proof {
            self.lemma_keys_distinct();
            lemma_table_map_domain(self.entries@, word@);
        }
        if idx < self.entries.len() && str_eq(self.entries[idx].0.as_str(), word) {
            proof {
                lemma_table_map_value(self.entries@, idx as int);
            }
            Some(self.entries[idx].1)
        } else {
            proof {
                assert forall|j: int| 0 <= j < self.entries@.len() implies self.entries@[j].0@
                    != word@ by {
                    self.lemma_no_key_at_slot(idx as int, word@, j);
                }
            }
            None
        }
    }

    /// Away from a slot as `find_slot` returns it, and off the slot
    /// itself, no entry can hold `w`.
    proof fn lemma_no_key_at_slot(&self, idx: int, w: Seq<char>, j: int)
        requires
            self.wf(),
            0 <= j < self.entries@.len(),
            0 <= idx <= self.entries@.len(),
            forall|k: int| 0 <= k < idx ==> lex_lt(self.entries@[k].0@, w),
            idx < self.entries@.len() ==> !lex_lt(self.entries@[idx].0@, w),
            idx < self.entries@.len() ==> self.entries@[idx].0@ != w,
        ensures
            self.entries@[j].0@ != w,
    {
        if j < idx {
            lemma_lex_lt_irreflexive(w);
        } else if j > idx {
            lemma_lex_lt_trichotomy(self.entries@[idx].0@, w);
            if self.entries@[j].0@ == w {
                lemma_lex_lt_transitive(w, self.entries@[idx].0@, self.entries@[j].0@);
                lemma_lex_lt_irreflexive(w);
            }
        }
    }

    /// Sets a word's count outright, inserting the word if it is
    /// absent.
    pub fn insert(&mut self, word: String, count: usize)
        requires
            old(self).wf(),
        ensures
            final(self).wf(),
            final(self)@ == old(self)@.insert(word@, count as nat),
    {
        let idx = self.find_slot(word.as_str());
        proof {
            self.lemma_keys_distinct();
        }
        if idx < self.entries.len() && str_eq(self.entries[idx].0.as_str(), word.as_str()) {
            proof {
                lemma_table_map_update(self.entries@, idx as int, (word, count));
            }
            let ghost es0 = self.entries@;
            self.entries.set(idx, (word, count));
            proof {
                assert(forall|j: int|
                    0 <= j < es0.len() ==> self.entries@[j].0@ == es0[j].0@);
            }
        } else {
            proof {
                assert forall|j: int| 0 <= j < self.entries@.len() implies self.entries@[j].0@
                    != word@ by {
                    self.lemma_no_key_at_slot(idx as int, word@, j);
                }
                lemma_table_map_insert(self.entries@, idx as int, (word, count));
                if idx < self.entries@.len() {
                    lemma_lex_lt_trichotomy(self.entries@[idx as int].0@, word@);
                }
            }
            let ghost es0 = self.entries@;
            let ghost n0 = self.entries@.len() as int;
            self.entries.insert(idx, (word, count));
            proof {
                assert forall|i: int, j: int|
                    0 <= i < j < self.entries@.len() implies lex_lt(
                    self.entries@[i].0@,
                    self.entries@[j].0@,
                ) by {
                    if j == idx as int {
                        // entries below the slot stay below the new key
                    } else if i == idx as int && j > idx as int + 1 {
                        lemma_lex_lt_transitive(word@, es0[idx as int].0@, es0[j - 1].0@);
                    }
                }
            }
        }
    }
}

/// Adds one occurrence of `word` to the table: inserts it with count
/// one when absent, and otherwise raises its count by one.
pub fn increment_word(map: &mut CountTable, word: String)
    requires
        old(map).wf(),
        old(map)@.contains_key(word@) ==> old(map)@[word@] < usize::MAX,
    ensures
        final(map).wf(),
        final(map)@ == bump(old(map)@, word@),
{
    proof {
        map.lemma_keys_distinct();
        lemma_table_map_domain(map.entries@, word@);
    }
    let idx = map.find_slot(word.as_str());
    if idx < map.entries.len() && str_eq(map.entries[idx].0.as_str(), word.as_str()) {
        proof {
            lemma_table_map_value(map.entries@, idx as int);
        }
        let count = map.entries[idx].1;
        proof {
            lemma_table_map_update(map.entries@, idx as int, (word, (count + 1) as usize));
        }
        let ghost es0 = map.entries@;
        map.entries.set(idx, (word, count + 1));
        proof {
            assert(forall|j: int| 0 <= j < es0.len() ==> map.entries@[j].0@ == es0[j].0@);
        }
    } else {
        proof {
            assert forall|j: int| 0 <= j < map.entries@.len() implies map.entries@[j].0@
                != word@ by {
                map.lemma_no_key_at_slot(idx as int, word@, j);
            }
            lemma_table_map_insert(map.entries@, idx as int, (word, 1));
            if idx < map.entries@.len() {
                lemma_lex_lt_trichotomy(map.entries@[idx as int].0@, word@);
            }
        }
        let ghost es0 = map.entries@;
        map.entries.insert(idx, (word, 1));
        proof {
            assert forall|i: int, j: int|
                0 <= i < j < map.entries@.len() implies lex_lt(
                map.entries@[i].0@,
                map.entries@[j].0@,
            ) by {
                if j == idx as int {
                } else if i == idx as int && j > idx as int + 1 {
                    lemma_lex_lt_transitive(word@, es0[idx as int].0@, es0[j - 1].0@);
                }
            }
        }
    }
}

/// Incrementing the same word twice in a fresh table yields count
/// two for that word and nothing else.
pub proof fn lemma_increment_same_word_twice(w: Seq<char>)
    ensures
        bump(bump(Map::<Seq<char>, nat>::empty(), w), w) =~= map![w => 2nat],
{
}

/// Incrementing two different words in a fresh table yields two
/// entries, each with count one.
pub proof fn lemma_increment_two_words(w1: Seq<char>, w2: Seq<char>)
    requires
        w1 != w2,
    ensures
        bump(bump(Map::<Seq<char>, nat>::empty(), w1), w2) =~= map![w1 => 1nat, w2 => 1nat],
        bump(bump(Map::<Seq<char>, nat>::empty(), w1), w2).dom().len() == 2,
{
    assert(bump(bump(Map::<Seq<char>, nat>::empty(), w1), w2).dom() =~= set![w1, w2]);
}

} // verus!
