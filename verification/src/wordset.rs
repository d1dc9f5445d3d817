//! A set of words, kept in the order in which they came.

use crate::text::{texts, Text};
use vstd::prelude::*;

verus! {

/// `s` without the later occurrences of a word that occurs before.
pub open spec fn distinct(s: Seq<Text>) -> Seq<Text>
    decreases s.len(),
{
    if s.len() == 0 {
        Seq::empty()
    } else {
        let head = distinct(s.drop_last());
        if head.contains(s.last()) {
            head
        } else {
            head.push(s.last())
        }
    }
}

/// `distinct(s)` holds the words of `s`, each once.
pub proof fn lemma_distinct(s: Seq<Text>)
    ensures
        distinct(s).no_duplicates(),
        distinct(s).to_set() == s.to_set(),
    decreases s.len(),
{
    if s.len() == 0 {
        assert(distinct(s).to_set() =~= s.to_set());
    } else {
        let head = distinct(s.drop_last());
        lemma_distinct(s.drop_last());
        assert(s =~= s.drop_last().push(s.last()));
        s.drop_last().lemma_push_to_set_commute(s.last());
        if head.contains(s.last()) {
            assert(head.to_set() =~= head.to_set().insert(s.last()));
        } else {
            head.lemma_push_to_set_commute(s.last());
        }
    }
}

/// A finite set of words. No word occurs twice, and the words stay in the
/// order of their insertion.
#[derive(Debug, Clone)]
pub struct WordSet {
    words: Vec<String>,
}

impl View for WordSet {
    type V = Set<Text>;

    open spec fn view(&self) -> Set<Text> {
        self.seq().to_set()
    }
}

impl WordSet {
    /// The words in the order of their insertion.
    pub closed spec fn seq(&self) -> Seq<Text> {
        texts(self.words@)
    }

    /// No word occurs twice.
    pub open spec fn wf(&self) -> bool {
        self.seq().no_duplicates()
    }

    /// A well-formed set is finite and has as many members as `seq` has.
    pub proof fn lemma_len(&self)
        requires
            self.wf(),
        ensures
            self@.finite(),
            self@.len() == self.seq().len(),
    {
        self.seq().unique_seq_to_set();
        vstd::seq_lib::seq_to_set_is_finite(self.seq());
    }

    /// The set without a word.
    pub fn new() -> (set: WordSet)
        ensures
            set.wf(),
            set.seq() == Seq::<Text>::empty(),
            set@ == Set::<Text>::empty(),
    {
        let set = WordSet { words: Vec::new() };
        set
    }

    /// The set of the given words in their order; a word that occurs twice
    /// is taken the first time.
    pub fn from_words(words: Vec<String>) -> (set: WordSet)
        ensures
            set.wf(),
            set.seq() == distinct(texts(words@)),
            set@ == texts(words@).to_set(),
    {
        let mut set = WordSet::new();
        let mut i: usize = 0;
        while i < words.len()
            invariant
                i <= words.len(),
                set.wf(),
                set.seq() == distinct(texts(words@).take(i as int)),
                set@ == texts(words@).take(i as int).to_set(),
            decreases words.len() - i,
        {
            let ghost before = texts(words@).take(i as int);
            proof {
                assert(texts(words@).take(i + 1) =~= before.push(words@[i as int]@));
                assert(before.push(words@[i as int]@).drop_last() =~= before);
                before.lemma_push_to_set_commute(words@[i as int]@);
            }
            set.insert(words[i].clone());
            i += 1;
        }
        assert(texts(words@).take(words@.len() as int) =~= texts(words@));
        set
    }

    /// The number of words.
    pub fn len(&self) -> (n: usize)
        requires
            self.wf(),
        ensures
            n == self@.len(),
            n == self.seq().len(),
    {
        proof {
            self.lemma_len();
        }
        self.words.len()
    }

    /// Whether the set is without a word.
    pub fn is_empty(&self) -> (r: bool)
        requires
            self.wf(),
        ensures
            r == (self@.len() == 0),
            r == (self@ == Set::<Text>::empty()),
    {
        proof {
            self.lemma_len();
            if self.seq().len() > 0 {
                assert(self@.contains(self.seq()[0]));
            } else {
                assert(self@ =~= Set::<Text>::empty());
            }
        }
        self.words.len() == 0
    }

    /// The word at place `i` of the insertion order.
    pub fn get(&self, i: usize) -> (word: &String)
        requires
            i < self.seq().len(),
        ensures
            word@ == self.seq()[i as int],
    {
        &self.words[i]
    }

    /// The place of `word` in the insertion order, if it is a member.
    pub fn position(&self, word: &String) -> (at: Option<usize>)
        ensures
            at is Some <==> self@.contains(word@),
            at matches Some(i) ==> i < self.seq().len() && self.seq()[i as int] == word@,
    {
        let mut i: usize = 0;
        while i < self.words.len()
            invariant
                i <= self.words.len(),
                forall|j: int| 0 <= j < i ==> self.seq()[j] != word@,
            decreases self.words.len() - i,
        {
            if self.words[i] == *word {
                assert(self.seq()[i as int] == word@);
                return Some(i);
            }
            i += 1;
        }
        None
    }

    /// Whether `word` is a member.
    pub fn contains(&self, word: &String) -> (r: bool)
        ensures
            r == self@.contains(word@),
    {
        self.position(word).is_some()
    }

    /// Adds `word` at the end unless it is a member already, and says
    /// whether it was added.
    pub fn insert(&mut self, word: String) -> (added: bool)
        requires
            old(self).wf(),
        ensures
            final(self).wf(),
            added == !old(self)@.contains(word@),
            final(self)@ == old(self)@.insert(word@),
            final(self).seq() == if added {
                old(self).seq().push(word@)
            } else {
                old(self).seq()
            },
    {
        if self.contains(&word) {
            assert(self@ =~= self@.insert(word@));
            false
        } else {
            let ghost before = self.seq();
            self.words.push(word);
            proof {
                assert(self.seq() =~= before.push(word@));
                before.lemma_push_to_set_commute(word@);
            }
            true
        }
    }
}

} // verus!
