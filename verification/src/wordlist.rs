//! A list of words that is kept in the order of the dictionary, so that a
//! word is found in it by halving.

use crate::rank::{
    entries, lemma_ranking, lemma_text_le_antisymmetric, lemma_text_le_reflexive,
    lemma_text_le_transitive, rank_order, ranking, sort_by_rank, text_le, text_precedes, Entry,
    Ranked,
};
use crate::text::{texts, Text};
use vstd::prelude::*;

verus! {

/// A word of a list.
#[derive(Debug, Clone)]
pub struct Listed {
    pub word: String,
}

impl Ranked for Listed {
    open spec fn entry(&self) -> Entry {
        Entry { text: self.word@, count: 0 }
    }

    fn rank_text(&self) -> (text: &str) {
        self.word.as_str()
    }

    fn rank_count(&self) -> (count: usize) {
        0
    }
}

/// The word of each member of `items`.
pub open spec fn listed_texts(items: Seq<Listed>) -> Seq<Text> {
    Seq::new(items.len(), |i: int| items[i].word@)
}

/// Each text is the next one or comes before it in the dictionary.
pub open spec fn ascending(words: Seq<Text>) -> bool {
    forall|i: int, j: int|
        0 <= i <= j < words.len() ==> text_le(#[trigger] words[i], #[trigger] words[j])
}

/// A set of words for looking up. The words are kept in the order of the
/// dictionary.
#[derive(Debug)]
pub struct WordList {
    items: Vec<Listed>,
}

impl View for WordList {
    type V = Set<Text>;

    closed spec fn view(&self) -> Set<Text> {
        listed_texts(self.items@).to_set()
    }
}

impl WordList {
    /// The words stand in the order of the dictionary.
    #[verifier::type_invariant]
    closed spec fn in_order(&self) -> bool {
        ascending(listed_texts(self.items@))
    }

    /// The list of the given words.
    pub fn from_words(words: Vec<String>) -> (list: WordList)
        ensures
            list@ == texts(words@).to_set(),
            list@.finite(),
    {
        let mut items: Vec<Listed> = Vec::new();
        let mut i: usize = 0;
        while i < words.len()
            invariant
                i <= words.len(),
                items@.len() == i,
                forall|k: int| 0 <= k < i ==> (#[trigger] items@[k]).word@ == words@[k]@,
            decreases words.len() - i,
        {
            items.push(Listed { word: words[i].clone() });
            i += 1;
        }
        let ghost given = entries(items@);
        sort_by_rank(&mut items);
        proof {
            let sorted = entries(items@);
            let mine = listed_texts(items@);
            lemma_ranking(given);
            assert forall|a: int, b: int| 0 <= a <= b < mine.len() implies text_le(
                #[trigger] mine[a],
                #[trigger] mine[b],
            ) by {
                if a == b {
                    lemma_text_le_reflexive(mine[a]);
                } else {
                    let order = rank_order();
                    assert(order(sorted[a], sorted[b]));
                }
            }
            assert forall|t: Text| mine.to_set().contains(t) <==> texts(words@).to_set().contains(
                t,
            ) by {
                let e = Entry { text: t, count: 0 };
                vstd::seq_lib::to_multiset_contains(sorted, e);
                vstd::seq_lib::to_multiset_contains(given, e);
                if mine.contains(t) {
                    let k = choose|k: int| 0 <= k < mine.len() && mine[k] == t;
                    assert(sorted[k] =~= e);
                    assert(sorted.contains(e));
                    let g = choose|g: int| 0 <= g < given.len() && given[g] == e;
                    assert(texts(words@)[g] == t);
                }
                if texts(words@).contains(t) {
                    let g = choose|g: int| 0 <= g < words@.len() && texts(words@)[g] == t;
                    assert(given[g] =~= e);
                    assert(given.contains(e));
                    let k = choose|k: int| 0 <= k < sorted.len() && sorted[k] == e;
                    assert(mine[k] == t);
                }
            }
            assert(mine.to_set() =~= texts(words@).to_set());
            assert(ascending(mine));
            vstd::seq_lib::seq_to_set_is_finite(mine);
        }
        WordList { items }
    }

    /// Whether `word` is a member. The word is sought by halving the
    /// list.
    pub fn contains(&self, word: &String) -> (found: bool)
        ensures
            found == self@.contains(word@),
    {
        proof {
            use_type_invariant(self);
        }
        let ghost mine = listed_texts(self.items@);
        let mut low: usize = 0;
        let mut high: usize = self.items.len();
        while low < high
            invariant
                low <= high <= self.items@.len(),
                mine == listed_texts(self.items@),
                ascending(mine),
                forall|i: int| 0 <= i < low ==> !text_le(word@, #[trigger] mine[i]),
                forall|i: int| high <= i < mine.len() ==> text_le(word@, #[trigger] mine[i]),
            decreases high - low,
        {
            let middle = low + (high - low) / 2;
            if text_precedes(word.as_str(), self.items[middle].word.as_str()) {
                proof {
                    assert forall|i: int| middle <= i < mine.len() implies text_le(
                        word@,
                        #[trigger] mine[i],
                    ) by {
                        assert(text_le(mine[middle as int], mine[i]));
                        lemma_text_le_transitive(word@, mine[middle as int], mine[i]);
                    }
                }
                high = middle;
            } else {
                proof {
                    assert forall|i: int| 0 <= i < middle + 1 implies !text_le(
                        word@,
                        #[trigger] mine[i],
                    ) by {
                        if text_le(word@, mine[i]) {
                            assert(text_le(mine[i], mine[middle as int]));
                            lemma_text_le_transitive(word@, mine[i], mine[middle as int]);
                        }
                    }
                }
                low = middle + 1;
            }
        }
        let found = low < self.items.len() && self.items[low].word == *word;
        proof {
            if found {
                assert(mine[low as int] == word@);
            } else if mine.contains(word@) {
                let at = choose|at: int| 0 <= at < mine.len() && mine[at] == word@;
                lemma_text_le_reflexive(word@);
                assert(text_le(word@, mine[at]));
                assert(low <= at);
                assert(text_le(word@, mine[low as int]));
                assert(text_le(mine[low as int], mine[at]));
                lemma_text_le_antisymmetric(word@, mine[low as int]);
            }
        }
        found
    }

    /// Whether the list is without a word.
    pub fn is_empty(&self) -> (empty: bool)
        ensures
            empty == (self@ == Set::<Text>::empty()),
    {
        proof {
            let mine = listed_texts(self.items@);
            if mine.len() > 0 {
                assert(mine.to_set().contains(mine[0]));
            } else {
                assert(mine.to_set() =~= Set::<Text>::empty());
            }
        }
        self.items.len() == 0
    }
}

} // verus!
