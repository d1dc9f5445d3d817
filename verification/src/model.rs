//! The lexicon that an analysis reads: the words that count for and against
//! an answer, and the words that say nothing of its theme.

use crate::text::{lowercase_text, lowered, lowered_each, texts, Text};
use crate::wordlist::WordList;
use vstd::prelude::*;
use vstd::string::StringExecFns;

verus! {

/// Why a lexicon was refused.
#[derive(Debug, Clone, Copy, PartialEq, Eq, Structural)]
pub enum ModelError {
    /// The list of positive words or that of negative words is empty.
    EmptyLexicon,
}

impl ModelError {
    /// The error in words.
    pub fn message(&self) -> (text: String)
        ensures
            text@ == "sentiment lexicon must include positive and negative words"@,
    {
        String::from_str("sentiment lexicon must include positive and negative words")
    }
}

/// The word lists of an analysis. There is at least one positive and one
/// negative word.
#[derive(Debug)]
pub struct ModelResources {
    positive_words: WordList,
    negative_words: WordList,
    stop_words: WordList,
}

/// The stop words of a lexicon that names none.
pub open spec fn default_stop_words() -> Seq<Text> {
    seq![
        "the"@,
        "and"@,
        "with"@,
        "from"@,
        "that"@,
        "this"@,
        "have"@,
        "has"@,
        "were"@,
        "was"@,
        "are"@,
        "for"@,
        "too"@,
        "very"@,
        "but"@,
        "not"@,
        "you"@,
        "your"@,
        "our"@,
        "their"@,
        "they"@,
        "them"@,
        "about"@,
        "into"@,
        "when"@,
        "while"@,
        "where"@,
        "which"@,
        "what"@,
        "would"@,
        "could"@,
        "should"@,
    ]
}

/// The stop words of a lexicon that names none, as strings.
pub fn stop_word_list() -> (list: Vec<String>)
    ensures
        texts(list@) == default_stop_words(),
{
    let mut list: Vec<String> = Vec::new();
    list.push(String::from_str("the"));
    list.push(String::from_str("and"));
    list.push(String::from_str("with"));
    list.push(String::from_str("from"));
    list.push(String::from_str("that"));
    list.push(String::from_str("this"));
    list.push(String::from_str("have"));
    list.push(String::from_str("has"));
    list.push(String::from_str("were"));
    list.push(String::from_str("was"));
    list.push(String::from_str("are"));
    list.push(String::from_str("for"));
    list.push(String::from_str("too"));
    list.push(String::from_str("very"));
    list.push(String::from_str("but"));
    list.push(String::from_str("not"));
    list.push(String::from_str("you"));
    list.push(String::from_str("your"));
    list.push(String::from_str("our"));
    list.push(String::from_str("their"));
    list.push(String::from_str("they"));
    list.push(String::from_str("them"));
    list.push(String::from_str("about"));
    list.push(String::from_str("into"));
    list.push(String::from_str("when"));
    list.push(String::from_str("while"));
    list.push(String::from_str("where"));
    list.push(String::from_str("which"));
    list.push(String::from_str("what"));
    list.push(String::from_str("would"));
    list.push(String::from_str("could"));
    list.push(String::from_str("should"));
    assert(texts(list@) =~= default_stop_words());
    list
}

/// Each word of `words` in lower case.
pub fn lowercase_words(words: &Vec<String>) -> (out: Vec<String>)
    ensures
        texts(out@) == lowered_each(texts(words@)),
        out@.len() == words@.len(),
{
    let mut out: Vec<String> = Vec::new();
    let mut i: usize = 0;
    while i < words.len()
        invariant
            i <= words.len(),
            texts(out@) == lowered_each(texts(words@).take(i as int)),
        decreases words.len() - i,
    {
        let ghost before = texts(out@);
        let ghost prefix = texts(words@).take(i as int);
        out.push(lowercase_text(words[i].as_str()));
        proof {
            assert(texts(out@) =~= before.push(lowered(words@[i as int]@)));
            assert(texts(words@).take(i + 1) =~= prefix.push(words@[i as int]@));
            assert(lowered_each(prefix.push(words@[i as int]@)) =~= lowered_each(prefix).push(
                lowered(words@[i as int]@),
            ));
        }
        i += 1;
    }
    assert(texts(words@).take(words@.len() as int) =~= texts(words@));
    assert(texts(out@).len() == out@.len());
    out
}

impl ModelResources {
    /// The words that count for an answer.
    pub closed spec fn positive(&self) -> Set<Text> {
        self.positive_words@
    }

    /// The words that count against an answer.
    pub closed spec fn negative(&self) -> Set<Text> {
        self.negative_words@
    }

    /// The words that say nothing of the theme of an answer.
    pub closed spec fn stops(&self) -> Set<Text> {
        self.stop_words@
    }

    /// There is a positive word and a negative word.
    pub open spec fn wf(&self) -> bool {
        &&& self.positive().finite()
        &&& self.negative().finite()
        &&& self.positive().len() > 0
        &&& self.negative().len() > 0
    }

    /// The lexicon of the three lists as they stand. It is refused if and
    /// only if there is no positive or no negative word.
    pub fn new(positive: Vec<String>, negative: Vec<String>, stop_words: Vec<String>) -> (model:
        Result<ModelResources, ModelError>)
        ensures
            model is Err <==> positive@.len() == 0 || negative@.len() == 0,
            model matches Err(e) ==> e == ModelError::EmptyLexicon,
            model matches Ok(m) ==> {
                &&& m.wf()
                &&& m.positive() == texts(positive@).to_set()
                &&& m.negative() == texts(negative@).to_set()
                &&& m.stops() == texts(stop_words@).to_set()
            },
    {
        if positive.len() == 0 || negative.len() == 0 {
            return Err(ModelError::EmptyLexicon);
        }
        let positive_words = WordList::from_words(positive);
        let negative_words = WordList::from_words(negative);
        let stop_words = WordList::from_words(stop_words);
        proof {
            assert(positive_words@.contains(texts(positive@)[0]));
            assert(negative_words@.contains(texts(negative@)[0]));
            vstd::set::axiom_set_contains_len(positive_words@, texts(positive@)[0]);
            vstd::set::axiom_set_contains_len(negative_words@, texts(negative@)[0]);
        }
        Ok(ModelResources { positive_words, negative_words, stop_words })
    }

    /// The lexicon of the two lists in lower case, with the default stop
    /// words. It is refused if and only if one of the lists is empty.
    pub fn from_lexicon(positive: Vec<String>, negative: Vec<String>) -> (model: Result<
        ModelResources,
        ModelError,
    >)
        ensures
            model is Err <==> positive@.len() == 0 || negative@.len() == 0,
            model matches Err(e) ==> e == ModelError::EmptyLexicon,
            model matches Ok(m) ==> {
                &&& m.wf()
                &&& m.positive() == lowered_each(texts(positive@)).to_set()
                &&& m.negative() == lowered_each(texts(negative@)).to_set()
                &&& m.stops() == default_stop_words().to_set()
            },
    {
        let positive_lower = lowercase_words(&positive);
        let negative_lower = lowercase_words(&negative);
        ModelResources::new(positive_lower, negative_lower, stop_word_list())
    }

    /// The words that count for an answer.
    pub fn positive_words(&self) -> (set: &WordList)
        ensures
            set@ == self.positive(),
    {
        &self.positive_words
    }

    /// The words that count against an answer.
    pub fn negative_words(&self) -> (set: &WordList)
        ensures
            set@ == self.negative(),
    {
        &self.negative_words
    }

    /// The words that say nothing of the theme of an answer.
    pub fn stop_words(&self) -> (set: &WordList)
        ensures
            set@ == self.stops(),
    {
        &self.stop_words
    }
}

} // verus!
