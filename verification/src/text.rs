//! Splitting text into words: the normaliser and the tokenizer.

use crate::chars::{
    char_is_alphanumeric, char_is_whitespace, char_to_lowercase, is_alphanumeric, is_whitespace,
    lowercase,
};
use crate::wordlist::WordList;
use crate::wordset::{distinct, WordSet};
use vstd::prelude::*;
use vstd::string::StrSliceExecFns;

verus! {

/// `String::push` of the standard library, which is documented to append
/// the given character to the end of the string. The contract claims just
/// that: the characters after the call are those before it, followed by
/// `ch`. It is taken on trust; every string that this crate builds
/// character by character rests on it.
pub assume_specification[ String::push ](s: &mut String, ch: char)
    ensures
        final(s)@ == old(s)@.push(ch),
;

/// A piece of text as the contracts see it.
pub type Text = Seq<char>;

/// The separator of the tokenizer: whatever is no ASCII letter or digit.
pub open spec fn not_alphanumeric() -> spec_fn(char) -> bool {
    |c: char| !is_alphanumeric(c)
}

/// The separator of the normaliser: white space.
pub open spec fn whitespace() -> spec_fn(char) -> bool {
    |c: char| is_whitespace(c)
}

/// Whether a text has a character.
pub open spec fn nonempty() -> spec_fn(Text) -> bool {
    |t: Text| t.len() > 0
}

/// The pieces of `s` between the characters that `sep` holds of, in order.
/// There is one piece more than there are separators, and a piece may be
/// empty.
pub open spec fn split(s: Text, sep: spec_fn(char) -> bool) -> Seq<Text>
    decreases s.len(),
{
    if s.len() == 0 {
        seq![Seq::<char>::empty()]
    } else {
        let head = split(s.drop_last(), sep);
        if sep(s.last()) {
            head.push(Seq::<char>::empty())
        } else {
            head.drop_last().push(head.last().push(s.last()))
        }
    }
}

/// The pieces of `s` that are not empty.
pub open spec fn words(s: Text, sep: spec_fn(char) -> bool) -> Seq<Text> {
    split(s, sep).filter(nonempty())
}

/// `words` with `sep` between each two neighbours.
pub open spec fn join(words: Seq<Text>, sep: char) -> Text
    decreases words.len(),
{
    if words.len() == 0 {
        Seq::<char>::empty()
    } else if words.len() == 1 {
        words[0]
    } else {
        join(words.drop_last(), sep).push(sep) + words.last()
    }
}

/// `s` with each ASCII capital letter replaced by its small letter.
pub open spec fn lowered(s: Text) -> Text {
    Seq::new(s.len(), |i: int| lowercase(s[i]))
}

/// `s` with every run of white space collapsed to one space, and none left
/// at either end.
pub open spec fn normalized(s: Text) -> Text {
    join(words(s, whitespace()), ' ')
}

/// Each member of `ws` in lower case.
pub open spec fn lowered_each(ws: Seq<Text>) -> Seq<Text> {
    Seq::new(ws.len(), |i: int| lowered(ws[i]))
}

/// The tokens of `s`: its runs of ASCII letters and digits, in lower case.
pub open spec fn tokens(s: Text) -> Seq<Text> {
    lowered_each(words(s, not_alphanumeric()))
}

/// Whether a token counts when answers are compared: it has more than two
/// characters and is no stop word.
pub open spec fn telling(stop_words: Set<Text>) -> spec_fn(Text) -> bool {
    |t: Text| t.len() > 2 && !stop_words.contains(t)
}

/// The tokens of `s` by which answers are compared: those of more than two
/// characters that are no stop words.
pub open spec fn token_set(s: Text, stop_words: Set<Text>) -> Set<Text> {
    Set::new(|t: Text| tokens(s).contains(t) && t.len() > 2 && !stop_words.contains(t))
}

/// The tokens of `token_set` in the order in which they first occur.
pub open spec fn token_order(s: Text, stop_words: Set<Text>) -> Seq<Text> {
    distinct(tokens(s).filter(telling(stop_words)))
}

/// What each string of `v` holds.
pub open spec fn texts(v: Seq<String>) -> Seq<Text> {
    Seq::new(v.len(), |i: int| v[i]@)
}

/// A text splits into one piece at least.
pub proof fn lemma_split_len(s: Text, sep: spec_fn(char) -> bool)
    ensures
        split(s, sep).len() >= 1,
    decreases s.len(),
{
    if s.len() > 0 {
        lemma_split_len(s.drop_last(), sep);
    }
}

/// What one more character does to `split`.
pub proof fn lemma_split_push(s: Text, c: char, sep: spec_fn(char) -> bool)
    ensures
        split(s, sep).len() >= 1,
        sep(c) ==> split(s.push(c), sep) == split(s, sep).push(Seq::<char>::empty()),
        !sep(c) ==> split(s.push(c), sep) == split(s, sep).drop_last().push(
            split(s, sep).last().push(c),
        ),
{
    lemma_split_len(s, sep);
    assert(s.push(c).drop_last() =~= s);
}

/// What one more character does to `words`, by the piece that was open.
pub proof fn lemma_words_push(s: Text, c: char, sep: spec_fn(char) -> bool)
    ensures
        split(s, sep).len() >= 1,
        words(s, sep) == if split(s, sep).last().len() > 0 {
            split(s, sep).drop_last().filter(nonempty()).push(split(s, sep).last())
        } else {
            split(s, sep).drop_last().filter(nonempty())
        },
        sep(c) ==> words(s.push(c), sep) == words(s, sep),
        !sep(c) ==> words(s.push(c), sep) == split(s, sep).drop_last().filter(nonempty()).push(
            split(s, sep).last().push(c),
        ),
{
    broadcast use Seq::lemma_filter_push;

    lemma_split_push(s, c, sep);
    let parts = split(s, sep);
    let closed = parts.drop_last();
    assert(parts =~= closed.push(parts.last()));
    assert(closed.push(parts.last().push(c)).drop_last() =~= closed);
}

/// No piece holds a separator.
pub proof fn lemma_split_pieces(s: Text, sep: spec_fn(char) -> bool)
    ensures
        forall|i: int, j: int|
            0 <= i < split(s, sep).len() && 0 <= j < split(s, sep)[i].len() ==> !sep(
                #[trigger] split(s, sep)[i][j],
            ),
    decreases s.len(),
{
    if s.len() > 0 {
        lemma_split_pieces(s.drop_last(), sep);
        lemma_split_len(s.drop_last(), sep);
    }
}

/// There is a word if and only if some character is no separator.
pub proof fn lemma_words_exist(s: Text, sep: spec_fn(char) -> bool)
    ensures
        words(s, sep).len() > 0 <==> exists|i: int| 0 <= i < s.len() && !sep(#[trigger] s[i]),
    decreases s.len(),
{
    if s.len() == 0 {
        assert(split(s, sep) =~= seq![Seq::<char>::empty()]);
        assert(seq![Seq::<char>::empty()].drop_last() =~= Seq::<Text>::empty());
        lemma_words_push(s, ' ', sep);
    } else {
        let head = s.drop_last();
        lemma_words_exist(head, sep);
        assert(s =~= head.push(s.last()));
        lemma_words_push(head, s.last(), sep);
        if sep(s.last()) {
            if exists|i: int| 0 <= i < s.len() && !sep(#[trigger] s[i]) {
                let i = choose|i: int| 0 <= i < s.len() && !sep(#[trigger] s[i]);
                assert(!sep(head[i]));
            }
            if exists|i: int| 0 <= i < head.len() && !sep(#[trigger] head[i]) {
                let i = choose|i: int| 0 <= i < head.len() && !sep(#[trigger] head[i]);
                assert(!sep(s[i]));
            }
        } else {
            assert(!sep(s[s.len() - 1]));
        }
    }
}

/// A text of white space only, and no other, is empty when normalised.
pub proof fn lemma_normalized_blank(s: Text)
    ensures
        normalized(s).len() == 0 <==> forall|i: int| 0 <= i < s.len() ==> is_whitespace(s[i]),
{
    broadcast use Seq::lemma_filter_pred;

    lemma_words_exist(s, whitespace());
    lemma_join_empty(words(s, whitespace()), ' ');
    if exists|i: int| 0 <= i < s.len() && !(whitespace())(#[trigger] s[i]) {
        let i = choose|i: int| 0 <= i < s.len() && !(whitespace())(#[trigger] s[i]);
        assert(!is_whitespace(s[i]));
    }
}

/// Whether white space in `s` is single spaces between other characters:
/// none at either end, and no two in a row.
pub open spec fn single_spaced(s: Text) -> bool {
    forall|i: int|
        0 <= i < s.len() && is_whitespace(#[trigger] s[i]) ==> {
            &&& s[i] == ' '
            &&& 0 < i < s.len() - 1
            &&& !is_whitespace(s[i - 1])
            &&& !is_whitespace(s[i + 1])
        }
}

/// Words without white space, joined by spaces, are single spaced, and
/// begin and end with a character that is no white space.
proof fn lemma_join_single_spaced(ws: Seq<Text>)
    requires
        forall|i: int| 0 <= i < ws.len() ==> (#[trigger] ws[i]).len() > 0,
        forall|i: int, j: int|
            0 <= i < ws.len() && 0 <= j < ws[i].len() ==> !is_whitespace(#[trigger] ws[i][j]),
    ensures
        single_spaced(join(ws, ' ')),
        ws.len() > 0 ==> join(ws, ' ').len() > 0 && !is_whitespace(join(ws, ' ').first())
            && !is_whitespace(join(ws, ' ').last()),
    decreases ws.len(),
{
    if ws.len() == 1 {
        assert forall|j: int| 0 <= j < ws[0].len() implies !is_whitespace(#[trigger] ws[0][j]) by {
            assert(!is_whitespace(ws[0][j]));
        }
    } else if ws.len() > 1 {
        let head = ws.drop_last();
        lemma_join_single_spaced(head);
        let left = join(head, ' ');
        let joined = join(ws, ' ');
        let word = ws.last();
        assert(joined =~= left.push(' ') + word);
        assert forall|i: int| 0 <= i < joined.len() && is_whitespace(
            #[trigger] joined[i],
        ) implies {
            &&& joined[i] == ' '
            &&& 0 < i < joined.len() - 1
            &&& !is_whitespace(joined[i - 1])
            &&& !is_whitespace(joined[i + 1])
        } by {
            if i < left.len() {
                assert(joined[i] == left[i]);
                assert(is_whitespace(left[i]));
                assert(joined[i - 1] == left[i - 1]);
                assert(joined[i + 1] == left[i + 1]);
            } else if i == left.len() {
                assert(joined[i - 1] == left.last());
                assert(joined[i + 1] == word[0]);
            } else {
                assert(joined[i] == word[i - left.len() - 1]);
            }
        }
        assert(joined.first() == left.first());
        assert(joined.last() == word.last());
    }
}

/// A normalised text has white space only as single spaces between other
/// characters.
pub proof fn lemma_normalized_single_spaced(s: Text)
    ensures
        single_spaced(normalized(s)),
{
    let sep = whitespace();
    let kept = words(s, sep);
    lemma_split_pieces(s, sep);
    assert forall|i: int| 0 <= i < kept.len() implies (#[trigger] kept[i]).len() > 0 && forall|
        j: int,
    |
        0 <= j < kept[i].len() ==> !is_whitespace(#[trigger] kept[i][j]) by {
        split(s, sep).lemma_filter_pred(nonempty(), i);
        assert(kept.contains(kept[i]));
        split(s, sep).lemma_filter_contains_rev(nonempty(), kept[i]);
        let k = choose|k: int| 0 <= k < split(s, sep).len() && split(s, sep)[k] == kept[i];
        assert forall|j: int| 0 <= j < kept[i].len() implies !is_whitespace(
            #[trigger] kept[i][j],
        ) by {
            assert(!sep(split(s, sep)[k][j]));
        }
    }
    lemma_join_single_spaced(kept);
}

/// Every token has a character, and each of its characters is a small
/// ASCII letter or a digit.
pub proof fn lemma_tokens_shape(s: Text)
    ensures
        forall|i: int| 0 <= i < tokens(s).len() ==> (#[trigger] tokens(s)[i]).len() > 0,
        forall|i: int, j: int|
            0 <= i < tokens(s).len() && 0 <= j < tokens(s)[i].len() ==> is_alphanumeric(
                #[trigger] tokens(s)[i][j],
            ) && lowercase(tokens(s)[i][j]) == tokens(s)[i][j],
{
    let sep = not_alphanumeric();
    let kept = words(s, sep);
    lemma_split_pieces(s, sep);
    assert forall|i: int| 0 <= i < kept.len() implies (#[trigger] kept[i]).len() > 0 && forall|
        j: int,
    |
        0 <= j < kept[i].len() ==> is_alphanumeric(#[trigger] kept[i][j]) by {
        split(s, sep).lemma_filter_pred(nonempty(), i);
        assert(kept.contains(kept[i]));
        split(s, sep).lemma_filter_contains_rev(nonempty(), kept[i]);
        let k = choose|k: int| 0 <= k < split(s, sep).len() && split(s, sep)[k] == kept[i];
        assert forall|j: int| 0 <= j < kept[i].len() implies is_alphanumeric(
            #[trigger] kept[i][j],
        ) by {
            assert(!sep(split(s, sep)[k][j]));
        }
    }
    assert forall|i: int, j: int|
        0 <= i < tokens(s).len() && 0 <= j < tokens(s)[i].len() implies is_alphanumeric(
        #[trigger] tokens(s)[i][j],
    ) && lowercase(tokens(s)[i][j]) == tokens(s)[i][j] by {
        assert(kept[i].len() > 0);
        assert(is_alphanumeric(kept[i][j]));
    }
    assert forall|i: int| 0 <= i < tokens(s).len() implies (#[trigger] tokens(s)[i]).len() > 0 by {
        assert(kept[i].len() > 0);
    }
}

/// A character added to the last word is added to the joined text.
pub proof fn lemma_join_extend(ws: Seq<Text>, w: Text, c: char, sep: char)
    ensures
        join(ws.push(w.push(c)), sep) == join(ws.push(w), sep).push(c),
{
    assert(ws.push(w.push(c)).drop_last() =~= ws);
    assert(ws.push(w).drop_last() =~= ws);
    if ws.len() > 0 {
        let head = join(ws, sep).push(sep);
        assert(head + w.push(c) =~= (head + w).push(c));
    }
}

/// Words that are not empty join to an empty text only when there is none.
pub proof fn lemma_join_empty(ws: Seq<Text>, sep: char)
    requires
        forall|i: int| 0 <= i < ws.len() ==> ws[i].len() > 0,
    ensures
        join(ws, sep).len() == 0 <==> ws.len() == 0,
{
}

/// Splits `input` at white space and joins the words with single spaces.
pub fn normalize_text(input: &str) -> (out: String)
    ensures
        out@ == normalized(input@),
{
    let mut out = String::new();
    let mut in_word = false;
    proof {
        assert(input@.take(0) =~= Seq::<char>::empty());
        assert(split(Seq::<char>::empty(), whitespace()) =~= seq![Seq::<char>::empty()]);
        lemma_words_push(Seq::<char>::empty(), ' ', whitespace());
        assert(seq![Seq::<char>::empty()].drop_last() =~= Seq::<Text>::empty());
    }
    for c in it: input.chars()
        invariant
            it.seq() == input@,
            out@ == normalized(input@.take(it.index())),
            in_word == (split(input@.take(it.index()), whitespace()).last().len() > 0),
    {
        let ghost prefix = input@.take(it.index());
        let ghost closed = split(prefix, whitespace()).drop_last().filter(nonempty());
        let ghost open = split(prefix, whitespace()).last();
        proof {
            broadcast use Seq::lemma_filter_pred;

            assert(input@.take(it.index() + 1) =~= prefix.push(c));
            lemma_words_push(prefix, c, whitespace());
            lemma_join_empty(closed, ' ');
        }
        if !char_is_whitespace(c) {
            if in_word {
                proof {
                    lemma_join_extend(closed, open, c, ' ');
                }
            } else {
                if !out.as_str().is_empty() {
                    out.push(' ');
                }
                proof {
                    assert(closed.push(open.push(c)).drop_last() =~= closed);
                    assert(open.push(c) =~= seq![c]);
                    assert(join(closed, ' ').push(' ') + seq![c] =~= join(closed, ' ').push(
                        ' ',
                    ).push(c));
                    assert(Seq::<char>::empty().push(c) =~= seq![c]);
                }
            }
            out.push(c);
            in_word = true;
        } else {
            in_word = false;
        }
    }
    assert(input@.take(input@.len() as int) =~= input@);
    out
}

/// Splits `input` at whatever is no ASCII letter or digit, drops the empty
/// pieces and puts the others in lower case.
pub fn tokenize(input: &str) -> (out: Vec<String>)
    ensures
        texts(out@) == tokens(input@),
{
    let mut out: Vec<String> = Vec::new();
    let mut word = String::new();
    proof {
        assert(input@.take(0) =~= Seq::<char>::empty());
        assert(split(Seq::<char>::empty(), not_alphanumeric()) =~= seq![Seq::<char>::empty()]);
        assert(seq![Seq::<char>::empty()].drop_last() =~= Seq::<Text>::empty());
        assert(texts(out@) =~= lowered_each(Seq::<Text>::empty().filter(nonempty())));
        assert(word@ =~= lowered(Seq::<char>::empty()));
    }
    for c in it: input.chars()
        invariant
            it.seq() == input@,
            split(input@.take(it.index()), not_alphanumeric()).len() >= 1,
            texts(out@) == lowered_each(
                split(input@.take(it.index()), not_alphanumeric()).drop_last().filter(nonempty()),
            ),
            word@ == lowered(split(input@.take(it.index()), not_alphanumeric()).last()),
    {
        let ghost prefix = input@.take(it.index());
        let ghost closed = split(prefix, not_alphanumeric()).drop_last();
        let ghost open = split(prefix, not_alphanumeric()).last();
        proof {
            assert(input@.take(it.index() + 1) =~= prefix.push(c));
            lemma_split_push(prefix, c, not_alphanumeric());
            lemma_words_push(prefix, c, not_alphanumeric());
        }
        if char_is_alphanumeric(c) {
            word.push(char_to_lowercase(c));
            proof {
                assert(closed.push(open.push(c)).drop_last() =~= closed);
                assert(word@ =~= lowered(open.push(c)));
            }
        } else {
            let ghost before = texts(out@);
            proof {
                assert(split(prefix, not_alphanumeric()).push(Seq::<char>::empty()).drop_last()
                    =~= split(prefix, not_alphanumeric()));
            }
            if !word.as_str().is_empty() {
                out.push(word);
                word = String::new();
                proof {
                    assert(texts(out@) =~= before.push(lowered(open)));
                    assert(lowered_each(closed.filter(nonempty()).push(open)) =~= lowered_each(
                        closed.filter(nonempty()),
                    ).push(lowered(open)));
                }
            }
            proof {
                assert(word@ =~= lowered(Seq::<char>::empty()));
            }
        }
    }
    proof {
        assert(input@.take(input@.len() as int) =~= input@);
        lemma_words_push(input@, ' ', not_alphanumeric());
    }
    let ghost closed = split(input@, not_alphanumeric()).drop_last().filter(nonempty());
    let ghost open = split(input@, not_alphanumeric()).last();
    let ghost before = texts(out@);
    if !word.as_str().is_empty() {
        out.push(word);
        proof {
            assert(texts(out@) =~= before.push(lowered(open)));
            assert(lowered_each(closed.push(open)) =~= lowered_each(closed).push(lowered(open)));
        }
    }
    out
}

/// `input` with each ASCII capital letter replaced by its small letter.
pub fn lowercase_text(input: &str) -> (out: String)
    ensures
        out@ == lowered(input@),
{
    let mut out = String::new();
    assert(out@ =~= lowered(input@.take(0)));
    for c in it: input.chars()
        invariant
            it.seq() == input@,
            out@ == lowered(input@.take(it.index())),
    {
        out.push(char_to_lowercase(c));
        assert(out@ =~= lowered(input@.take(it.index() + 1)));
    }
    assert(input@.take(input@.len() as int) =~= input@);
    out
}

/// The set of the tokens of `input` that have more than two characters and
/// are not among `stop_words`.
pub fn tokenize_set(input: &str, stop_words: &WordList) -> (set: WordSet)
    ensures
        set.wf(),
        set@ == token_set(input@, stop_words@),
        set.seq() == token_order(input@, stop_words@),
{
    let all = tokenize(input);
    let mut set = WordSet::new();
    let mut i: usize = 0;
    while i < all.len()
        invariant
            i <= all.len(),
            texts(all@) == tokens(input@),
            set.wf(),
            set.seq() == distinct(texts(all@).take(i as int).filter(telling(stop_words@))),
            set@ == Set::new(
                |t: Text|
                    texts(all@).take(i as int).contains(t) && t.len() > 2 && !stop_words@.contains(
                        t,
                    ),
            ),
        decreases all.len() - i,
    {
        let ghost before = texts(all@).take(i as int);
        let token = all[i].clone();
        assert(texts(all@).take(i + 1) =~= before.push(token@));
        proof {
            broadcast use Seq::lemma_filter_push;

            let kept = before.filter(telling(stop_words@));
            assert(kept.push(token@).drop_last() =~= kept);
        }
        if token.as_str().unicode_len() > 2 && !stop_words.contains(&token) {
            set.insert(token);
        }
        i += 1;
        assert(set@ =~= Set::new(
            |t: Text|
                texts(all@).take(i as int).contains(t) && t.len() > 2 && !stop_words@.contains(t),
        )) by {
            assert forall|t: Text| before.push(token@).contains(t) <==> (before.contains(t) || t
                == token@) by {
                if t == token@ {
                    assert(before.push(token@)[before.len() as int] == t);
                }
            }
        }
    }
    assert(texts(all@).take(all@.len() as int) =~= texts(all@));
    set
}

} // verus!
