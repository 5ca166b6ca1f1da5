//! The matcher: from a line of text to its tokens, and from the tokens to
//! the suggestions for those the dictionary does not know.
//!
//! Matching ignores case: a line is put into lower case before it is cut
//! into tokens, so a dictionary of lower-case words is what it expects.
use crate::dictionary::{
    is_first_nearest, lemma_nearest_index_is_first_nearest, nearest_index, words_of, Dictionary,
};
use crate::distance::{lemma_distance_zero_iff_equal, levenshtein};
use crate::trim::{
    lemma_trim_end_ends_at_edge, lemma_trim_start_begins_at_edge, lemma_trimmed_has_edges,
    lemma_trimmed_is_part, trim_range, trim_start, trimmed, word_char, Edge,
};
use crate::unicode::{is_whitespace, lowercase, to_lowercase, whitespace};
use vstd::prelude::*;
use vstd::string::*;

verus! {

/// A character that parts one fragment of a line from the next: a comma
/// or white space.
pub open spec fn separator(c: char) -> bool {
    c == ',' || whitespace(c)
}

/// What a fragment gives: itself stripped to its word edges, or nothing
/// where that leaves it empty.
pub open spec fn token_of(fragment: Seq<char>) -> Seq<Seq<char>> {
    let token = trimmed(fragment, Edge::Word);
    if token.len() == 0 {
        Seq::empty()
    } else {
        seq![token]
    }
}

/// The tokens of `text` read after `fragment`, the characters since the
/// last separator.
pub open spec fn tokens_after(fragment: Seq<char>, text: Seq<char>) -> Seq<Seq<char>>
    decreases text.len(),
{
    if text.len() == 0 {
        token_of(fragment)
    } else if separator(text[0]) {
        token_of(fragment) + tokens_after(Seq::empty(), text.skip(1))
    } else {
        tokens_after(fragment.push(text[0]), text.skip(1))
    }
}

/// The tokens of a text, in the order in which they stand: each run of
/// characters between separators, stripped to its word edges, unless that
/// leaves nothing. Characters inside a token are kept whatever they are.
pub open spec fn tokens_of(text: Seq<char>) -> Seq<Seq<char>> {
    tokens_after(Seq::empty(), text)
}

/// A token worth the name: not empty, with a letter or an apostrophe at
/// either end.
pub open spec fn well_edged(token: Seq<char>) -> bool {
    token.len() > 0 && word_char(token[0]) && word_char(token.last())
}

/// Every token read after a fragment has a letter or an apostrophe at either end.
pub proof fn lemma_tokens_after_well_edged(fragment: Seq<char>, text: Seq<char>)
    ensures
        forall|i: int|
            0 <= i < tokens_after(fragment, text).len() ==> well_edged(
                #[trigger] tokens_after(fragment, text)[i],
            ),
    decreases text.len(),
{
    lemma_trimmed_has_edges(fragment, Edge::Word);
    let all = tokens_after(fragment, text);
    let head = token_of(fragment);
    let token = trimmed(fragment, Edge::Word);
    assert(token.len() > 0 ==> head.len() == 1 && head[0] == token && well_edged(token));
    assert(token.len() == 0 ==> head.len() == 0);
    if text.len() == 0 {
        assert(all == head);
    } else if separator(text[0]) {
        let tail = tokens_after(Seq::empty(), text.skip(1));
        assert(all == head + tail);
        lemma_tokens_after_well_edged(Seq::empty(), text.skip(1));
        assert forall|i: int| 0 <= i < all.len() implies well_edged(#[trigger] all[i]) by {
            if i >= head.len() {
                assert(all[i] == tail[i - head.len()]);
            }
        }
    } else {
        lemma_tokens_after_well_edged(fragment.push(text[0]), text.skip(1));
        assert(all == tokens_after(fragment.push(text[0]), text.skip(1)));
    }
}

/// No token is empty or made of other characters only: each begins and
/// ends with a letter or an apostrophe.
pub proof fn lemma_tokens_well_edged(text: Seq<char>)
    ensures
        forall|i: int| 0 <= i < tokens_of(text).len() ==> well_edged(#[trigger] tokens_of(text)[i]),
{
    lemma_tokens_after_well_edged(Seq::empty(), text);
}

/// Whether no character of `s` is a separator.
pub open spec fn unparted(s: Seq<char>) -> bool {
    forall|k: int| 0 <= k < s.len() ==> !separator(#[trigger] s[k])
}

/// No token read after a fragment without a separator holds one.
pub proof fn lemma_tokens_after_unparted(fragment: Seq<char>, text: Seq<char>)
    requires
        unparted(fragment),
    ensures
        forall|i: int|
            0 <= i < tokens_after(fragment, text).len() ==> unparted(
                #[trigger] tokens_after(fragment, text)[i],
            ),
    decreases text.len(),
{
    let all = tokens_after(fragment, text);
    let head = token_of(fragment);
    let token = trimmed(fragment, Edge::Word);
    lemma_trimmed_is_part(fragment, Edge::Word);
    lemma_trim_start_begins_at_edge(fragment, Edge::Word);
    lemma_trim_end_ends_at_edge(trim_start(fragment, Edge::Word), Edge::Word);
    assert(unparted(token));
    assert(token.len() > 0 ==> head.len() == 1 && head[0] == token);
    assert(token.len() == 0 ==> head.len() == 0);
    let none = Seq::<char>::empty();
    if text.len() == 0 {
        assert(all == head);
    } else if separator(text[0]) {
        let tail = tokens_after(none, text.skip(1));
        lemma_tokens_after_unparted(none, text.skip(1));
        assert(all == head + tail);
        assert forall|i: int| 0 <= i < all.len() implies unparted(#[trigger] all[i]) by {
            if i >= head.len() {
                assert(all[i] == tail[i - head.len()]);
            }
        }
    } else {
        lemma_tokens_after_unparted(fragment.push(text[0]), text.skip(1));
        assert(all == tokens_after(fragment.push(text[0]), text.skip(1)));
    }
}

/// No token holds a comma or white space.
pub proof fn lemma_tokens_unparted(text: Seq<char>)
    ensures
        forall|i: int| 0 <= i < tokens_of(text).len() ==> unparted(#[trigger] tokens_of(text)[i]),
{
    lemma_tokens_after_unparted(Seq::empty(), text);
}

/// A text without a separator is one fragment: read after `fragment`, it
/// gives what the two give as one.
pub proof fn lemma_tokens_of_one_fragment(fragment: Seq<char>, text: Seq<char>)
    requires
        unparted(text),
    ensures
        tokens_after(fragment, text) == token_of(fragment + text),
    decreases text.len(),
{
    if text.len() == 0 {
        assert(fragment + text =~= fragment);
    } else {
        lemma_tokens_of_one_fragment(fragment.push(text[0]), text.skip(1));
        assert(fragment.push(text[0]) + text.skip(1) =~= fragment + text);
    }
}

/// A text without a separator gives one token, itself stripped to its
/// word edges, or none where that leaves nothing.
pub proof fn lemma_tokens_of_unparted_text(text: Seq<char>)
    requires
        unparted(text),
    ensures
        tokens_of(text) == token_of(text),
{
    lemma_tokens_of_one_fragment(Seq::empty(), text);
    assert(Seq::<char>::empty() + text =~= text);
}

/// What is read up to a separator does not depend on what follows it.
pub proof fn lemma_tokens_after_parted_text(
    fragment: Seq<char>,
    before: Seq<char>,
    c: char,
    after: Seq<char>,
)
    requires
        separator(c),
    ensures
        tokens_after(fragment, before.push(c) + after) == tokens_after(fragment, before)
            + tokens_of(after),
    decreases before.len(),
{
    let none = Seq::<char>::empty();
    let whole = before.push(c) + after;
    if before.len() == 0 {
        assert(whole.skip(1) =~= after);
    } else {
        assert(whole.skip(1) =~= before.skip(1).push(c) + after);
        if separator(before[0]) {
            lemma_tokens_after_parted_text(none, before.skip(1), c, after);
            assert(token_of(fragment) + (tokens_after(none, before.skip(1)) + tokens_of(after))
                =~= (token_of(fragment) + tokens_after(none, before.skip(1))) + tokens_of(after));
        } else {
            lemma_tokens_after_parted_text(fragment.push(before[0]), before.skip(1), c, after);
        }
    }
}

/// A separator parts a text: the tokens of the whole are those of what
/// stands before it, then those of what stands after it.
pub proof fn lemma_tokens_of_parted_text(before: Seq<char>, c: char, after: Seq<char>)
    requires
        separator(c),
    ensures
        tokens_of(before.push(c) + after) == tokens_of(before) + tokens_of(after),
{
    lemma_tokens_after_parted_text(Seq::empty(), before, c, after);
}

/// Appends to `tokens` what the fragment `from..to` of `text` gives.
fn push_token(tokens: &mut Vec<String>, text: &str, from: usize, to: usize)
    requires
        from <= to <= text@.len(),
    ensures
        words_of(final(tokens)@) == words_of(old(tokens)@) + token_of(
            text@.subrange(from as int, to as int),
        ),
{
    let ends: (usize, usize) = trim_range(text, from, to, Edge::Word);
    if ends.0 < ends.1 {
        let token: String = text.substring_char(ends.0, ends.1).to_owned();
        tokens.push(token);
        proof {
            assert(words_of(tokens@) =~= words_of(old(tokens)@) + seq![token@]);
        }
    } else {
        proof {
            assert(words_of(tokens@) =~= words_of(old(tokens)@) + Seq::<Seq<char>>::empty());
        }
    }
}

/// Cuts a text into its tokens, as it stands: no character is changed.
pub fn split_tokens(text: &str) -> (tokens: Vec<String>)
    ensures
        words_of(tokens@) == tokens_of(text@),
        forall|i: int|
            0 <= i < tokens@.len() ==> well_edged(#[trigger] tokens@[i]@) && unparted(tokens@[i]@),
{
    let n: usize = text.unicode_len();
    let mut tokens: Vec<String> = Vec::new();
    let mut start: usize = 0;
    let mut i: usize = 0;
    proof {
        assert(text@.skip(0) =~= text@);
        assert(text@.subrange(0, 0) =~= Seq::<char>::empty());
        assert(words_of(tokens@) =~= Seq::<Seq<char>>::empty());
        assert(words_of(tokens@) + tokens_of(text@) =~= tokens_of(text@));
    }
    while i < n
        invariant
            n == text@.len(),
            start <= i <= n,
            words_of(tokens@) + tokens_after(
                text@.subrange(start as int, i as int),
                text@.skip(i as int),
            ) == tokens_of(text@),
        decreases n - i,
    {
        let c: char = text.get_char(i);
        let ghost fragment = text@.subrange(start as int, i as int);
        let ghost before = words_of(tokens@);
        proof {
            assert(text@.skip(i as int).skip(1) =~= text@.skip(i + 1));
            assert(text@.skip(i as int)[0] == c);
        }
        if c == ',' || is_whitespace(c) {
            push_token(&mut tokens, text, start, i);
            start = i + 1;
            proof {
                assert(text@.subrange(i + 1, i + 1) =~= Seq::<char>::empty());
                assert((before + token_of(fragment)) + tokens_after(
                    Seq::empty(),
                    text@.skip(i + 1),
                ) =~= before + (token_of(fragment) + tokens_after(
                    Seq::empty(),
                    text@.skip(i + 1),
                )));
            }
        } else {
            proof {
                assert(fragment.push(c) =~= text@.subrange(start as int, i + 1));
            }
        }
        i = i + 1;
    }
    push_token(&mut tokens, text, start, n);
    proof {
        lemma_tokens_well_edged(text@);
        lemma_tokens_unparted(text@);
        assert forall|i: int| 0 <= i < tokens@.len() implies well_edged(#[trigger] tokens@[i]@)
            && unparted(tokens@[i]@) by {
            assert(tokens@[i]@ == words_of(tokens@)[i]);
        }
    }
    tokens
}

/// Cuts a line into its tokens after putting it into lower case.
pub fn tokenize(line: &str) -> (tokens: Vec<String>)
    ensures
        words_of(tokens@) == tokens_of(lowercase(line@)),
        forall|i: int|
            0 <= i < tokens@.len() ==> well_edged(#[trigger] tokens@[i]@) && unparted(tokens@[i]@),
{
    let lowered: String = to_lowercase(line);
    split_tokens(lowered.as_str())
}

/// A proposal to replace a token that the dictionary does not know.
#[derive(Clone, Debug)]
pub struct Suggestion {
    /// The token as it was read.
    pub token: String,
    /// The nearest word of the dictionary.
    pub replacement: String,
    /// The Levenshtein distance between the two.
    pub distance: usize,
}

/// A suggestion as plain values.
pub struct Proposal {
    pub token: Seq<char>,
    pub replacement: Seq<char>,
    pub distance: nat,
}

impl View for Suggestion {
    type V = Proposal;

    open spec fn view(&self) -> Proposal {
        Proposal { token: self.token@, replacement: self.replacement@, distance: self.distance as nat }
    }
}

/// The proposals that a sequence of suggestions holds.
pub open spec fn proposals_of(suggestions: Seq<Suggestion>) -> Seq<Proposal> {
    Seq::new(suggestions.len(), |i: int| suggestions[i]@)
}

/// What checking one token gives. A token that is in the dictionary gives
/// nothing. Any other gives the first nearest word with its distance,
/// unless that distance is zero or the dictionary has no word.
pub open spec fn proposal_for(token: Seq<char>, words: Seq<Seq<char>>) -> Seq<Proposal> {
    let k = nearest_index(token, words);
    if words.contains(token) || words.len() == 0 || levenshtein(token, words[k]) == 0 {
        Seq::empty()
    } else {
        seq![
            Proposal {
                token: token,
                replacement: words[k],
                distance: levenshtein(token, words[k]),
            },
        ]
    }
}

/// What checking a sequence of tokens gives: the proposals of each, in
/// the order of the tokens.
pub open spec fn proposals_for(tokens: Seq<Seq<char>>, words: Seq<Seq<char>>) -> Seq<Proposal>
    decreases tokens.len(),
{
    if tokens.len() == 0 {
        Seq::empty()
    } else {
        proposals_for(tokens.drop_last(), words) + proposal_for(tokens.last(), words)
    }
}

/// Checking one token alone gives what that token gives.
pub proof fn lemma_single_token(token: Seq<char>, words: Seq<Seq<char>>)
    ensures
        proposals_for(seq![token], words) == proposal_for(token, words),
{
    let none = Seq::<Seq<char>>::empty();
    assert(seq![token].drop_last() =~= none);
    assert(seq![token].last() == token);
    assert(proposals_for(none, words) =~= Seq::<Proposal>::empty());
    assert(proposals_for(seq![token], words) =~= proposal_for(token, words));
}

/// A token that stands in the dictionary gives no proposal.
pub proof fn lemma_known_token_is_passed(token: Seq<char>, words: Seq<Seq<char>>)
    requires
        words.contains(token),
    ensures
        proposal_for(token, words).len() == 0,
        proposals_for(seq![token], words).len() == 0,
{
    lemma_single_token(token, words);
}

/// A token that does not stand in a dictionary with at least one word
/// gives exactly one proposal. Its distance is the least distance from
/// the token to any word, it is more than zero, and its replacement is a
/// word at that distance: the first such word.
pub proof fn lemma_unknown_token_is_matched(token: Seq<char>, words: Seq<Seq<char>>)
    requires
        !words.contains(token),
        words.len() > 0,
    ensures
        proposal_for(token, words).len() == 1,
        proposals_for(seq![token], words).len() == 1,
        proposal_for(token, words)[0].token == token,
        proposal_for(token, words)[0].distance > 0,
        forall|j: int|
            0 <= j < words.len() ==> proposal_for(token, words)[0].distance <= levenshtein(
                token,
                #[trigger] words[j],
            ),
        exists|k: int|
            0 <= k < words.len() && #[trigger] words[k] == proposal_for(token, words)[0].replacement
                && levenshtein(token, words[k]) == proposal_for(token, words)[0].distance,
        is_first_nearest(token, words, nearest_index(token, words)),
        proposal_for(token, words)[0].replacement == words[nearest_index(token, words)],
{
    let k = nearest_index(token, words);
    lemma_nearest_index_is_first_nearest(token, words);
    lemma_distance_zero_iff_equal(token, words[k]);
    assert(words.contains(words[k]));
    lemma_single_token(token, words);
}

/// Tokens that all stand in the dictionary give no proposal.
pub proof fn lemma_known_tokens_are_passed(tokens: Seq<Seq<char>>, words: Seq<Seq<char>>)
    requires
        forall|i: int| 0 <= i < tokens.len() ==> words.contains(#[trigger] tokens[i]),
    ensures
        proposals_for(tokens, words).len() == 0,
    decreases tokens.len(),
{
    if tokens.len() > 0 {
        let init = tokens.drop_last();
        assert forall|i: int| 0 <= i < init.len() implies words.contains(#[trigger] init[i]) by {
            assert(init[i] == tokens[i]);
        }
        lemma_known_tokens_are_passed(init, words);
    }
}

/// Tokens of which none stands in a dictionary with at least one word
/// give one proposal each, in their order: the one that each gives alone.
pub proof fn lemma_unknown_tokens_are_matched(tokens: Seq<Seq<char>>, words: Seq<Seq<char>>)
    requires
        words.len() > 0,
        forall|i: int| 0 <= i < tokens.len() ==> !words.contains(#[trigger] tokens[i]),
    ensures
        proposals_for(tokens, words).len() == tokens.len(),
        forall|i: int|
            0 <= i < tokens.len() ==> proposal_for(#[trigger] tokens[i], words).len() == 1,
        forall|i: int|
            0 <= i < tokens.len() ==> (#[trigger] proposals_for(tokens, words)[i]) == proposal_for(
                tokens[i],
                words,
            )[0],
    decreases tokens.len(),
{
    assert forall|i: int| 0 <= i < tokens.len() implies proposal_for(
        #[trigger] tokens[i],
        words,
    ).len() == 1 by {
        lemma_unknown_token_is_matched(tokens[i], words);
    }
    if tokens.len() > 0 {
        let init = tokens.drop_last();
        assert forall|i: int| 0 <= i < init.len() implies !words.contains(#[trigger] init[i]) by {
            assert(init[i] == tokens[i]);
        }
        lemma_unknown_tokens_are_matched(init, words);
        lemma_unknown_token_is_matched(tokens.last(), words);
        let all = proposals_for(tokens, words);
        assert(all == proposals_for(init, words) + proposal_for(tokens.last(), words));
        assert forall|i: int| 0 <= i < tokens.len() implies (#[trigger] all[i]) == proposal_for(
            tokens[i],
            words,
        )[0] by {
            if i < init.len() {
                assert(init[i] == tokens[i]);
                assert(all[i] == proposals_for(init, words)[i]);
            } else {
                assert(tokens[i] == tokens.last());
                assert(all[i] == proposal_for(tokens.last(), words)[0]);
            }
        }
    }
}

/// Checks each token against the dictionary and returns the suggestions
/// for those it does not hold, in the order of the tokens.
pub fn check(tokens: &Vec<String>, dict: &Dictionary) -> (suggestions: Vec<Suggestion>)
    ensures
        proposals_of(suggestions@) == proposals_for(words_of(tokens@), dict@),
{
    let mut suggestions: Vec<Suggestion> = Vec::new();
    let n: usize = tokens.len();
    let ghost given = words_of(tokens@);
    let mut i: usize = 0;
    proof {
        assert(proposals_of(suggestions@) =~= Seq::<Proposal>::empty());
        assert(given.take(0) =~= Seq::<Seq<char>>::empty());
    }
    while i < n
        invariant
            n == tokens@.len(),
            given == words_of(tokens@),
            i <= n,
            proposals_of(suggestions@) == proposals_for(given.take(i as int), dict@),
        decreases n - i,
    {
        let token: &str = tokens[i].as_str();
        let ghost before = proposals_of(suggestions@);
        proof {
            assert(given.take(i + 1).drop_last() =~= given.take(i as int));
            assert(given.take(i + 1).last() == token@);
        }
        let mut added: bool = false;
        if !dict.contains(token) {
            match dict.nearest_neighbor(token) {
                Some((distance, replacement)) => {
                    if distance > 0 {
                        let suggestion = Suggestion {
                            token: tokens[i].clone(),
                            replacement,
                            distance,
                        };
                        suggestions.push(suggestion);
                        added = true;
                        proof {
                            assert(proposals_of(suggestions@) =~= before + seq![suggestion@]);
                        }
                    }
                },
                None => {},
            }
        }
        proof {
            if !added {
                assert(proposals_of(suggestions@) =~= before + Seq::<Proposal>::empty());
            }
        }
        i = i + 1;
    }
    proof {
        assert(given.take(n as int) =~= given);
    }
    suggestions
}

/// Checks the spelling of a line: its tokens, in lower case, against the
/// dictionary.
pub fn spellcheck(line: &str, dict: &Dictionary) -> (suggestions: Vec<Suggestion>)
    ensures
        proposals_of(suggestions@) == proposals_for(tokens_of(lowercase(line@)), dict@),
{
    let tokens: Vec<String> = tokenize(line);
    check(&tokens, dict)
}

} // verus!
