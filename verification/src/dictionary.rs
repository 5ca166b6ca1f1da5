//! The dictionary: the known words, kept in ascending order.
use crate::distance::{edit_distance, levenshtein};
use crate::order::{
    lemma_lex_le_antisymmetric, lemma_lex_le_reflexive, lemma_lex_le_total,
    lemma_lex_le_transitive, lex_le, precedes_or_equals, sorted,
};
use vstd::prelude::*;
use vstd::seq_lib::*;

verus! {

/// The character sequences of a sequence of strings.
pub open spec fn words_of(strings: Seq<String>) -> Seq<Seq<char>> {
    Seq::new(strings.len(), |i: int| strings[i]@)
}

/// The index of the word of `words` that is nearest to `word`: among the
/// words at the least distance, the one that stands first. Zero for an
/// empty sequence.
pub open spec fn nearest_index(word: Seq<char>, words: Seq<Seq<char>>) -> int
    decreases words.len(),
{
    if words.len() <= 1 {
        0
    } else {
        let before = nearest_index(word, words.drop_last());
        if levenshtein(word, words.last()) < levenshtein(word, words[before]) {
            words.len() - 1
        } else {
            before
        }
    }
}

/// `k` is the place of a word at the least distance from `word`, and no
/// word before it is as near.
pub open spec fn is_first_nearest(word: Seq<char>, words: Seq<Seq<char>>, k: int) -> bool {
    &&& 0 <= k < words.len()
    &&& forall|j: int|
        0 <= j < words.len() ==> levenshtein(word, words[k]) <= levenshtein(word, #[trigger] words[j])
    &&& forall|j: int|
        0 <= j < k ==> levenshtein(word, words[k]) < levenshtein(word, #[trigger] words[j])
}

/// In a sequence that is not empty, `nearest_index` is the place of the
/// first word at the least distance.
pub proof fn lemma_nearest_index_is_first_nearest(word: Seq<char>, words: Seq<Seq<char>>)
    requires
        words.len() > 0,
    ensures
        is_first_nearest(word, words, nearest_index(word, words)),
    decreases words.len(),
{
    if words.len() > 1 {
        let init = words.drop_last();
        lemma_nearest_index_is_first_nearest(word, init);
        let before = nearest_index(word, init);
        let k = nearest_index(word, words);
        assert forall|j: int| 0 <= j < words.len() implies levenshtein(word, words[k])
            <= levenshtein(word, #[trigger] words[j]) by {
            if j < init.len() {
                assert(init[j] == words[j]);
            }
        }
        assert forall|j: int| 0 <= j < k implies levenshtein(word, words[k]) < levenshtein(
            word,
            #[trigger] words[j],
        ) by {
            assert(init[j] == words[j]);
        }
    }
}

/// At most one place is that of the first nearest word.
pub proof fn lemma_first_nearest_unique(word: Seq<char>, words: Seq<Seq<char>>, k: int, l: int)
    requires
        is_first_nearest(word, words, k),
        is_first_nearest(word, words, l),
    ensures
        k == l,
{
    let dk = levenshtein(word, words[k]);
    let dl = levenshtein(word, words[l]);
    assert(dk <= dl && dl <= dk);
}

/// Putting `x` into `s` at place `p` adds one `x` to what `s` holds.
proof fn lemma_insert_adds_one(s: Seq<Seq<char>>, p: int, x: Seq<char>)
    requires
        0 <= p <= s.len(),
    ensures
        s.insert(p, x).to_multiset() =~= s.to_multiset().insert(x),
{
    let t = s.insert(p, x);
    assert(t.remove(p) =~= s);
    to_multiset_remove(t, p);
    assert(t[p] == x);
    t.to_multiset_ensures();
    assert(t.contains(x));
}

/// A word put between the words that come before it and those that come
/// after it leaves the sequence in order.
proof fn lemma_insert_keeps_sorted(s: Seq<Seq<char>>, p: int, x: Seq<char>)
    requires
        sorted(s),
        0 <= p <= s.len(),
        p > 0 ==> lex_le(s[p - 1], x),
        forall|j: int| p <= j < s.len() ==> lex_le(x, #[trigger] s[j]),
    ensures
        sorted(s.insert(p, x)),
{
    let t = s.insert(p, x);
    assert forall|i: int, j: int| 0 <= i <= j < t.len() implies lex_le(
        #[trigger] t[i],
        #[trigger] t[j],
    ) by {
        if i == p {
            if j == p {
                lemma_lex_le_reflexive(x);
            } else {
                assert(t[j] == s[j - 1]);
            }
        } else if i < p {
            assert(t[i] == s[i]);
            assert(lex_le(s[i], s[p - 1]));
            lemma_lex_le_transitive(s[i], s[p - 1], x);
            if j > p {
                assert(t[j] == s[j - 1]);
                lemma_lex_le_transitive(s[i], x, s[j - 1]);
            } else if j < p {
                assert(t[j] == s[j]);
            }
        } else {
            assert(t[i] == s[i - 1]);
            assert(t[j] == s[j - 1]);
        }
    }
}

/// The known words, in ascending order by code point. A word may occur
/// more than once.
pub struct Dictionary {
    words: Vec<String>,
}

impl View for Dictionary {
    type V = Seq<Seq<char>>;

    closed spec fn view(&self) -> Seq<Seq<char>> {
        words_of(self.words@)
    }
}

impl Dictionary {
    #[verifier::type_invariant]
    spec fn in_order(&self) -> bool {
        sorted(words_of(self.words@))
    }

    /// Builds the dictionary of the given lines: the same words, each as
    /// often as it was given, in ascending order. The lines are taken as
    /// they are: their case is kept and nothing is trimmed. Lines that
    /// come in ascending order are each placed with one comparison.
    pub fn load(lines: &Vec<String>) -> (dict: Dictionary)
        ensures
            sorted(dict@),
            dict@.to_multiset() == words_of(lines@).to_multiset(),
    {
        let ghost given = words_of(lines@);
        let n: usize = lines.len();
        let mut words: Vec<String> = Vec::new();
        let mut i: usize = 0;
        proof {
            assert(words_of(words@) =~= given.take(0));
        }
        while i < n
            invariant
                given == words_of(lines@),
                n == given.len(),
                i <= n,
                sorted(words_of(words@)),
                words_of(words@).to_multiset() == given.take(i as int).to_multiset(),
            decreases n - i,
        {
            let ghost placed = words_of(words@);
            let line: String = lines[i].clone();
            let mut p: usize = words.len();
            while p > 0 && !precedes_or_equals(words[p - 1].as_str(), line.as_str())
                invariant
                    p <= words.len(),
                    placed == words_of(words@),
                    forall|j: int| p <= j < words.len() ==> lex_le(line@, #[trigger] placed[j]),
                decreases p,
            {
                proof {
                    lemma_lex_le_total(placed[p - 1], line@);
                }
                p = p - 1;
            }
            words.insert(p, line);
            proof {
                assert(given.take(i + 1) =~= given.take(i as int).push(line@));
                to_multiset_build(given.take(i as int), line@);
                assert(words_of(words@) =~= placed.insert(p as int, line@));
                lemma_insert_adds_one(placed, p as int, line@);
                lemma_insert_keeps_sorted(placed, p as int, line@);
            }
            i = i + 1;
        }
        proof {
            assert(given.take(n as int) =~= given);
        }
        Dictionary { words }
    }

    /// The number of words. The words of every dictionary are in
    /// ascending order: a caller learns it here.
    pub fn len(&self) -> (n: usize)
        ensures
            n == self@.len(),
            sorted(self@),
    {
        proof {
            use_type_invariant(self);
        }
        self.words.len()
    }

    /// Whether the dictionary has no word.
    pub fn is_empty(&self) -> (r: bool)
        ensures
            r == (self@.len() == 0),
    {
        self.words.len() == 0
    }

    /// The word at place `i` of the ascending order.
    pub fn word(&self, i: usize) -> (w: &str)
        requires
            i < self@.len(),
        ensures
            w@ == self@[i as int],
    {
        self.words[i].as_str()
    }

    /// Whether `word` is one of the words, character for character. The
    /// search halves the range of places at each step.
    pub fn contains(&self, word: &str) -> (found: bool)
        ensures
            found == self@.contains(word@),
    {
        proof {
            use_type_invariant(self);
        }
        let ghost words = self@;
        let mut lo: usize = 0;
        let mut hi: usize = self.words.len();
        while lo < hi
            invariant
                words == words_of(self.words@),
                sorted(words),
                lo <= hi <= words.len(),
                forall|j: int| 0 <= j < lo ==> !lex_le(word@, #[trigger] words[j]),
                forall|j: int| hi <= j < words.len() ==> lex_le(word@, #[trigger] words[j]),
            decreases hi - lo,
        {
            let mid: usize = lo + (hi - lo) / 2;
            if precedes_or_equals(word, self.words[mid].as_str()) {
                proof {
                    assert forall|j: int| mid <= j < words.len() implies lex_le(
                        word@,
                        #[trigger] words[j],
                    ) by {
                        assert(lex_le(words[mid as int], words[j]));
                        lemma_lex_le_transitive(word@, words[mid as int], words[j]);
                    }
                }
                hi = mid;
            } else {
                proof {
                    assert forall|j: int| 0 <= j < mid + 1 implies !lex_le(
                        word@,
                        #[trigger] words[j],
                    ) by {
                        assert(lex_le(words[j], words[mid as int]));
                        if lex_le(word@, words[j]) {
                            lemma_lex_le_transitive(word@, words[j], words[mid as int]);
                        }
                    }
                }
                lo = mid + 1;
            }
        }
        let found: bool = lo < self.words.len() && precedes_or_equals(
            self.words[lo].as_str(),
            word,
        );
        proof {
            lemma_lex_le_reflexive(word@);
            if found {
                lemma_lex_le_antisymmetric(words[lo as int], word@);
            } else {
                assert forall|j: int| 0 <= j < words.len() implies words[j] != word@ by {
                    if j > lo && words[j] == word@ {
                        assert(lex_le(words[lo as int], words[j]));
                    }
                }
            }
        }
        found
    }

    /// The nearest word to `word` and its distance: the word at
    /// `nearest_index`, which is the first in ascending order among the
    /// words at the least distance. `None` exactly when the dictionary is
    /// empty.
    pub fn nearest_neighbor(&self, word: &str) -> (near: Option<(usize, String)>)
        ensures
            near is None <==> self@.len() == 0,
            near matches Some((distance, found)) ==> {
                let k = nearest_index(word@, self@);
                &&& is_first_nearest(word@, self@, k)
                &&& found@ == self@[k]
                &&& distance == levenshtein(word@, self@[k])
            },
    {
        let n: usize = self.words.len();
        if n == 0 {
            return None;
        }
        let ghost words = self@;
        let mut best: usize = 0;
        let mut least: usize = edit_distance(word, self.words[0].as_str());
        let mut i: usize = 1;
        while i < n
            invariant
                words == words_of(self.words@),
                n == words.len(),
                1 <= i <= n,
                best == nearest_index(word@, words.take(i as int)),
                best < i,
                least == levenshtein(word@, words[best as int]),
            decreases n - i,
        {
            let d: usize = edit_distance(word, self.words[i].as_str());
            proof {
                let upto = words.take(i + 1);
                assert(upto.drop_last() =~= words.take(i as int));
                assert(upto.last() == words[i as int]);
                assert(upto[best as int] == words[best as int]);
            }
            if d < least {
                best = i;
                least = d;
            }
            i = i + 1;
        }
        proof {
            assert(words.take(n as int) =~= words);
            lemma_nearest_index_is_first_nearest(word@, words);
        }
        Some((least, self.words[best].clone()))
    }
}

} // verus!
