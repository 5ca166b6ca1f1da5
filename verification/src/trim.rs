//! Stripping the ends of a string down to the characters that count.
use crate::unicode::{alphabetic, is_alphabetic, is_whitespace, whitespace};
use vstd::prelude::*;
use vstd::string::*;

verus! {

/// A character that may stand at the end of a word: a letter or an apostrophe.
pub open spec fn word_char(c: char) -> bool {
    alphabetic(c) || c == '\''
}

/// The characters at which stripping stops.
#[derive(Clone, Copy, Debug)]
pub enum Edge {
    /// A letter or an apostrophe: the edge of a word.
    Word,
    /// Anything but white space: the edge of the visible text.
    Visible,
}

impl Edge {
    /// Whether `c` is a character at which stripping stops.
    pub open spec fn holds(self, c: char) -> bool {
        match self {
            Edge::Word => word_char(c),
            Edge::Visible => !whitespace(c),
        }
    }

    /// Decides `holds`.
    pub fn test(self, c: char) -> (r: bool)
        ensures
            r == self.holds(c),
    {
        match self {
            Edge::Word => c == '\'' || is_alphabetic(c),
            Edge::Visible => !is_whitespace(c),
        }
    }
}

/// `s` without its leading characters that are no edge.
pub open spec fn trim_start(s: Seq<char>, edge: Edge) -> Seq<char>
    decreases s.len(),
{
    if s.len() == 0 || edge.holds(s[0]) {
        s
    } else {
        trim_start(s.skip(1), edge)
    }
}

/// `s` without its trailing characters that are no edge.
pub open spec fn trim_end(s: Seq<char>, edge: Edge) -> Seq<char>
    decreases s.len(),
{
    if s.len() == 0 || edge.holds(s.last()) {
        s
    } else {
        trim_end(s.drop_last(), edge)
    }
}

/// `s` stripped at both ends. What stands between the two edges is kept
/// as it is; a string without an edge character becomes empty.
pub open spec fn trimmed(s: Seq<char>, edge: Edge) -> Seq<char> {
    trim_end(trim_start(s, edge), edge)
}

/// What is left after stripping the front is empty or begins at an edge.
pub proof fn lemma_trim_start_begins_at_edge(s: Seq<char>, edge: Edge)
    ensures
        trim_start(s, edge).len() <= s.len(),
        trim_start(s, edge).len() > 0 ==> edge.holds(trim_start(s, edge)[0]),
    decreases s.len(),
{
    if !(s.len() == 0 || edge.holds(s[0])) {
        lemma_trim_start_begins_at_edge(s.skip(1), edge);
    }
}

/// Stripping the back leaves the front as it was, and what is left is
/// empty or ends at an edge.
pub proof fn lemma_trim_end_ends_at_edge(s: Seq<char>, edge: Edge)
    ensures
        trim_end(s, edge).len() <= s.len(),
        trim_end(s, edge) == s.take(trim_end(s, edge).len() as int),
        trim_end(s, edge).len() > 0 ==> edge.holds(trim_end(s, edge).last()),
    decreases s.len(),
{
    if s.len() == 0 || edge.holds(s.last()) {
        assert(s.take(s.len() as int) =~= s);
    } else {
        let t = s.drop_last();
        lemma_trim_end_ends_at_edge(t, edge);
        let n = trim_end(t, edge).len() as int;
        assert(t.take(n) =~= s.take(n));
    }
}

/// A stripped string is empty, or it begins and ends at an edge.
pub proof fn lemma_trimmed_has_edges(s: Seq<char>, edge: Edge)
    ensures
        trimmed(s, edge).len() > 0 ==> edge.holds(trimmed(s, edge)[0]) && edge.holds(
            trimmed(s, edge).last(),
        ),
{
    let front = trim_start(s, edge);
    lemma_trim_start_begins_at_edge(s, edge);
    lemma_trim_end_ends_at_edge(front, edge);
}

/// A stripped string is a part of the string it was stripped from: what
/// stands between the first edge and the last.
pub proof fn lemma_trimmed_is_part(s: Seq<char>, edge: Edge)
    ensures
        trim_start(s, edge) == s.skip(s.len() - trim_start(s, edge).len()),
        trimmed(s, edge) == s.subrange(
            s.len() - trim_start(s, edge).len(),
            s.len() - trim_start(s, edge).len() + trimmed(s, edge).len(),
        ),
    decreases s.len(),
{
    let front = trim_start(s, edge);
    lemma_trim_start_begins_at_edge(s, edge);
    lemma_trim_end_ends_at_edge(front, edge);
    if s.len() == 0 || edge.holds(s[0]) {
        assert(s.skip(0) =~= s);
    } else {
        lemma_trimmed_is_part(s.skip(1), edge);
        let rest = s.skip(1);
        lemma_trim_start_begins_at_edge(rest, edge);
        assert(rest.skip(rest.len() - front.len()) =~= s.skip(s.len() - front.len()));
    }
    let a = s.len() - front.len();
    assert(s.skip(a).take(trimmed(s, edge).len() as int) =~= s.subrange(
        a,
        a + trimmed(s, edge).len(),
    ));
}

/// Strips the characters `from..to` of `text` at both ends and returns
/// the places between which the stripped part stands. Where nothing is
/// left, both are the place at which stripping the front came to an end.
pub fn trim_range(text: &str, from: usize, to: usize, edge: Edge) -> (ends: (usize, usize))
    requires
        from <= to <= text@.len(),
    ensures
        from <= ends.0 <= ends.1 <= to,
        text@.subrange(ends.0 as int, ends.1 as int) == trimmed(
            text@.subrange(from as int, to as int),
            edge,
        ),
        ends.0 == to - trim_start(text@.subrange(from as int, to as int), edge).len(),
        ends.1 == ends.0 + trimmed(text@.subrange(from as int, to as int), edge).len(),
{
    let mut a: usize = from;
    while a < to && !edge.test(text.get_char(a))
        invariant
            from <= a <= to <= text@.len(),
            trim_start(text@.subrange(from as int, to as int), edge) == trim_start(
                text@.subrange(a as int, to as int),
                edge,
            ),
        decreases to - a,
    {
        proof {
            assert(text@.subrange(a as int, to as int).skip(1) =~= text@.subrange(
                a + 1,
                to as int,
            ));
        }
        a = a + 1;
    }
    let mut b: usize = to;
    while b > a && !edge.test(text.get_char(b - 1))
        invariant
            a <= b <= to <= text@.len(),
            trimmed(text@.subrange(from as int, to as int), edge) == trim_end(
                text@.subrange(a as int, b as int),
                edge,
            ),
        decreases b,
    {
        proof {
            assert(text@.subrange(a as int, b as int).drop_last() =~= text@.subrange(
                a as int,
                b - 1,
            ));
        }
        b = b - 1;
    }
    (a, b)
}

/// Strips a string at both ends.
pub fn trim<'a>(text: &'a str, edge: Edge) -> (stripped: &'a str)
    ensures
        stripped@ == trimmed(text@, edge),
{
    let n: usize = text.unicode_len();
    let ends: (usize, usize) = trim_range(text, 0, n, edge);
    proof {
        assert(text@.subrange(0, n as int) =~= text@);
    }
    text.substring_char(ends.0, ends.1)
}

} // verus!
