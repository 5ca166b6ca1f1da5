//! The commands of an interactive session, and what each input asks for.
//!
//! The front end reads a line and performs what is decided here; nothing
//! in this module reads or prints.
use crate::dictionary::Dictionary;
use crate::matcher::{proposals_for, proposals_of, spellcheck, tokens_of, Suggestion};
use crate::order::same_text;
use crate::trim::{trim, trimmed, Edge};
use crate::unicode::{lowercase, to_lowercase};
use vstd::prelude::*;

verus! {

/// What came of reading one line of input.
#[derive(Debug)]
pub enum Input {
    /// The read failed.
    Failed,
    /// The input has ended: there is no further line.
    Closed,
    /// A line, with or without its line ending.
    Line(String),
}

/// What an input is.
#[derive(Clone, Copy, Debug, PartialEq, Eq, Structural)]
pub enum Query {
    /// The input could not be read.
    Error,
    /// Text whose spelling is to be checked.
    Text,
    /// The session is to end.
    Quit,
    /// The screen is to be cleared.
    Clear,
}

/// What the front end is to do next.
#[derive(Debug)]
pub enum Action {
    /// End the session, with or without success.
    Exit { success: bool },
    /// Clear the screen and go on.
    Clear,
    /// Print these suggestions, in this order, and go on.
    Report(Vec<Suggestion>),
}

/// The query that a keyword stands for: `:q` and `:quit` end the session,
/// `:c` and `:clear` clear the screen, and anything else is text.
pub open spec fn keyword_query(keyword: Seq<char>) -> Query {
    if keyword == ":q"@ || keyword == ":quit"@ {
        Query::Quit
    } else if keyword == ":c"@ || keyword == ":clear"@ {
        Query::Clear
    } else {
        Query::Text
    }
}

/// The query of a line: that of its keyword, which is the line without
/// the white space around it, in lower case.
pub open spec fn line_query(line: Seq<char>) -> Query {
    keyword_query(lowercase(trimmed(line, Edge::Visible)))
}

/// The query of an input. A failed read is an error, and the end of the
/// input ends the session as a command to quit does.
pub open spec fn input_query(input: Input) -> Query {
    match input {
        Input::Failed => Query::Error,
        Input::Closed => Query::Quit,
        Input::Line(line) => line_query(line@),
    }
}

/// Decides `keyword_query`: the keyword is compared as it stands.
pub fn query_of_keyword(keyword: &str) -> (query: Query)
    ensures
        query == keyword_query(keyword@),
{
    if same_text(keyword, ":q") || same_text(keyword, ":quit") {
        Query::Quit
    } else if same_text(keyword, ":c") || same_text(keyword, ":clear") {
        Query::Clear
    } else {
        Query::Text
    }
}

/// Tells a command from text, whatever its case and the white space around it.
pub fn query_of_line(line: &str) -> (query: Query)
    ensures
        query == line_query(line@),
{
    let keyword: String = to_lowercase(trim(line, Edge::Visible));
    query_of_keyword(keyword.as_str())
}

/// Says what an input is.
pub fn read_query(input: &Input) -> (query: Query)
    ensures
        query == input_query(*input),
{
    match input {
        Input::Failed => Query::Error,
        Input::Closed => Query::Quit,
        Input::Line(line) => query_of_line(line.as_str()),
    }
}

/// Decides what the front end does with an input. A failed read ends the
/// session without success, a command to quit or the end of the input
/// ends it with success, and a command to clear clears the screen: none
/// of these is checked as text. Any other line is checked against the
/// dictionary.
pub fn respond(input: &Input, dict: &Dictionary) -> (action: Action)
    ensures
        match input_query(*input) {
            Query::Error => action == (Action::Exit { success: false }),
            Query::Quit => action == (Action::Exit { success: true }),
            Query::Clear => action is Clear,
            Query::Text => input matches Input::Line(line) && action matches Action::Report(found)
                && proposals_of(found@) == proposals_for(tokens_of(lowercase(line@)), dict@),
        },
{
    match input {
        Input::Failed => Action::Exit { success: false },
        Input::Closed => Action::Exit { success: true },
        Input::Line(line) => match query_of_line(line.as_str()) {
            Query::Quit => Action::Exit { success: true },
            Query::Clear => Action::Clear,
            _ => Action::Report(spellcheck(line.as_str(), dict)),
        },
    }
}

} // verus!
