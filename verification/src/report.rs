//! The line of text that tells a suggestion to the reader.
use crate::matcher::{Proposal, Suggestion};
use vstd::prelude::*;
use vstd::string::*;

verus! {

/// The numeral of a number below ten.
pub open spec fn digit_text(d: nat) -> Seq<char> {
    if d == 0 {
        "0"@
    } else if d == 1 {
        "1"@
    } else if d == 2 {
        "2"@
    } else if d == 3 {
        "3"@
    } else if d == 4 {
        "4"@
    } else if d == 5 {
        "5"@
    } else if d == 6 {
        "6"@
    } else if d == 7 {
        "7"@
    } else if d == 8 {
        "8"@
    } else {
        "9"@
    }
}

/// A number in decimal notation, without leading zeros.
pub open spec fn decimal_text(n: nat) -> Seq<char>
    decreases n,
{
    if n < 10 {
        digit_text(n)
    } else {
        decimal_text(n / 10) + digit_text(n % 10)
    }
}

/// The line that tells a proposal: the token, the word to put in its
/// place, and the distance between them.
pub open spec fn message_text(proposal: Proposal) -> Seq<char> {
    "Suggestion: change \""@ + proposal.token + "\" to \""@ + proposal.replacement
        + "\", distance: "@ + decimal_text(proposal.distance)
}

/// The numeral of a number below ten.
pub fn digit(d: usize) -> (text: &'static str)
    requires
        d < 10,
    ensures
        text@ == digit_text(d as nat),
{
    if d == 0 {
        "0"
    } else if d == 1 {
        "1"
    } else if d == 2 {
        "2"
    } else if d == 3 {
        "3"
    } else if d == 4 {
        "4"
    } else if d == 5 {
        "5"
    } else if d == 6 {
        "6"
    } else if d == 7 {
        "7"
    } else if d == 8 {
        "8"
    } else {
        "9"
    }
}

/// Writes a number in decimal notation.
pub fn decimal(n: usize) -> (text: String)
    ensures
        text@ == decimal_text(n as nat),
    decreases n,
{
    if n < 10 {
        String::from_str(digit(n))
    } else {
        let mut text: String = decimal(n / 10);
        text.append(digit(n % 10));
        text
    }
}

impl Suggestion {
    /// The line that tells this suggestion.
    pub fn message(&self) -> (text: String)
        ensures
            text@ == message_text(self@),
    {
        let mut text: String = String::from_str("Suggestion: change \"");
        text.append(self.token.as_str());
        text.append("\" to \"");
        text.append(self.replacement.as_str());
        text.append("\", distance: ");
        let number: String = decimal(self.distance);
        text.append(number.as_str());
        text
    }
}

} // verus!
