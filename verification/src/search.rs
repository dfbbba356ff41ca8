//! The patterns that declarations are searched with, and the search for them,
//! which the `regex` crate does.

use vstd::prelude::*;
use vstd::string::*;
use crate::graph::ConnectionType;

verus! {

/// The characters that have a meaning of their own in a pattern.
pub open spec fn is_meta_character(c: char) -> bool {
    c == '\\' || c == '.' || c == '+' || c == '*' || c == '?' || c == '(' || c == ')' || c == '|'
        || c == '[' || c == ']' || c == '{' || c == '}' || c == '^' || c == '$' || c == '#' || c
        == '&' || c == '-' || c == '~'
}

/// The text with a backslash put before each of its meta characters: as part
/// of a pattern it matches the text itself and nothing else.
pub open spec fn escaped(text: Seq<char>) -> Seq<char>
    decreases text.len(),
{
    if text.len() == 0 {
        Seq::empty()
    } else if is_meta_character(text.last()) {
        escaped(text.drop_last()).push('\\').push(text.last())
    } else {
        escaped(text.drop_last()).push(text.last())
    }
}

/// Calls `regex::escape`, which copies the text and puts a backslash before
/// each character for which `regex_syntax::is_meta_character` holds. The
/// contract states that result in full; it is taken from the crate's source and
/// not proved here.
#[verifier::external_body]
pub(crate) fn escape(text: &str) -> (quoted: String)
    ensures
        quoted@ == escaped(text@),
{
    regex::escape(text)
}

/// What a search of `text` for `pattern` finds: `None` where the pattern is
/// refused, else the byte offsets at which the successive matches start, in
/// the order of the text.
pub uninterp spec fn regex_match_starts(pattern: Seq<char>, text: Seq<char>) -> Option<Seq<usize>>;

/// Compiles the pattern with `regex::Regex::new` and walks the text with
/// `Regex::find_iter`, keeping `Match::start` of each match.
///
/// The contract gives the outcome a name and claims nothing else of it. What
/// is believed, not proved, is that the outcome depends on the pattern and the
/// text alone.
#[verifier::external_body]
pub(crate) fn match_starts(pattern: &str, text: &str) -> (starts: Option<Vec<usize>>)
    ensures
        match starts {
            Some(found) => regex_match_starts(pattern@, text@) == Some(found@),
            None => regex_match_starts(pattern@, text@) is None,
        },
{
    match regex::Regex::new(pattern) {
        Ok(compiled) => Some(compiled.find_iter(text).map(|found| found.start()).collect()),
        Err(_) => None,
    }
}

/// What must follow a name in a pattern for the name to end there: a character
/// that no name goes on with, or the end of the line.
pub open spec fn name_end() -> Seq<char> {
    "(?:[^0-9A-Za-z_.]|$)"@
}

/// The pattern for the line that declares the anchor `name`: the keyword at
/// the start of a line, one or more spaces, and the name in full.
pub open spec fn anchor_pattern(name: Seq<char>) -> Seq<char> {
    "(?m)^anchor +"@ + escaped(name) + name_end()
}

/// The start of the pattern for a line that declares a connection of the given
/// kind: any indentation, then `conn` for a connection to an anchor, `pickup`
/// or `quest` for one to a terminal node, then one or more spaces.
pub open spec fn connection_keyword(kind: ConnectionType) -> Seq<char> {
    match kind {
        ConnectionType::Branch => "(?m)^[ \\t]*conn +"@,
        ConnectionType::Leaf => "(?m)^[ \\t]*(?:pickup|quest) +"@,
    }
}

/// The pattern for a line that declares a connection of the given kind to
/// `target`.
pub open spec fn connection_pattern(kind: ConnectionType, target: Seq<char>) -> Seq<char> {
    connection_keyword(kind) + escaped(target) + name_end()
}

/// Writes out the pattern for the declaration of the anchor `name`.
pub fn anchor_pattern_for(name: &str) -> (pattern: String)
    ensures
        pattern@ == anchor_pattern(name@),
{
    let mut pattern = String::from_str("(?m)^anchor +");
    let quoted = escape(name);
    pattern.append(quoted.as_str());
    pattern.append("(?:[^0-9A-Za-z_.]|$)");
    pattern
}

/// Writes out the pattern for the declaration of a connection to `target`.
pub fn connection_pattern_for(kind: ConnectionType, target: &str) -> (pattern: String)
    ensures
        pattern@ == connection_pattern(kind, target@),
{
    let mut pattern = match kind {
        ConnectionType::Branch => String::from_str("(?m)^[ \\t]*conn +"),
        ConnectionType::Leaf => String::from_str("(?m)^[ \\t]*(?:pickup|quest) +"),
    };
    let quoted = escape(target);
    pattern.append(quoted.as_str());
    pattern.append("(?:[^0-9A-Za-z_.]|$)");
    pattern
}

} // verus!
