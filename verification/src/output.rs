//! Output routing: where a match is written, and as which line.
//!
//! With an output file configured every match goes to the file as its raw
//! path; without one every match goes to standard output in quoted form.
//! The library builds the lines; writing them is the driver's business.

use crate::config::SearchConfig;
use crate::text::texts;
use vstd::prelude::*;
use vstd::string::*;

verus! {

/// The quoted form of a text: what the standard library's `Debug`
/// formatting of a string slice produces for it.
pub uninterp spec fn debug_quoted(text: Seq<char>) -> Seq<char>;

/// Formats `text` with the standard library's `Debug` formatting of `str`,
/// which puts the text in double quotes and escapes what cannot stand in a
/// string literal. The result depends on the text alone; the contract gives
/// it the name [`debug_quoted`] and says nothing more of it.
#[verifier::external_body]
fn quote(text: &str) -> (quoted: String)
    ensures
        quoted@ == debug_quoted(text@),
{
    format!("{:?}", text)
}

/// A text followed by a line feed.
pub open spec fn line_of(text: Seq<char>) -> Seq<char> {
    text.push('\n')
}

/// Ends a text with a line feed.
pub fn end_line(text: String) -> (line: String)
    ensures
        line@ == line_of(text@),
{
    proof {
        reveal_strlit("\n");
    }
    let line = text.concat("\n");
    assert(line@ =~= line_of(text@));
    line
}

/// The line that a match is written as in the output file.
pub open spec fn file_line() -> spec_fn(Seq<char>) -> Seq<char> {
    |path: Seq<char>| line_of(path)
}

/// The line that a match is written as on standard output.
pub open spec fn stdout_line() -> spec_fn(Seq<char>) -> Seq<char> {
    |path: Seq<char>| line_of(debug_quoted(path))
}

/// The lines to write for a batch of matches, by destination.
#[derive(Debug, PartialEq, Eq)]
pub struct Routed {
    /// Lines to append to the output file, in order.
    pub file_lines: Vec<String>,
    /// Lines to write to standard output, in order.
    pub stdout_lines: Vec<String>,
}

/// Turns matches into the lines to write and says where each goes.
///
/// Routing is exclusive. With an output file configured, standard output
/// gets nothing and the file gets one line per match, in the order of the
/// matches: the path and a line feed. Without one, the file gets nothing
/// and standard output gets the quoted path and a line feed for each match.
pub fn route(config: &SearchConfig, matches: &Vec<String>) -> (routed: Routed)
    ensures
        config@.output is Some ==> texts(routed.stdout_lines@).len() == 0 && texts(
            routed.file_lines@,
        ) == texts(matches@).map_values(file_line()),
        config@.output is None ==> texts(routed.file_lines@).len() == 0 && texts(
            routed.stdout_lines@,
        ) == texts(matches@).map_values(stdout_line()),
{
    let to_file = config.output().is_some();
    let mut lines: Vec<String> = Vec::new();
    let mut i: usize = 0;
    while i < matches.len()
        invariant
            i <= matches.len(),
            lines.len() == i,
            forall|j: int|
                0 <= j < i ==> (#[trigger] lines@[j])@ == if to_file {
                    line_of(matches@[j]@)
                } else {
                    line_of(debug_quoted(matches@[j]@))
                },
        decreases matches.len() - i,
    {
        let path = matches[i].as_str();
        let line = if to_file {
            end_line(path.to_owned())
        } else {
            end_line(quote(path))
        };
        lines.push(line);
        i += 1;
    }
    let none: Vec<String> = Vec::new();
    if to_file {
        assert(texts(lines@) =~= texts(matches@).map_values(file_line()));
        Routed { file_lines: lines, stdout_lines: none }
    } else {
        assert(texts(lines@) =~= texts(matches@).map_values(stdout_line()));
        Routed { file_lines: none, stdout_lines: lines }
    }
}

} // verus!
