//! The validated configuration of one search.

use crate::text::{same_text, texts};
use vstd::prelude::*;
use vstd::string::*;

verus! {

/// What a [`SearchConfig`] holds, as plain mathematical values.
pub struct ConfigView {
    pub query: Seq<char>,
    pub recursive: bool,
    pub verbose: bool,
    pub output: Option<Seq<char>>,
}

/// The settings of one run: what to look for, whether to descend into
/// subdirectories, whether to narrate, and where matches are written.
///
/// The query is never empty. A value cannot be changed once it is built.
#[derive(Debug, PartialEq, Eq)]
pub struct SearchConfig {
    query: String,
    recursive: bool,
    verbose: bool,
    output: Option<String>,
}

impl View for SearchConfig {
    type V = ConfigView;

    closed spec fn view(&self) -> ConfigView {
        ConfigView {
            query: self.query@,
            recursive: self.recursive,
            verbose: self.verbose,
            output: match self.output {
                Some(path) => Some(path@),
                None => None,
            },
        }
    }
}

impl SearchConfig {
    #[verifier::type_invariant]
    spec fn query_present(self) -> bool {
        self.query@.len() > 0
    }

    /// Builds a configuration, or nothing when the query is empty.
    pub fn new(query: String, recursive: bool, verbose: bool, output: Option<String>) -> (made:
        Option<SearchConfig>)
        ensures
            query@.len() == 0 <==> made is None,
            made matches Some(config) ==> config@ == (ConfigView {
                query: query@,
                recursive,
                verbose,
                output: match output {
                    Some(path) => Some(path@),
                    None => None,
                },
            }),
    {
        if query.as_str().is_empty() {
            None
        } else {
            Some(SearchConfig { query, recursive, verbose, output })
        }
    }

    /// The substring looked for in filenames.
    pub fn query(&self) -> (q: &str)
        ensures
            q@ == self@.query,
            q@.len() > 0,
    {
        proof {
            use_type_invariant(self);
        }
        self.query.as_str()
    }

    /// Whether subdirectories are descended into.
    pub fn recursive(&self) -> (r: bool)
        ensures
            r == self@.recursive,
    {
        self.recursive
    }

    /// Whether progress is narrated.
    pub fn verbose(&self) -> (v: bool)
        ensures
            v == self@.verbose,
    {
        self.verbose
    }

    /// The file that receives the matches, if one was named.
    pub fn output(&self) -> (o: Option<&str>)
        ensures
            o is Some <==> self@.output is Some,
            o matches Some(path) ==> self@.output == Some(path@),
    {
        match &self.output {
            Some(path) => Some(path.as_str()),
            None => None,
        }
    }
}

/// Why no configuration could be made.
#[derive(Clone, Copy, Debug, PartialEq, Eq, Structural)]
pub enum ConfigError {
    /// No query was given, or the query was the empty string.
    MissingQuery,
    /// The output flag was the last token, with no path after it.
    MissingOutputValue,
}

/// What one token of the argument list means.
#[derive(Clone, Copy, Debug, PartialEq, Eq, Structural)]
pub enum Token {
    /// `-h`
    ShortHelp,
    /// `--help`
    FullHelp,
    /// `-v` or `--verbose`
    Verbose,
    /// `-r` or `--recursive=false`: both switch recursion off
    NoRecursion,
    /// `-o` or `--output`: the token after it is the output path
    Output,
    /// any other token that begins with `-`
    UnknownFlag,
    /// any other token
    Positional,
}

/// The meaning of a token.
pub open spec fn token_kind(token: Seq<char>) -> Token {
    if token == "-h"@ {
        Token::ShortHelp
    } else if token == "--help"@ {
        Token::FullHelp
    } else if token == "-v"@ || token == "--verbose"@ {
        Token::Verbose
    } else if token == "-r"@ || token == "--recursive=false"@ {
        Token::NoRecursion
    } else if token == "-o"@ || token == "--output"@ {
        Token::Output
    } else if token.len() > 0 && token[0] == '-' {
        Token::UnknownFlag
    } else {
        Token::Positional
    }
}

/// Something worth telling the user that does not stop the run.
#[derive(Debug, PartialEq, Eq)]
pub enum Notice {
    /// A token that begins with `-` and is no known flag.
    UnknownFlag(String),
    /// A positional token after the first, which is ignored.
    ExtraArgument(String),
}

/// A [`Notice`] as plain mathematical values.
pub enum NoticeView {
    UnknownFlag(Seq<char>),
    ExtraArgument(Seq<char>),
}

impl View for Notice {
    type V = NoticeView;

    open spec fn view(&self) -> NoticeView {
        match self {
            Notice::UnknownFlag(token) => NoticeView::UnknownFlag(token@),
            Notice::ExtraArgument(token) => NoticeView::ExtraArgument(token@),
        }
    }
}

/// The views of a sequence of notices.
pub open spec fn notice_views(notices: Seq<Notice>) -> Seq<NoticeView> {
    notices.map_values(|n: Notice| n@)
}

/// What the argument list asks for.
#[derive(Debug, PartialEq, Eq)]
pub enum Invocation {
    /// Run a search with this configuration.
    Search(SearchConfig),
    /// Print the short usage summary and stop.
    ShortHelp,
    /// Print the full help text and stop.
    FullHelp,
}

/// An [`Invocation`] as plain mathematical values.
pub enum InvocationView {
    Search(ConfigView),
    ShortHelp,
    FullHelp,
}

impl View for Invocation {
    type V = InvocationView;

    open spec fn view(&self) -> InvocationView {
        match self {
            Invocation::Search(config) => InvocationView::Search(config@),
            Invocation::ShortHelp => InvocationView::ShortHelp,
            Invocation::FullHelp => InvocationView::FullHelp,
        }
    }
}

/// The result of resolving an argument list: what to do, or why nothing can
/// be done, and the notices gathered up to the point where the scan ended.
#[derive(Debug, PartialEq, Eq)]
pub struct Resolution {
    pub outcome: Result<Invocation, ConfigError>,
    pub notices: Vec<Notice>,
}

/// A [`Resolution`] as plain mathematical values.
pub struct ResolutionView {
    pub outcome: Result<InvocationView, ConfigError>,
    pub notices: Seq<NoticeView>,
}

impl View for Resolution {
    type V = ResolutionView;

    open spec fn view(&self) -> ResolutionView {
        ResolutionView {
            outcome: match self.outcome {
                Ok(invocation) => Ok(invocation@),
                Err(e) => Err(e),
            },
            notices: notice_views(self.notices@),
        }
    }
}

/// What a scan of the argument list has gathered so far.
pub struct Gathered {
    pub query: Option<Seq<char>>,
    pub recursive: bool,
    pub verbose: bool,
    pub output: Option<Seq<char>>,
    pub notices: Seq<NoticeView>,
}

/// The state of a scan before the first token: no query, recursion on,
/// verbosity off, no output file, nothing to tell.
pub open spec fn nothing_gathered() -> Gathered {
    Gathered {
        query: None,
        recursive: true,
        verbose: false,
        output: None,
        notices: Seq::empty(),
    }
}

/// The resolution once every token has been read: a search, if a query of at
/// least one character was gathered.
pub open spec fn concluded(g: Gathered) -> ResolutionView {
    ResolutionView {
        outcome: match g.query {
            Some(query) => if query.len() > 0 {
                Ok(
                    InvocationView::Search(
                        ConfigView {
                            query,
                            recursive: g.recursive,
                            verbose: g.verbose,
                            output: g.output,
                        },
                    ),
                )
            } else {
                Err(ConfigError::MissingQuery)
            },
            None => Err(ConfigError::MissingQuery),
        },
        notices: g.notices,
    }
}

/// The resolution of the tokens from index `at` on, with `g` gathered from
/// the tokens before it.
///
/// Tokens are read left to right. A help flag ends the scan at once. An
/// output flag takes the token after it as the path, whatever that token
/// is, and ends the scan with an error when there is none. An unknown flag
/// and a positional after the first are noted and skipped.
pub open spec fn resolved_from(args: Seq<Seq<char>>, at: int, g: Gathered) -> ResolutionView
    decreases args.len() - at,
{
    if at < 0 || at >= args.len() {
        concluded(g)
    } else {
        match token_kind(args[at]) {
            Token::ShortHelp => ResolutionView {
                outcome: Ok(InvocationView::ShortHelp),
                notices: g.notices,
            },
            Token::FullHelp => ResolutionView {
                outcome: Ok(InvocationView::FullHelp),
                notices: g.notices,
            },
            Token::Verbose => resolved_from(args, at + 1, Gathered { verbose: true, ..g }),
            Token::NoRecursion => resolved_from(args, at + 1, Gathered { recursive: false, ..g }),
            Token::Output => if at + 1 < args.len() {
                resolved_from(args, at + 2, Gathered { output: Some(args[at + 1]), ..g })
            } else {
                ResolutionView {
                    outcome: Err(ConfigError::MissingOutputValue),
                    notices: g.notices,
                }
            },
            Token::UnknownFlag => resolved_from(
                args,
                at + 1,
                Gathered { notices: g.notices.push(NoticeView::UnknownFlag(args[at])), ..g },
            ),
            Token::Positional => if g.query is None {
                resolved_from(args, at + 1, Gathered { query: Some(args[at]), ..g })
            } else {
                resolved_from(
                    args,
                    at + 1,
                    Gathered { notices: g.notices.push(NoticeView::ExtraArgument(args[at])), ..g },
                )
            },
        }
    }
}

/// The resolution of a whole argument list, the program name not included.
pub open spec fn resolved(args: Seq<Seq<char>>) -> ResolutionView {
    resolved_from(args, 0, nothing_gathered())
}

/// Says what a token means.
pub fn classify(token: &str) -> (kind: Token)
    ensures
        kind == token_kind(token@),
{
    if same_text(token, "-h") {
        Token::ShortHelp
    } else if same_text(token, "--help") {
        Token::FullHelp
    } else if same_text(token, "-v") || same_text(token, "--verbose") {
        Token::Verbose
    } else if same_text(token, "-r") || same_text(token, "--recursive=false") {
        Token::NoRecursion
    } else if same_text(token, "-o") || same_text(token, "--output") {
        Token::Output
    } else if !token.is_empty() && token.get_char(0) == '-' {
        Token::UnknownFlag
    } else {
        Token::Positional
    }
}

/// Resolves the argument list of the process, the program name not
/// included, into what the run is to do.
pub fn parse_args(args: &Vec<String>) -> (resolution: Resolution)
    ensures
        resolution@ == resolved(texts(args@)),
{
    let ghost tokens = texts(args@);
    let mut query: Option<String> = None;
    let mut recursive = true;
    let mut verbose = false;
    let mut output: Option<String> = None;
    let mut notices: Vec<Notice> = Vec::new();
    let ghost mut g = nothing_gathered();
    let mut at: usize = 0;
    assert(notice_views(notices@) =~= g.notices);
    while at < args.len()
        invariant
            at <= args.len(),
            tokens == texts(args@),
            resolved(tokens) == resolved_from(tokens, at as int, g),
            g.query == match query {
                Some(s) => Some(s@),
                None => None,
            },
            g.output == match output {
                Some(s) => Some(s@),
                None => None,
            },
            g.recursive == recursive,
            g.verbose == verbose,
            g.notices == notice_views(notices@),
        decreases args.len() - at,
    {
        let token = &args[at];
        assert(tokens[at as int] == token@);
        match classify(token.as_str()) {
            Token::ShortHelp => {
                return Resolution { outcome: Ok(Invocation::ShortHelp), notices };
            },
            Token::FullHelp => {
                return Resolution { outcome: Ok(Invocation::FullHelp), notices };
            },
            Token::Verbose => {
                verbose = true;
                proof {
                    g = Gathered { verbose: true, ..g };
                }
                at += 1;
            },
            Token::NoRecursion => {
                recursive = false;
                proof {
                    g = Gathered { recursive: false, ..g };
                }
                at += 1;
            },
            Token::Output => {
                if at + 1 < args.len() {
                    let path = args[at + 1].clone();
                    assert(tokens[at + 1] == path@);
                    proof {
                        g = Gathered { output: Some(path@), ..g };
                    }
                    output = Some(path);
                    at += 2;
                } else {
                    return Resolution { outcome: Err(ConfigError::MissingOutputValue), notices };
                }
            },
            Token::UnknownFlag => {
                let ghost before = notices@;
                notices.push(Notice::UnknownFlag(token.clone()));
                proof {
                    g = Gathered { notices: g.notices.push(NoticeView::UnknownFlag(token@)), ..g };
                    assert(notice_views(notices@) =~= notice_views(before).push(
                        NoticeView::UnknownFlag(token@),
                    ));
                }
                at += 1;
            },
            Token::Positional => {
                if query.is_none() {
                    query = Some(token.clone());
                    proof {
                        g = Gathered { query: Some(token@), ..g };
                    }
                } else {
                    let ghost before = notices@;
                    notices.push(Notice::ExtraArgument(token.clone()));
                    proof {
                        g = Gathered {
                            notices: g.notices.push(NoticeView::ExtraArgument(token@)),
                            ..g
                        };
                        assert(notice_views(notices@) =~= notice_views(before).push(
                            NoticeView::ExtraArgument(token@),
                        ));
                    }
                }
                at += 1;
            },
        }
    }
    let outcome = match query {
        Some(text) => match SearchConfig::new(text, recursive, verbose, output) {
            Some(config) => Ok(Invocation::Search(config)),
            None => Err(ConfigError::MissingQuery),
        },
        None => Err(ConfigError::MissingQuery),
    };
    Resolution { outcome, notices }
}

proof fn lemma_search_has_a_query(args: Seq<Seq<char>>, at: int, g: Gathered)
    ensures
        resolved_from(args, at, g).outcome matches Ok(InvocationView::Search(config))
            ==> config.query.len() > 0,
    decreases args.len() - at,
{
    if 0 <= at < args.len() {
        match token_kind(args[at]) {
            Token::ShortHelp => {},
            Token::FullHelp => {},
            Token::Verbose => lemma_search_has_a_query(
                args,
                at + 1,
                Gathered { verbose: true, ..g },
            ),
            Token::NoRecursion => lemma_search_has_a_query(
                args,
                at + 1,
                Gathered { recursive: false, ..g },
            ),
            Token::Output => if at + 1 < args.len() {
                lemma_search_has_a_query(
                    args,
                    at + 2,
                    Gathered { output: Some(args[at + 1]), ..g },
                )
            },
            Token::UnknownFlag => lemma_search_has_a_query(
                args,
                at + 1,
                Gathered { notices: g.notices.push(NoticeView::UnknownFlag(args[at])), ..g },
            ),
            Token::Positional => if g.query is None {
                lemma_search_has_a_query(args, at + 1, Gathered { query: Some(args[at]), ..g })
            } else {
                lemma_search_has_a_query(
                    args,
                    at + 1,
                    Gathered { notices: g.notices.push(NoticeView::ExtraArgument(args[at])), ..g },
                )
            },
        }
    }
}

/// Whatever the arguments, a search that they resolve to has a query of at
/// least one character.
pub proof fn law_search_has_a_query(args: Seq<Seq<char>>)
    ensures
        resolved(args).outcome matches Ok(InvocationView::Search(config)) ==> config.query.len()
            > 0,
{
    lemma_search_has_a_query(args, 0, nothing_gathered());
}

} // verus!
