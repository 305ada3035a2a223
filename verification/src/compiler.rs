//! The front end shared by compilation and simulation: a source text goes
//! through the lexer, macro expansion and the conversion into commands.
use vstd::prelude::*;
use crate::instructions::{Command, CommandView, cmd_views};
use crate::lexer::{file_to_tok, lexed};
use crate::parser::{
    DiagnosticView, ParseDiagnostic, diag_views, macro_expansion, parsed_commands,
    tokens_convertible, try_parse_macros, try_tok_to_commands,
};

verus! {

/// The commands of a source text with the diagnostics of their conversion,
/// or `None` where macro expansion or conversion panics.
pub open spec fn front_end_result(contents: Seq<char>) -> Option<
    (Seq<CommandView>, Seq<DiagnosticView>),
> {
    match macro_expansion(lexed(contents)) {
        None => None,
        Some(m) => if tokens_convertible(m) {
            Some(parsed_commands(m))
        } else {
            None
        },
    }
}

/// Reads a source text into commands: tokens, then macro expansion, then
/// conversion; see `front_end_result`.
pub fn front_end(contents: &str) -> (r: Option<(Vec<Command>, Vec<ParseDiagnostic>)>)
    ensures
        match r {
            Some(p) => front_end_result(contents@) == Some((cmd_views(p.0@), diag_views(p.1@))),
            None => front_end_result(contents@) is None,
        },
{
    let tokens = file_to_tok(contents);
    match try_parse_macros(&tokens) {
        None => None,
        Some(expanded) => try_tok_to_commands(expanded),
    }
}

} // verus!
