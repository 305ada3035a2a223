//! From tokens to commands: macro expansion and the conversion of each
//! token into a command with its arguments.
use vstd::prelude::*;
use crate::instructions::{Command, CommandView, Commands, cmd_views};
use crate::text::{
    all_numeric, chars_all_numeric, chars_of, decimal, decimal_string, digits_value, is_word,
    lemma_decimal_injective, lemma_decimal_value, parse_u64, parsed_u64, string_of, views,
};

verus! {

/// A token is a string literal when it starts and ends with a double quote
/// (a lone `"` counts).
pub open spec fn spec_is_string(t: Seq<char>) -> bool {
    t.len() > 0 && t[0] == '"' && t[t.len() - 1] == '"'
}

/// A string without its first and last characters (empty when it has fewer
/// than two).
pub open spec fn unquoted(s: Seq<char>) -> Seq<char> {
    if s.len() < 2 {
        seq![]
    } else {
        s.subrange(1, s.len() - 1)
    }
}

/// Whether a token is a string literal.
pub fn is_string(token: &str) -> (r: bool)
    ensures
        r == spec_is_string(token@),
{
    let t = chars_of(token);
    t.len() > 0 && t[0] == '"' && t[t.len() - 1] == '"'
}

/// The text of a string literal without its quotes: the string without its
/// first and last characters.
pub fn cut_string(value: &str) -> (r: &str)
    ensures
        r@ == unquoted(value@),
{
    let n = value.unicode_len();
    if n < 2 {
        let r = value.substring_char(0, 0);
        assert(r@ =~= Seq::<char>::empty());
        r
    } else {
        value.substring_char(1, n - 1)
    }
}

/// Removing the quotes of `"x"` gives back `x`, whatever `x` holds.
pub proof fn law_cut_string_unquotes(x: Seq<char>)
    ensures
        spec_is_string(seq!['"'] + x + seq!['"']),
        unquoted(seq!['"'] + x + seq!['"']) == x,
{
    let q = seq!['"'] + x + seq!['"'];
    assert(q[0] == '"');
    assert(q[q.len() - 1] == '"');
    assert(q.subrange(1, q.len() - 1) =~= x);
}

/// What a token stands for, before its arguments are worked out.
#[derive(Debug, Clone, Copy, PartialEq, Eq, Structural)]
pub enum TokenClass {
    End,
    Number,
    Dump,
    Add,
    Sub,
    Dup,
    If,
    While,
    Compare(Commands),
    Str,
    Syscall,
    Mul,
    Mem,
    Read8,
    Store8,
    Unknown,
}

/// Whether a token starts with the word `syscall`.
pub open spec fn starts_with_syscall(t: Seq<char>) -> bool {
    t.len() >= 7 && t.take(7) == "syscall"@
}

/// The class of a token; the first test that holds decides.
pub open spec fn classify(t: Seq<char>) -> TokenClass {
    if t == "end"@ {
        TokenClass::End
    } else if all_numeric(t) {
        TokenClass::Number
    } else if t == "."@ {
        TokenClass::Dump
    } else if t == "+"@ {
        TokenClass::Add
    } else if t == "-"@ {
        TokenClass::Sub
    } else if t == "dup"@ {
        TokenClass::Dup
    } else if t == "if"@ {
        TokenClass::If
    } else if t == "while"@ {
        TokenClass::While
    } else if t == ">"@ {
        TokenClass::Compare(Commands::G)
    } else if t == "<"@ {
        TokenClass::Compare(Commands::L)
    } else if t == "="@ {
        TokenClass::Compare(Commands::E)
    } else if t == "!="@ {
        TokenClass::Compare(Commands::Ne)
    } else if t == ">="@ {
        TokenClass::Compare(Commands::Ge)
    } else if t == "<="@ {
        TokenClass::Compare(Commands::Le)
    } else if spec_is_string(t) {
        TokenClass::Str
    } else if starts_with_syscall(t) {
        TokenClass::Syscall
    } else if t == "*"@ {
        TokenClass::Mul
    } else if t == "mem"@ {
        TokenClass::Mem
    } else if t == "read8"@ {
        TokenClass::Read8
    } else if t == "store8"@ {
        TokenClass::Store8
    } else {
        TokenClass::Unknown
    }
}

fn starts_syscall(t: &Vec<char>) -> (r: bool)
    ensures
        r == starts_with_syscall(t@),
{
    if t.len() < 7 {
        return false;
    }
    let mut head: Vec<char> = Vec::new();
    let mut i: usize = 0;
    while i < 7
        invariant
            i <= 7 <= t.len(),
            head@ == t@.take(i as int),
        decreases 7 - i,
    {
        head.push(t[i]);
        i += 1;
        assert(head@ =~= t@.take(i as int));
    }
    is_word(&head, "syscall")
}

/// The class of a token.
pub fn classify_token(t: &Vec<char>) -> (c: TokenClass)
    ensures
        c == classify(t@),
{
    if is_word(t, "end") {
        TokenClass::End
    } else if chars_all_numeric(t) {
        TokenClass::Number
    } else if is_word(t, ".") {
        TokenClass::Dump
    } else if is_word(t, "+") {
        TokenClass::Add
    } else if is_word(t, "-") {
        TokenClass::Sub
    } else if is_word(t, "dup") {
        TokenClass::Dup
    } else if is_word(t, "if") {
        TokenClass::If
    } else if is_word(t, "while") {
        TokenClass::While
    } else if is_word(t, ">") {
        TokenClass::Compare(Commands::G)
    } else if is_word(t, "<") {
        TokenClass::Compare(Commands::L)
    } else if is_word(t, "=") {
        TokenClass::Compare(Commands::E)
    } else if is_word(t, "!=") {
        TokenClass::Compare(Commands::Ne)
    } else if is_word(t, ">=") {
        TokenClass::Compare(Commands::Ge)
    } else if is_word(t, "<=") {
        TokenClass::Compare(Commands::Le)
    } else if t.len() > 0 && t[0] == '"' && t[t.len() - 1] == '"' {
        TokenClass::Str
    } else if starts_syscall(t) {
        TokenClass::Syscall
    } else if is_word(t, "*") {
        TokenClass::Mul
    } else if is_word(t, "mem") {
        TokenClass::Mem
    } else if is_word(t, "read8") {
        TokenClass::Read8
    } else if is_word(t, "store8") {
        TokenClass::Store8
    } else {
        TokenClass::Unknown
    }
}

/// A problem reported while converting tokens; conversion goes on after it.
#[derive(Debug, PartialEq, Eq)]
pub enum ParseDiagnostic {
    /// An `end` with no open `if` or `while`.
    UnmatchedEnd,
    /// `syscall` followed by something that is not a number.
    SyscallWithoutNumber,
    /// A token that is none of the known words.
    UnknownToken(String),
}

/// The mathematical view of a diagnostic.
pub enum DiagnosticView {
    UnmatchedEnd,
    SyscallWithoutNumber,
    UnknownToken(Seq<char>),
}

/// The view of a diagnostic.
pub open spec fn diag_view(d: ParseDiagnostic) -> DiagnosticView {
    match d {
        ParseDiagnostic::UnmatchedEnd => DiagnosticView::UnmatchedEnd,
        ParseDiagnostic::SyscallWithoutNumber => DiagnosticView::SyscallWithoutNumber,
        ParseDiagnostic::UnknownToken(s) => DiagnosticView::UnknownToken(s@),
    }
}

/// The views of a list of diagnostics.
pub open spec fn diag_views(ds: Seq<ParseDiagnostic>) -> Seq<DiagnosticView> {
    ds.map_values(|d: ParseDiagnostic| diag_view(d))
}

/// What the conversion remembers between tokens: the next label number, the
/// next message number, and the open blocks (`true` for a `while`) with their
/// labels, innermost last.
pub struct ParseState {
    pub unique: nat,
    pub messages: nat,
    pub blocks: Seq<(bool, nat)>,
}

/// The state at the start of a conversion.
pub open spec fn initial_parse_state() -> ParseState {
    ParseState { unique: 0, messages: 0, blocks: seq![] }
}

/// A command whose only argument is a label number.
pub open spec fn labelled(c: Commands, n: nat) -> CommandView {
    (c, seq![decimal(n)])
}

/// The digits after `syscall` in a token of class `Syscall`.
pub open spec fn syscall_digits(t: Seq<char>) -> Seq<char> {
    t.skip(7)
}

/// A `syscall` token whose suffix is numeric but is not a number that
/// `u64::from_str` reads: the one input on which the conversion panics.
pub open spec fn token_panics(t: Seq<char>) -> bool {
    classify(t) == TokenClass::Syscall && all_numeric(syscall_digits(t)) && parsed_u64(
        syscall_digits(t),
    ) is None
}

/// One token's effect: the new state, the commands it emits and the
/// diagnostics it reports.
pub open spec fn parse_step(st: ParseState, t: Seq<char>) -> (
    ParseState,
    Seq<CommandView>,
    Seq<DiagnosticView>,
) {
    match classify(t) {
        TokenClass::End => if st.blocks.len() == 0 {
            (st, seq![], seq![DiagnosticView::UnmatchedEnd])
        } else {
            let (is_while, n) = st.blocks.last();
            (
                ParseState { blocks: st.blocks.drop_last(), ..st },
                seq![labelled(if is_while { Commands::EndWhile } else { Commands::EndIf }, n)],
                seq![],
            )
        },
        TokenClass::Number => (st, seq![(Commands::Push, seq![t])], seq![]),
        TokenClass::Dump => (st, seq![(Commands::Dump, seq![])], seq![]),
        TokenClass::Add => (st, seq![(Commands::Add, seq![])], seq![]),
        TokenClass::Sub => (st, seq![(Commands::Sub, seq![])], seq![]),
        TokenClass::Dup => (st, seq![(Commands::Dup, seq![])], seq![]),
        TokenClass::If => (
            ParseState {
                unique: st.unique + 1,
                blocks: st.blocks.push((false, st.unique)),
                ..st
            },
            seq![labelled(Commands::If, st.unique)],
            seq![],
        ),
        TokenClass::While => (
            ParseState {
                unique: st.unique + 1,
                blocks: st.blocks.push((true, st.unique)),
                ..st
            },
            seq![labelled(Commands::While, st.unique)],
            seq![],
        ),
        TokenClass::Compare(c) => (
            ParseState { unique: st.unique + 1, ..st },
            seq![labelled(c, st.unique)],
            seq![],
        ),
        TokenClass::Str => (
            ParseState { messages: st.messages + 1, ..st },
            seq![(Commands::PrintStringConst, seq![t, decimal(st.messages)])],
            seq![],
        ),
        TokenClass::Syscall => if all_numeric(syscall_digits(t)) {
            (
                st,
                seq![
                    (
                        Commands::Syscall,
                        seq![decimal(parsed_u64(syscall_digits(t)).unwrap() as nat)],
                    ),
                ],
                seq![],
            )
        } else {
            (st, seq![], seq![DiagnosticView::SyscallWithoutNumber])
        },
        TokenClass::Mul => (st, seq![(Commands::Mul, seq![])], seq![]),
        TokenClass::Mem => (st, seq![(Commands::Mem, seq![])], seq![]),
        TokenClass::Read8 => (st, seq![(Commands::Read, seq!["8"@])], seq![]),
        TokenClass::Store8 => (st, seq![(Commands::Write, seq!["8"@])], seq![]),
        TokenClass::Unknown => (st, seq![], seq![DiagnosticView::UnknownToken(t)]),
    }
}

/// The commands and diagnostics of a list of tokens read from state `st`.
pub open spec fn parse_tokens(toks: Seq<Seq<char>>, st: ParseState) -> (
    Seq<CommandView>,
    Seq<DiagnosticView>,
)
    decreases toks.len(),
{
    if toks.len() == 0 {
        (seq![], seq![])
    } else {
        let (st2, c, d) = parse_step(st, toks[0]);
        let (c2, d2) = parse_tokens(toks.skip(1), st2);
        (c + c2, d + d2)
    }
}

/// The commands and diagnostics of a token list.
pub open spec fn parsed_commands(toks: Seq<Seq<char>>) -> (Seq<CommandView>, Seq<DiagnosticView>) {
    parse_tokens(toks, initial_parse_state())
}


/// Commands that take a fresh label of their own: block openings and
/// comparisons.
pub open spec fn opens_label(c: Commands) -> bool {
    c == Commands::If || c == Commands::While || c == Commands::G || c == Commands::L || c
        == Commands::E || c == Commands::Ne || c == Commands::Ge || c == Commands::Le
}

/// The number a label argument stands for.
pub open spec fn label_value(a: Seq<char>) -> nat {
    digits_value(a)
}

/// The labels of the label-opening commands are decimal numbers of at least
/// `lo`, increasing along the list.
pub open spec fn labels_increasing(cs: Seq<CommandView>, lo: nat) -> bool {
    &&& forall|i: int|
        0 <= i < cs.len() && opens_label((#[trigger] cs[i]).0) ==> cs[i].1.len() == 1 && cs[i].1[0]
            == decimal(label_value(cs[i].1[0])) && label_value(cs[i].1[0]) >= lo
    &&& forall|i: int, j: int|
        0 <= i < j < cs.len() && opens_label((#[trigger] cs[i]).0) && opens_label(
            (#[trigger] cs[j]).0,
        ) ==> label_value(cs[i].1[0]) < label_value(cs[j].1[0])
}

/// The message numbers of the string commands are decimal numbers of at
/// least `lo`, increasing along the list.
pub open spec fn messages_increasing(cs: Seq<CommandView>, lo: nat) -> bool {
    &&& forall|i: int|
        0 <= i < cs.len() && (#[trigger] cs[i]).0 == Commands::PrintStringConst ==> cs[i].1.len()
            == 2 && cs[i].1[1] == decimal(label_value(cs[i].1[1])) && label_value(cs[i].1[1]) >= lo
    &&& forall|i: int, j: int|
        0 <= i < j < cs.len() && (#[trigger] cs[i]).0 == Commands::PrintStringConst && (
        #[trigger] cs[j]).0 == Commands::PrintStringConst ==> label_value(cs[i].1[1])
            < label_value(cs[j].1[1])
}

proof fn lemma_step_counters(st: ParseState, t: Seq<char>)
    ensures
        ({
            let (st2, c, d) = parse_step(st, t);
            &&& c.len() <= 1
            &&& (c.len() == 1 && opens_label(c[0].0)) ==> c[0] == labelled(c[0].0, st.unique)
                && st2.unique == st.unique + 1
            &&& !(c.len() == 1 && opens_label(c[0].0)) ==> st2.unique == st.unique
            &&& (c.len() == 1 && c[0].0 == Commands::PrintStringConst) ==> c[0].1.len() == 2
                && c[0].1[1] == decimal(st.messages) && st2.messages == st.messages + 1
            &&& !(c.len() == 1 && c[0].0 == Commands::PrintStringConst) ==> st2.messages
                == st.messages
        }),
{
}

proof fn lemma_labels_increasing(toks: Seq<Seq<char>>, st: ParseState)
    ensures
        labels_increasing(parse_tokens(toks, st).0, st.unique),
        messages_increasing(parse_tokens(toks, st).0, st.messages),
    decreases toks.len(),
{
    if toks.len() > 0 {
        let (st2, c, d) = parse_step(st, toks[0]);
        lemma_step_counters(st, toks[0]);
        lemma_labels_increasing(toks.skip(1), st2);
        let rest = parse_tokens(toks.skip(1), st2).0;
        let cs = parse_tokens(toks, st).0;
        assert(cs == c + rest);
        lemma_decimal_value(st.unique);
        lemma_decimal_value(st.messages);
        assert forall|i: int|
            0 <= i < cs.len() && opens_label((#[trigger] cs[i]).0) implies cs[i].1.len() == 1
            && cs[i].1[0] == decimal(label_value(cs[i].1[0])) && label_value(cs[i].1[0])
            >= st.unique by {
            if i >= c.len() {
                assert(cs[i] == rest[i - c.len()]);
            }
        }
        assert forall|i: int, j: int|
            0 <= i < j < cs.len() && opens_label((#[trigger] cs[i]).0) && opens_label(
                (#[trigger] cs[j]).0,
            ) implies label_value(cs[i].1[0]) < label_value(cs[j].1[0]) by {
            assert(cs[j] == rest[j - c.len()]);
            if i >= c.len() {
                assert(cs[i] == rest[i - c.len()]);
            }
        }
        assert forall|i: int|
            0 <= i < cs.len() && (#[trigger] cs[i]).0 == Commands::PrintStringConst implies cs[i].1.len()
            == 2 && cs[i].1[1] == decimal(label_value(cs[i].1[1])) && label_value(cs[i].1[1])
            >= st.messages by {
            if i >= c.len() {
                assert(cs[i] == rest[i - c.len()]);
            }
        }
        assert forall|i: int, j: int|
            0 <= i < j < cs.len() && (#[trigger] cs[i]).0 == Commands::PrintStringConst && (
            #[trigger] cs[j]).0 == Commands::PrintStringConst implies label_value(cs[i].1[1])
            < label_value(cs[j].1[1]) by {
            assert(cs[j] == rest[j - c.len()]);
            if i >= c.len() {
                assert(cs[i] == rest[i - c.len()]);
            }
        }
    }
}

/// Any two commands that take a label of their own (block openings and
/// comparisons) get different labels, so the assembly never defines a label
/// twice.
pub proof fn law_labels_distinct(toks: Seq<Seq<char>>, i: int, j: int)
    requires
        0 <= i < j < parsed_commands(toks).0.len(),
        opens_label(parsed_commands(toks).0[i].0),
        opens_label(parsed_commands(toks).0[j].0),
    ensures
        parsed_commands(toks).0[i].1.len() == 1,
        parsed_commands(toks).0[j].1.len() == 1,
        parsed_commands(toks).0[i].1[0] != parsed_commands(toks).0[j].1[0],
{
    let cs = parsed_commands(toks).0;
    lemma_labels_increasing(toks, initial_parse_state());
    assert(opens_label(cs[i].0) && opens_label(cs[j].0));
    lemma_decimal_injective(label_value(cs[i].1[0]), label_value(cs[j].1[0]));
}

/// Any two string commands get different message numbers, so no data
/// constant is defined twice.
pub proof fn law_messages_distinct(toks: Seq<Seq<char>>, i: int, j: int)
    requires
        0 <= i < j < parsed_commands(toks).0.len(),
        parsed_commands(toks).0[i].0 == Commands::PrintStringConst,
        parsed_commands(toks).0[j].0 == Commands::PrintStringConst,
    ensures
        parsed_commands(toks).0[i].1.len() == 2,
        parsed_commands(toks).0[j].1.len() == 2,
        parsed_commands(toks).0[i].1[1] != parsed_commands(toks).0[j].1[1],
{
    let cs = parsed_commands(toks).0;
    lemma_labels_increasing(toks, initial_parse_state());
    assert(cs[i].0 == Commands::PrintStringConst && cs[j].0 == Commands::PrintStringConst);
    lemma_decimal_injective(label_value(cs[i].1[1]), label_value(cs[j].1[1]));
}

/// The block opening that a block closing answers: `If` for `EndIf` and
/// `While` for `EndWhile`.
pub open spec fn opener_of(c: Commands) -> Commands {
    if c == Commands::EndWhile {
        Commands::While
    } else {
        Commands::If
    }
}

/// The closing at position `j` carries the label of an open block of
/// `blocks` of its kind, or of an earlier opening of its kind in `cs`.
pub open spec fn closes_known_block(cs: Seq<CommandView>, j: int, blocks: Seq<(bool, nat)>) -> bool {
    let w = cs[j].0 == Commands::EndWhile;
    ||| exists|k: int|
        0 <= k < blocks.len() && (#[trigger] blocks[k]).0 == w && cs[j].1 == seq![
            decimal(blocks[k].1),
        ]
    ||| exists|i: int| 0 <= i < j && (#[trigger] cs[i]).0 == opener_of(cs[j].0) && cs[i].1 == cs[j].1
}

proof fn lemma_closings(toks: Seq<Seq<char>>, st: ParseState)
    ensures
        forall|j: int|
            0 <= j < parse_tokens(toks, st).0.len() && ((#[trigger] parse_tokens(toks, st).0[j]).0
                == Commands::EndIf || parse_tokens(toks, st).0[j].0 == Commands::EndWhile)
                ==> closes_known_block(parse_tokens(toks, st).0, j, st.blocks),
    decreases toks.len(),
{
    if toks.len() > 0 {
        let (st2, c, d) = parse_step(st, toks[0]);
        lemma_closings(toks.skip(1), st2);
        let rest = parse_tokens(toks.skip(1), st2).0;
        let cs = parse_tokens(toks, st).0;
        assert(cs == c + rest);
        assert forall|j: int|
            0 <= j < cs.len() && ((#[trigger] cs[j]).0 == Commands::EndIf || cs[j].0
                == Commands::EndWhile) implies closes_known_block(cs, j, st.blocks) by {
            let w = cs[j].0 == Commands::EndWhile;
            if j < c.len() {
                // The closing emitted by this very token: the innermost block.
                let k = st.blocks.len() - 1;
                assert(st.blocks[k] == st.blocks.last());
                assert(st.blocks[k].0 == w && cs[j].1 == seq![decimal(st.blocks[k].1)]);
            } else {
                let jr = j - c.len();
                assert(cs[j] == rest[jr]);
                if exists|i: int|
                    0 <= i < jr && (#[trigger] rest[i]).0 == opener_of(rest[jr].0) && rest[i].1
                        == rest[jr].1 {
                    let i = choose|i: int|
                        0 <= i < jr && (#[trigger] rest[i]).0 == opener_of(rest[jr].0) && rest[i].1
                            == rest[jr].1;
                    assert(cs[i + c.len()] == rest[i]);
                } else {
                    let k = choose|k: int|
                        0 <= k < st2.blocks.len() && (#[trigger] st2.blocks[k]).0 == w
                            && rest[jr].1 == seq![decimal(st2.blocks[k].1)];
                    if k < st.blocks.len() && st2.blocks[k] == st.blocks[k] {
                        assert(st.blocks[k].0 == w);
                    } else {
                        // The block opened by this very token.
                        assert(c.len() == 1);
                        assert(cs[0] == c[0]);
                        assert(cs[0].0 == opener_of(cs[j].0) && cs[0].1 == cs[j].1);
                    }
                }
            }
        }
    }
}

/// Every `EndIf` carries the label of an earlier `If`, and every `EndWhile`
/// the label of an earlier `While`: an `end` always closes a block that was
/// opened before it.
pub proof fn law_closings_match_openings(toks: Seq<Seq<char>>, j: int)
    requires
        0 <= j < parsed_commands(toks).0.len(),
        parsed_commands(toks).0[j].0 == Commands::EndIf || parsed_commands(toks).0[j].0
            == Commands::EndWhile,
    ensures
        exists|i: int|
            0 <= i < j && (#[trigger] parsed_commands(toks).0[i]).0 == opener_of(
                parsed_commands(toks).0[j].0,
            ) && parsed_commands(toks).0[i].1 == parsed_commands(toks).0[j].1,
{
    let cs = parsed_commands(toks).0;
    lemma_closings(toks, initial_parse_state());
    assert(cs[j].0 == Commands::EndIf || cs[j].0 == Commands::EndWhile);
    assert(closes_known_block(cs, j, initial_parse_state().blocks));
}

/// The number of label-opening commands in a list.
pub open spec fn count_openers(cs: Seq<CommandView>) -> nat
    decreases cs.len(),
{
    if cs.len() == 0 {
        0
    } else {
        count_openers(cs.drop_last()) + if opens_label(cs.last().0) {
            1nat
        } else {
            0nat
        }
    }
}

proof fn lemma_count_openers_concat(a: Seq<CommandView>, b: Seq<CommandView>)
    ensures
        count_openers(a + b) == count_openers(a) + count_openers(b),
    decreases b.len(),
{
    if b.len() == 0 {
        assert(a + b =~= a);
    } else {
        assert((a + b).drop_last() =~= a + b.drop_last());
        assert((a + b).last() == b.last());
        lemma_count_openers_concat(a, b.drop_last());
    }
}

proof fn lemma_labels_consecutive(toks: Seq<Seq<char>>, st: ParseState)
    ensures
        forall|i: int|
            0 <= i < parse_tokens(toks, st).0.len() && opens_label(
                (#[trigger] parse_tokens(toks, st).0[i]).0,
            ) ==> parse_tokens(toks, st).0[i].1 == seq![
                decimal(st.unique + count_openers(parse_tokens(toks, st).0.take(i))),
            ],
    decreases toks.len(),
{
    if toks.len() > 0 {
        let (st2, c, d) = parse_step(st, toks[0]);
        lemma_step_counters(st, toks[0]);
        lemma_labels_consecutive(toks.skip(1), st2);
        let rest = parse_tokens(toks.skip(1), st2).0;
        let cs = parse_tokens(toks, st).0;
        assert(cs == c + rest);
        let oc: nat = if c.len() == 1 && opens_label(c[0].0) {
            1
        } else {
            0
        };
        assert(count_openers(c) == oc) by {
            if c.len() == 1 {
                assert(c.drop_last() =~= Seq::<CommandView>::empty());
                assert(count_openers(c.drop_last()) == 0);
                assert(c.last() == c[0]);
            }
        }
        assert forall|i: int|
            0 <= i < cs.len() && opens_label((#[trigger] cs[i]).0) implies cs[i].1 == seq![
            decimal(st.unique + count_openers(cs.take(i))),
        ] by {
            if i < c.len() {
                assert(cs.take(i) =~= Seq::<CommandView>::empty());
                assert(cs[i] == c[0]);
            } else {
                let ir = i - c.len();
                assert(cs[i] == rest[ir]);
                assert(cs.take(i) =~= c + rest.take(ir));
                lemma_count_openers_concat(c, rest.take(ir));
            }
        }
    }
}

/// The labels of block openings and comparisons count up from 0 in the
/// order of the commands: the label of such a command is the number of such
/// commands before it.
pub proof fn law_labels_count_up(toks: Seq<Seq<char>>, i: int)
    requires
        0 <= i < parsed_commands(toks).0.len(),
        opens_label(parsed_commands(toks).0[i].0),
    ensures
        parsed_commands(toks).0[i].1 == seq![
            decimal(count_openers(parsed_commands(toks).0.take(i))),
        ],
{
    lemma_labels_consecutive(toks, initial_parse_state());
    assert(opens_label(parsed_commands(toks).0[i].0));
}

/// Each token gives at most one command, so there are no more commands than
/// tokens.
pub proof fn law_at_most_one_command_per_token(toks: Seq<Seq<char>>, st: ParseState)
    ensures
        parse_tokens(toks, st).0.len() <= toks.len(),
    decreases toks.len(),
{
    if toks.len() > 0 {
        let (st2, c, d) = parse_step(st, toks[0]);
        lemma_step_counters(st, toks[0]);
        law_at_most_one_command_per_token(toks.skip(1), st2);
    }
}

/// A token that is no known word gives no command: the commands of the
/// list are those of the tokens after it, and the token is reported.
pub proof fn law_unknown_token_gives_no_command(t: Seq<char>, rest: Seq<Seq<char>>, st: ParseState)
    requires
        classify(t) == TokenClass::Unknown,
    ensures
        parse_tokens(seq![t] + rest, st).0 == parse_tokens(rest, st).0,
        parse_tokens(seq![t] + rest, st).1 == seq![DiagnosticView::UnknownToken(t)]
            + parse_tokens(rest, st).1,
{
    let toks = seq![t] + rest;
    assert(toks[0] == t);
    assert(toks.skip(1) =~= rest);
    assert(Seq::<CommandView>::empty() + parse_tokens(rest, st).0 =~= parse_tokens(rest, st).0);
}

/// The number of block openings (`If`, `While`) in a list of commands.
pub open spec fn count_block_openings(cs: Seq<CommandView>) -> nat
    decreases cs.len(),
{
    if cs.len() == 0 {
        0
    } else {
        (if cs[0].0 == Commands::If || cs[0].0 == Commands::While {
            1nat
        } else {
            0nat
        }) + count_block_openings(cs.skip(1))
    }
}

/// The number of block closings (`EndIf`, `EndWhile`) in a list of commands.
pub open spec fn count_block_closings(cs: Seq<CommandView>) -> nat
    decreases cs.len(),
{
    if cs.len() == 0 {
        0
    } else {
        (if cs[0].0 == Commands::EndIf || cs[0].0 == Commands::EndWhile {
            1nat
        } else {
            0nat
        }) + count_block_closings(cs.skip(1))
    }
}

/// The number of `end` reports without an open block.
pub open spec fn count_unmatched_ends(ds: Seq<DiagnosticView>) -> nat
    decreases ds.len(),
{
    if ds.len() == 0 {
        0
    } else {
        (if ds[0] is UnmatchedEnd {
            1nat
        } else {
            0nat
        }) + count_unmatched_ends(ds.skip(1))
    }
}

/// The number of tokens of the given class.
pub open spec fn count_class(toks: Seq<Seq<char>>, k: TokenClass) -> nat
    decreases toks.len(),
{
    if toks.len() == 0 {
        0
    } else {
        (if classify(toks[0]) == k {
            1nat
        } else {
            0nat
        }) + count_class(toks.skip(1), k)
    }
}

/// There is one block opening per `if` or `while` token, and each `end`
/// gives either one block closing or one report of an unmatched `end`.
pub proof fn law_blocks_follow_tokens(toks: Seq<Seq<char>>, st: ParseState)
    ensures
        count_block_openings(parse_tokens(toks, st).0) == count_class(toks, TokenClass::If)
            + count_class(toks, TokenClass::While),
        count_block_closings(parse_tokens(toks, st).0) + count_unmatched_ends(
            parse_tokens(toks, st).1,
        ) == count_class(toks, TokenClass::End),
    decreases toks.len(),
{
    if toks.len() > 0 {
        let (st2, c, d) = parse_step(st, toks[0]);
        lemma_step_counters(st, toks[0]);
        law_blocks_follow_tokens(toks.skip(1), st2);
        let (rc, rd) = parse_tokens(toks.skip(1), st2);
        assert(parse_tokens(toks, st) == (c + rc, d + rd));
        if c.len() == 0 {
            assert(c + rc =~= rc);
        } else {
            assert((c + rc)[0] == c[0]);
            assert((c + rc).skip(1) =~= rc);
        }
        assert(d.len() <= 1);
        if d.len() == 0 {
            assert(d + rd =~= rd);
        } else {
            assert((d + rd)[0] == d[0]);
            assert((d + rd).skip(1) =~= rd);
        }
    }
}

/// The blocks still open after the commands, innermost last, starting from
/// the open blocks `init`: each block is whether it is a `while`, and its
/// label. An opening pushes its block and a closing pops the innermost one.
pub open spec fn open_blocks_from(init: Seq<(bool, Seq<char>)>, cs: Seq<CommandView>) -> Seq<
    (bool, Seq<char>),
>
    decreases cs.len(),
{
    if cs.len() == 0 {
        init
    } else {
        let b = open_blocks_from(init, cs.drop_last());
        let c = cs.last();
        if c.0 == Commands::If {
            b.push((false, c.1[0]))
        } else if c.0 == Commands::While {
            b.push((true, c.1[0]))
        } else if c.0 == Commands::EndIf || c.0 == Commands::EndWhile {
            b.drop_last()
        } else {
            b
        }
    }
}

/// The open blocks of a conversion state, with their labels written out.
pub open spec fn labelled_blocks(blocks: Seq<(bool, nat)>) -> Seq<(bool, Seq<char>)> {
    blocks.map_values(|b: (bool, nat)| (b.0, decimal(b.1)))
}

proof fn lemma_open_blocks_concat(
    init: Seq<(bool, Seq<char>)>,
    a: Seq<CommandView>,
    b: Seq<CommandView>,
)
    ensures
        open_blocks_from(init, a + b) == open_blocks_from(open_blocks_from(init, a), b),
    decreases b.len(),
{
    if b.len() == 0 {
        assert(a + b =~= a);
    } else {
        assert((a + b).drop_last() =~= a + b.drop_last());
        assert((a + b).last() == b.last());
        lemma_open_blocks_concat(init, a, b.drop_last());
    }
}

proof fn lemma_step_blocks(st: ParseState, t: Seq<char>)
    ensures
        ({
            let (st2, c, d) = parse_step(st, t);
            &&& open_blocks_from(labelled_blocks(st.blocks), c) == labelled_blocks(st2.blocks)
            &&& (c.len() == 1 && (c[0].0 == Commands::EndIf || c[0].0 == Commands::EndWhile))
                ==> st.blocks.len() > 0 && labelled_blocks(st.blocks).last() == (c[0].0
                == Commands::EndWhile, c[0].1[0])
        }),
{
    let (st2, c, d) = parse_step(st, t);
    lemma_step_counters(st, t);
    let lb = labelled_blocks(st.blocks);
    if c.len() == 1 {
        assert(c.drop_last() =~= Seq::<CommandView>::empty());
        assert(open_blocks_from(lb, c.drop_last()) == lb);
        assert(c.last() == c[0]);
    } else {
        assert(open_blocks_from(lb, c) == lb);
    }
    assert(labelled_blocks(st.blocks.push((false, st.unique))) =~= lb.push(
        (false, decimal(st.unique)),
    ));
    assert(labelled_blocks(st.blocks.push((true, st.unique))) =~= lb.push(
        (true, decimal(st.unique)),
    ));
    if st.blocks.len() > 0 {
        assert(labelled_blocks(st.blocks.drop_last()) =~= lb.drop_last());
        assert(lb.last() == (st.blocks.last().0, decimal(st.blocks.last().1)));
    }
}

proof fn lemma_innermost(toks: Seq<Seq<char>>, st: ParseState)
    ensures
        forall|j: int|
            0 <= j < parse_tokens(toks, st).0.len() && ((#[trigger] parse_tokens(toks, st).0[j]).0
                == Commands::EndIf || parse_tokens(toks, st).0[j].0 == Commands::EndWhile) ==> {
                let b = open_blocks_from(
                    labelled_blocks(st.blocks),
                    parse_tokens(toks, st).0.take(j),
                );
                b.len() > 0 && b.last() == (parse_tokens(toks, st).0[j].0 == Commands::EndWhile,
                parse_tokens(toks, st).0[j].1[0])
            },
    decreases toks.len(),
{
    if toks.len() > 0 {
        let (st2, c, d) = parse_step(st, toks[0]);
        lemma_step_counters(st, toks[0]);
        lemma_step_blocks(st, toks[0]);
        lemma_innermost(toks.skip(1), st2);
        let rest = parse_tokens(toks.skip(1), st2).0;
        let cs = parse_tokens(toks, st).0;
        let lb = labelled_blocks(st.blocks);
        assert(cs == c + rest);
        assert forall|j: int|
            0 <= j < cs.len() && ((#[trigger] cs[j]).0 == Commands::EndIf || cs[j].0
                == Commands::EndWhile) implies ({
            let b = open_blocks_from(lb, cs.take(j));
            b.len() > 0 && b.last() == (cs[j].0 == Commands::EndWhile, cs[j].1[0])
        }) by {
            if j < c.len() {
                assert(cs.take(j) =~= Seq::<CommandView>::empty());
                assert(cs[j] == c[0]);
            } else {
                let jr = j - c.len();
                assert(cs[j] == rest[jr]);
                assert(cs.take(j) =~= c + rest.take(jr));
                lemma_open_blocks_concat(lb, c, rest.take(jr));
            }
        }
    }
}

/// Each `end` closes the innermost block still open: replaying the openings
/// and closings before an `EndIf` or `EndWhile`, the innermost open block is
/// of its kind and has its label.
pub proof fn law_end_closes_innermost_block(toks: Seq<Seq<char>>, j: int)
    requires
        0 <= j < parsed_commands(toks).0.len(),
        parsed_commands(toks).0[j].0 == Commands::EndIf || parsed_commands(toks).0[j].0
            == Commands::EndWhile,
    ensures
        ({
            let cs = parsed_commands(toks).0;
            let b = open_blocks_from(seq![], cs.take(j));
            b.len() > 0 && b.last() == (cs[j].0 == Commands::EndWhile, cs[j].1[0])
        }),
{
    lemma_innermost(toks, initial_parse_state());
    assert(labelled_blocks(initial_parse_state().blocks) =~= Seq::<(bool, Seq<char>)>::empty());
    let cs = parsed_commands(toks).0;
    assert(cs[j].0 == Commands::EndIf || cs[j].0 == Commands::EndWhile);
}

/// No token of the list makes the conversion panic.
pub open spec fn tokens_convertible(toks: Seq<Seq<char>>) -> bool {
    forall|i: int| 0 <= i < toks.len() ==> !token_panics(#[trigger] toks[i])
}

fn one_string(s: String) -> (v: Vec<String>)
    ensures
        views(v@) == seq![s@],
{
    let mut v: Vec<String> = Vec::new();
    v.push(s);
    assert(views(v@) =~= seq![s@]);
    v
}

fn two_strings(a: String, b: String) -> (v: Vec<String>)
    ensures
        views(v@) == seq![a@, b@],
{
    let mut v: Vec<String> = Vec::new();
    v.push(a);
    v.push(b);
    assert(views(v@) =~= seq![a@, b@]);
    v
}

fn no_strings() -> (v: Vec<String>)
    ensures
        views(v@) == Seq::<Seq<char>>::empty(),
{
    let v: Vec<String> = Vec::new();
    assert(views(v@) =~= Seq::<Seq<char>>::empty());
    v
}

fn syscall_suffix(t: &Vec<char>) -> (digits: Vec<char>)
    requires
        t.len() >= 7,
    ensures
        digits@ == syscall_digits(t@),
{
    let mut digits: Vec<char> = Vec::new();
    let mut k: usize = 7;
    while k < t.len()
        invariant
            7 <= k <= t.len(),
            digits@ == t@.subrange(7, k as int),
        decreases t.len() - k,
    {
        digits.push(t[k]);
        k += 1;
        assert(digits@ =~= t@.subrange(7, k as int));
    }
    assert(digits@ =~= syscall_digits(t@));
    digits
}

/// Whether converting this token would panic; see `token_panics`.
pub fn token_would_panic(token: &String) -> (r: bool)
    ensures
        r == token_panics(token@),
{
    let t = chars_of(token.as_str());
    match classify_token(&t) {
        TokenClass::Syscall => {
            let digits = syscall_suffix(&t);
            chars_all_numeric(&digits) && parse_u64(&digits).is_none()
        },
        _ => false,
    }
}

/// The view of the exec block stack.
pub open spec fn blocks_view(b: Seq<(bool, u64)>) -> Seq<(bool, nat)> {
    b.map_values(|p: (bool, u64)| (p.0, p.1 as nat))
}

/// Turns tokens into commands, with the diagnostics reported along the way;
/// see `parsed_commands`. A `syscall` token whose suffix is
/// numeric must carry a number that fits in 64 bits.
pub fn tok_to_commands(tokens: Vec<String>) -> (r: (Vec<Command>, Vec<ParseDiagnostic>))
    requires
        tokens_convertible(views(tokens@)),
    ensures
        (cmd_views(r.0@), diag_views(r.1@)) == parsed_commands(views(tokens@)),
{
    let ghost toks = views(tokens@);
    let mut commands: Vec<Command> = Vec::new();
    let mut diags: Vec<ParseDiagnostic> = Vec::new();
    let mut unique_nb: u64 = 0;
    let mut mess_nb: u64 = 0;
    let mut states: Vec<(bool, u64)> = Vec::new();
    let mut i: usize = 0;
    assert(toks.skip(0) =~= toks);
    assert(blocks_view(states@) =~= Seq::<(bool, nat)>::empty());
    proof {
        let (rc, rd) = parse_tokens(toks, initial_parse_state());
        assert(cmd_views(commands@) + rc =~= rc);
        assert(diag_views(diags@) + rd =~= rd);
    }
    while i < tokens.len()
        invariant
            toks == views(tokens@),
            tokens_convertible(toks),
            i <= tokens.len(),
            unique_nb <= i,
            mess_nb <= i,
            forall|k: int| 0 <= k < states@.len() ==> (#[trigger] states@[k]).1 < unique_nb,
            ({
                let st = ParseState {
                    unique: unique_nb as nat,
                    messages: mess_nb as nat,
                    blocks: blocks_view(states@),
                };
                let (rc, rd) = parse_tokens(toks.skip(i as int), st);
                parsed_commands(toks) == (cmd_views(commands@) + rc, diag_views(diags@) + rd)
            }),
        decreases tokens.len() - i,
    {
        let ghost st = ParseState {
            unique: unique_nb as nat,
            messages: mess_nb as nat,
            blocks: blocks_view(states@),
        };
        let ghost rest = toks.skip(i as int);
        let ghost old_c = cmd_views(commands@);
        let ghost old_d = diag_views(diags@);
        let t = chars_of(tokens[i].as_str());
        assert(t@ == toks[i as int]);
        assert(rest[0] == t@);
        assert(rest.skip(1) =~= toks.skip(i + 1));
        let class = classify_token(&t);
        let ghost (st2, sc, sd) = parse_step(st, t@);
        match class {
            TokenClass::End => {
                match states.pop() {
                    Some((is_while, nb)) => {
                        let kind = if is_while {
                            Commands::EndWhile
                        } else {
                            Commands::EndIf
                        };
                        commands.push((kind, one_string(decimal_string(nb))));
                        assert(blocks_view(states@) =~= st.blocks.drop_last());
                    },
                    None => {
                        diags.push(ParseDiagnostic::UnmatchedEnd);
                    },
                }
            },
            TokenClass::Number => {
                commands.push((Commands::Push, one_string(tokens[i].clone())));
            },
            TokenClass::Dump => {
                commands.push((Commands::Dump, no_strings()));
            },
            TokenClass::Add => {
                commands.push((Commands::Add, no_strings()));
            },
            TokenClass::Sub => {
                commands.push((Commands::Sub, no_strings()));
            },
            TokenClass::Dup => {
                commands.push((Commands::Dup, no_strings()));
            },
            TokenClass::If => {
                commands.push((Commands::If, one_string(decimal_string(unique_nb))));
                states.push((false, unique_nb));
                assert(blocks_view(states@) =~= st.blocks.push((false, st.unique)));
                unique_nb += 1;
            },
            TokenClass::While => {
                commands.push((Commands::While, one_string(decimal_string(unique_nb))));
                states.push((true, unique_nb));
                assert(blocks_view(states@) =~= st.blocks.push((true, st.unique)));
                unique_nb += 1;
            },
            TokenClass::Compare(c) => {
                commands.push((c, one_string(decimal_string(unique_nb))));
                unique_nb += 1;
            },
            TokenClass::Str => {
                commands.push(
                    (
                        Commands::PrintStringConst,
                        two_strings(tokens[i].clone(), decimal_string(mess_nb)),
                    ),
                );
                mess_nb += 1;
            },
            TokenClass::Syscall => {
                let digits = syscall_suffix(&t);
                if chars_all_numeric(&digits) {
                    assert(!token_panics(toks[i as int]));
                    match parse_u64(&digits) {
                        Some(nb) => {
                            commands.push((Commands::Syscall, one_string(decimal_string(nb))));
                        },
                        None => {},
                    }
                } else {
                    diags.push(ParseDiagnostic::SyscallWithoutNumber);
                }
            },
            TokenClass::Mul => {
                commands.push((Commands::Mul, no_strings()));
            },
            TokenClass::Mem => {
                commands.push((Commands::Mem, no_strings()));
            },
            TokenClass::Read8 => {
                let eight = chars_of("8");
                commands.push((Commands::Read, one_string(string_of(&eight))));
            },
            TokenClass::Store8 => {
                let eight = chars_of("8");
                commands.push((Commands::Write, one_string(string_of(&eight))));
            },
            TokenClass::Unknown => {
                diags.push(ParseDiagnostic::UnknownToken(tokens[i].clone()));
            },
        }
        assert(cmd_views(commands@) =~= old_c + sc);
        assert(diag_views(diags@) =~= old_d + sd);
        i += 1;
    }
    assert(toks.skip(i as int) =~= Seq::<Seq<char>>::empty());
    assert(cmd_views(commands@) + Seq::<CommandView>::empty() =~= cmd_views(commands@));
    assert(diag_views(diags@) + Seq::<DiagnosticView>::empty() =~= diag_views(diags@));
    (commands, diags)
}

/// Turns tokens into commands as `tok_to_commands` does, or gives
/// `None`, without converting, when a token would make that conversion
/// panic.
pub fn try_tok_to_commands(tokens: Vec<String>) -> (r: Option<(Vec<Command>, Vec<ParseDiagnostic>)>)
    ensures
        r is Some <==> tokens_convertible(views(tokens@)),
        r matches Some(p) ==> (cmd_views(p.0@), diag_views(p.1@)) == parsed_commands(
            views(tokens@),
        ),
{
    let ghost toks = views(tokens@);
    let mut i: usize = 0;
    while i < tokens.len()
        invariant
            toks == views(tokens@),
            i <= tokens.len(),
            forall|k: int| 0 <= k < i ==> !token_panics(#[trigger] toks[k]),
        decreases tokens.len() - i,
    {
        if token_would_panic(&tokens[i]) {
            assert(toks[i as int] == tokens@[i as int]@);
            return None;
        }
        i += 1;
    }
    Some(tok_to_commands(tokens))
}

/// The table built by successive insertions of the entries, in order: a
/// later entry for the same name replaces an earlier one.
pub open spec fn table_of<V>(entries: Seq<(Seq<char>, V)>) -> Map<Seq<char>, V>
    decreases entries.len(),
{
    if entries.len() == 0 {
        Map::empty()
    } else {
        table_of(entries.drop_last()).insert(entries.last().0, entries.last().1)
    }
}

/// The last entry for a name gives its value in the table.
pub proof fn lemma_table_of_last<V>(entries: Seq<(Seq<char>, V)>, j: int, k: Seq<char>)
    requires
        0 <= j < entries.len(),
        entries[j].0 == k,
        forall|l: int| j < l < entries.len() ==> (#[trigger] entries[l]).0 != k,
    ensures
        table_of(entries).contains_key(k),
        table_of(entries)[k] == entries[j].1,
    decreases entries.len(),
{
    if j < entries.len() - 1 {
        let prev = entries.drop_last();
        assert forall|l: int| j < l < prev.len() implies (#[trigger] prev[l]).0 != k by {
            assert(prev[l] == entries[l]);
        }
        assert(entries.last() == entries[entries.len() - 1]);
        lemma_table_of_last(prev, j, k);
    }
}

/// A name without entries is not in the table.
pub proof fn lemma_table_of_absent<V>(entries: Seq<(Seq<char>, V)>, k: Seq<char>)
    requires
        forall|l: int| 0 <= l < entries.len() ==> (#[trigger] entries[l]).0 != k,
    ensures
        !table_of(entries).contains_key(k),
    decreases entries.len(),
{
    if entries.len() > 0 {
        let prev = entries.drop_last();
        assert forall|l: int| 0 <= l < prev.len() implies (#[trigger] prev[l]).0 != k by {
            assert(prev[l] == entries[l]);
        }
        assert(entries.last() == entries[entries.len() - 1]);
        lemma_table_of_absent(prev, k);
    }
}

/// What the first pass over the tokens remembers: whether a definition is
/// open, the depth of open `if`/`while` blocks, the tokens of the definition
/// being read (from `macro` on), and the macros defined so far.
#[verifier::ext_equal]
pub struct MacroScan {
    pub in_macro: bool,
    pub depth: int,
    pub current: Seq<Seq<char>>,
    pub table: Map<Seq<char>, Seq<Seq<char>>>,
}

/// The state before the first token.
pub open spec fn initial_scan() -> MacroScan {
    MacroScan { in_macro: false, depth: 0, current: seq![], table: Map::empty() }
}

/// One token of the first pass. `None` where the expansion panics: an `end`
/// at depth zero that closes fewer than two collected tokens, or a depth
/// beyond `i32::MAX`.
pub open spec fn scan_step(st: MacroScan, t: Seq<char>) -> Option<MacroScan> {
    let after = if t == "macro"@ {
        Some(MacroScan { in_macro: true, ..st })
    } else if t == "if"@ || t == "while"@ {
        if st.depth >= i32::MAX {
            None
        } else {
            Some(MacroScan { depth: st.depth + 1, ..st })
        }
    } else if t == "end"@ {
        if st.depth == 0 {
            if st.current.len() < 2 {
                None
            } else {
                Some(
                    MacroScan {
                        in_macro: false,
                        current: seq![],
                        table: st.table.insert(st.current[1], st.current.skip(2)),
                        ..st
                    },
                )
            }
        } else {
            Some(MacroScan { depth: st.depth - 1, ..st })
        }
    } else {
        Some(st)
    };
    match after {
        Some(s) => Some(
            if s.in_macro {
                MacroScan { current: s.current.push(t), ..s }
            } else {
                s
            },
        ),
        None => None,
    }
}

/// The first pass over a token list.
pub open spec fn scan_macros(toks: Seq<Seq<char>>, st: MacroScan) -> Option<MacroScan>
    decreases toks.len(),
{
    if toks.len() == 0 {
        Some(st)
    } else {
        match scan_step(st, toks[0]) {
            Some(s2) => scan_macros(toks.skip(1), s2),
            None => None,
        }
    }
}

/// Every token that names a macro replaced by the macro's body (once, without
/// expanding the bodies again).
pub open spec fn expand(toks: Seq<Seq<char>>, table: Map<Seq<char>, Seq<Seq<char>>>) -> Seq<
    Seq<char>,
>
    decreases toks.len(),
{
    if toks.len() == 0 {
        seq![]
    } else {
        (if table.contains_key(toks[0]) {
            table[toks[0]]
        } else {
            seq![toks[0]]
        }) + expand(toks.skip(1), table)
    }
}

/// The tokens outside macro definitions, where a definition runs from a
/// `macro` token to the `end` met at depth zero; `None` where the depth
/// would go beyond `i32::MAX`.
pub open spec fn strip_definitions(toks: Seq<Seq<char>>, in_macro: bool, depth: int) -> Option<
    Seq<Seq<char>>,
>
    decreases toks.len(),
{
    if toks.len() == 0 {
        Some(seq![])
    } else {
        let t = toks[0];
        let im = in_macro || t == "macro"@;
        let kept = if im {
            Seq::<Seq<char>>::empty()
        } else {
            seq![t]
        };
        let next: Option<(bool, int)> = if t == "if"@ || t == "while"@ {
            if depth >= i32::MAX {
                None
            } else {
                Some((im, depth + 1))
            }
        } else if t == "end"@ {
            if depth == 0 {
                Some((false, depth))
            } else {
                Some((im, depth - 1))
            }
        } else {
            Some((im, depth))
        };
        match next {
            None => None,
            Some(n) => match strip_definitions(toks.skip(1), n.0, n.1) {
                Some(r) => Some(kept + r),
                None => None,
            },
        }
    }
}

/// The tokens after macro expansion, or `None` where it panics.
pub open spec fn macro_expansion(toks: Seq<Seq<char>>) -> Option<Seq<Seq<char>>> {
    match scan_macros(toks, initial_scan()) {
        None => None,
        Some(s) => strip_definitions(expand(toks, s.table), false, 0),
    }
}

proof fn lemma_strip_no_macro(toks: Seq<Seq<char>>, in_macro: bool, depth: int)
    ensures
        strip_definitions(toks, in_macro, depth) matches Some(r) ==> forall|i: int|
            0 <= i < r.len() ==> #[trigger] r[i] != "macro"@,
    decreases toks.len(),
{
    if toks.len() > 0 {
        let t = toks[0];
        let im = in_macro || t == "macro"@;
        let next: Option<(bool, int)> = if t == "if"@ || t == "while"@ {
            if depth >= i32::MAX {
                None
            } else {
                Some((im, depth + 1))
            }
        } else if t == "end"@ {
            if depth == 0 {
                Some((false, depth))
            } else {
                Some((im, depth - 1))
            }
        } else {
            Some((im, depth))
        };
        if let Some(n) = next {
            lemma_strip_no_macro(toks.skip(1), n.0, n.1);
            if let Some(rest) = strip_definitions(toks.skip(1), n.0, n.1) {
                let kept = if im {
                    Seq::<Seq<char>>::empty()
                } else {
                    seq![t]
                };
                let r = kept + rest;
                assert(strip_definitions(toks, in_macro, depth) == Some(r));
                assert forall|i: int| 0 <= i < r.len() implies #[trigger] r[i] != "macro"@ by {
                    if i >= kept.len() {
                        assert(r[i] == rest[i - kept.len()]);
                    }
                }
            }
        }
    }
}

/// Macro expansion leaves no `macro` token behind: every definition is
/// removed from the output.
pub proof fn law_expansion_removes_definitions(toks: Seq<Seq<char>>, i: int)
    requires
        macro_expansion(toks) is Some,
        0 <= i < macro_expansion(toks).unwrap().len(),
    ensures
        macro_expansion(toks).unwrap()[i] != "macro"@,
{
    let s = scan_macros(toks, initial_scan()).unwrap();
    lemma_strip_no_macro(expand(toks, s.table), false, 0);
}

proof fn lemma_scan_without_macro(toks: Seq<Seq<char>>, st: MacroScan)
    requires
        forall|i: int| 0 <= i < toks.len() ==> #[trigger] toks[i] != "macro"@,
        !st.in_macro,
        st.current.len() == 0,
    ensures
        scan_macros(toks, st) matches Some(s) ==> s.table == st.table,
    decreases toks.len(),
{
    if toks.len() > 0 {
        assert(toks[0] != "macro"@);
        if let Some(s2) = scan_step(st, toks[0]) {
            assert(!s2.in_macro && s2.current.len() == 0 && s2.table == st.table);
            assert forall|i: int| 0 <= i < toks.skip(1).len() implies #[trigger] toks.skip(1)[i]
                != "macro"@ by {
                assert(toks.skip(1)[i] == toks[i + 1]);
            }
            lemma_scan_without_macro(toks.skip(1), s2);
        }
    }
}

proof fn lemma_expand_empty(toks: Seq<Seq<char>>)
    ensures
        expand(toks, Map::empty()) == toks,
    decreases toks.len(),
{
    if toks.len() > 0 {
        lemma_expand_empty(toks.skip(1));
        assert(seq![toks[0]] + toks.skip(1) =~= toks);
    } else {
        assert(toks =~= Seq::<Seq<char>>::empty());
    }
}

proof fn lemma_strip_without_macro(toks: Seq<Seq<char>>, depth: int)
    requires
        forall|i: int| 0 <= i < toks.len() ==> #[trigger] toks[i] != "macro"@,
    ensures
        strip_definitions(toks, false, depth) matches Some(r) ==> r == toks,
    decreases toks.len(),
{
    if toks.len() > 0 {
        let t = toks[0];
        assert(t != "macro"@);
        assert forall|i: int| 0 <= i < toks.skip(1).len() implies #[trigger] toks.skip(1)[i]
            != "macro"@ by {
            assert(toks.skip(1)[i] == toks[i + 1]);
        }
        if t == "if"@ || t == "while"@ {
            lemma_strip_without_macro(toks.skip(1), depth + 1);
        } else if t == "end"@ {
            lemma_strip_without_macro(toks.skip(1), if depth == 0 { depth } else { depth - 1 });
        } else {
            lemma_strip_without_macro(toks.skip(1), depth);
        }
        assert(seq![t] + toks.skip(1) =~= toks);
    } else {
        assert(toks =~= Seq::<Seq<char>>::empty());
    }
}

/// A token list without `macro` tokens comes out of macro expansion
/// unchanged (when the expansion succeeds).
pub proof fn law_expansion_without_macros(toks: Seq<Seq<char>>)
    requires
        forall|i: int| 0 <= i < toks.len() ==> #[trigger] toks[i] != "macro"@,
        macro_expansion(toks) is Some,
    ensures
        macro_expansion(toks) == Some(toks),
{
    lemma_scan_without_macro(toks, initial_scan());
    lemma_expand_empty(toks);
    lemma_strip_without_macro(toks, 0);
}

/// Read from depth `depth`, every `end` closes an open `if` or `while`, and
/// the depth of open blocks stays within `i32::MAX`.
pub open spec fn ends_balanced(toks: Seq<Seq<char>>, depth: int) -> bool
    decreases toks.len(),
{
    if toks.len() == 0 {
        true
    } else {
        let t = toks[0];
        if t == "if"@ || t == "while"@ {
            depth < i32::MAX && ends_balanced(toks.skip(1), depth + 1)
        } else if t == "end"@ {
            depth > 0 && ends_balanced(toks.skip(1), depth - 1)
        } else {
            ends_balanced(toks.skip(1), depth)
        }
    }
}

proof fn lemma_no_macro_skip(toks: Seq<Seq<char>>)
    requires
        toks.len() > 0,
        forall|i: int| 0 <= i < toks.len() ==> #[trigger] toks[i] != "macro"@,
    ensures
        forall|i: int| 0 <= i < toks.skip(1).len() ==> #[trigger] toks.skip(1)[i] != "macro"@,
{
    assert forall|i: int| 0 <= i < toks.skip(1).len() implies #[trigger] toks.skip(1)[i]
        != "macro"@ by {
        assert(toks.skip(1)[i] == toks[i + 1]);
    }
}

proof fn lemma_scan_balanced(toks: Seq<Seq<char>>, st: MacroScan)
    requires
        forall|i: int| 0 <= i < toks.len() ==> #[trigger] toks[i] != "macro"@,
        !st.in_macro,
        st.current.len() == 0,
        ends_balanced(toks, st.depth),
    ensures
        scan_macros(toks, st) is Some,
    decreases toks.len(),
{
    if toks.len() > 0 {
        assert(toks[0] != "macro"@);
        lemma_no_macro_skip(toks);
        let s2 = scan_step(st, toks[0]).unwrap();
        assert(!s2.in_macro && s2.current.len() == 0);
        lemma_scan_balanced(toks.skip(1), s2);
    }
}

proof fn lemma_strip_balanced(toks: Seq<Seq<char>>, depth: int)
    requires
        forall|i: int| 0 <= i < toks.len() ==> #[trigger] toks[i] != "macro"@,
        ends_balanced(toks, depth),
    ensures
        strip_definitions(toks, false, depth) is Some,
    decreases toks.len(),
{
    if toks.len() > 0 {
        let t = toks[0];
        assert(t != "macro"@);
        lemma_no_macro_skip(toks);
        if t == "if"@ || t == "while"@ {
            lemma_strip_balanced(toks.skip(1), depth + 1);
        } else if t == "end"@ {
            lemma_strip_balanced(toks.skip(1), depth - 1);
        } else {
            lemma_strip_balanced(toks.skip(1), depth);
        }
    }
}

/// Without `macro` tokens, and with every `end` closing an open `if` or
/// `while`, macro expansion succeeds and gives the tokens back unchanged.
pub proof fn law_balanced_macro_free_tokens_unchanged(toks: Seq<Seq<char>>)
    requires
        forall|i: int| 0 <= i < toks.len() ==> #[trigger] toks[i] != "macro"@,
        ends_balanced(toks, 0),
    ensures
        macro_expansion(toks) == Some(toks),
{
    lemma_scan_balanced(toks, initial_scan());
    lemma_scan_without_macro(toks, initial_scan());
    lemma_expand_empty(toks);
    lemma_strip_balanced(toks, 0);
    law_expansion_without_macros(toks);
}

proof fn lemma_scan_success_balanced(toks: Seq<Seq<char>>, st: MacroScan)
    requires
        forall|i: int| 0 <= i < toks.len() ==> #[trigger] toks[i] != "macro"@,
        !st.in_macro,
        st.current.len() == 0,
        st.depth >= 0,
        scan_macros(toks, st) is Some,
    ensures
        ends_balanced(toks, st.depth),
    decreases toks.len(),
{
    if toks.len() > 0 {
        assert(toks[0] != "macro"@);
        lemma_no_macro_skip(toks);
        assert(scan_step(st, toks[0]) is Some);
        let s2 = scan_step(st, toks[0]).unwrap();
        assert(!s2.in_macro && s2.current.len() == 0);
        assert(scan_macros(toks.skip(1), s2) is Some);
        lemma_scan_success_balanced(toks.skip(1), s2);
        let t = toks[0];
        if t == "if"@ || t == "while"@ {
            assert(st.depth < i32::MAX && s2.depth == st.depth + 1);
        } else if t == "end"@ {
            assert(st.depth > 0 && s2.depth == st.depth - 1);
        } else {
            assert(s2.depth == st.depth);
        }
    }
}

/// Expanding the macros of an expanded token list changes nothing: the
/// second expansion gives the same tokens back, and it fails exactly when an
/// `end` of the first result closes no open `if` or `while` (or the nesting
/// goes beyond `i32::MAX`).
pub proof fn law_expansion_is_idempotent(toks: Seq<Seq<char>>)
    requires
        macro_expansion(toks) is Some,
    ensures
        macro_expansion(macro_expansion(toks).unwrap()) is Some <==> ends_balanced(
            macro_expansion(toks).unwrap(),
            0,
        ),
        macro_expansion(macro_expansion(toks).unwrap()) is Some ==> macro_expansion(
            macro_expansion(toks).unwrap(),
        ) == macro_expansion(toks),
{
    let out = macro_expansion(toks).unwrap();
    assert forall|i: int| 0 <= i < out.len() implies #[trigger] out[i] != "macro"@ by {
        law_expansion_removes_definitions(toks, i);
    }
    if ends_balanced(out, 0) {
        law_balanced_macro_free_tokens_unchanged(out);
    }
    if macro_expansion(out) is Some {
        lemma_scan_success_balanced(out, initial_scan());
        law_expansion_without_macros(out);
    }
}

/// A table entry: a macro's name and its body.
pub type MacroEntry = (Vec<char>, Vec<String>);

/// The view of the table entries.
pub open spec fn entry_views(es: Seq<MacroEntry>) -> Seq<(Seq<char>, Seq<Seq<char>>)> {
    es.map_values(|e: MacroEntry| (e.0@, views(e.1@)))
}

fn find_macro(entries: &Vec<MacroEntry>, key: &Vec<char>) -> (r: Option<usize>)
    ensures
        match r {
            Some(j) => j < entries@.len() && table_of(entry_views(entries@)).contains_key(key@)
                && table_of(entry_views(entries@))[key@] == views(entries@[j as int].1@),
            None => !table_of(entry_views(entries@)).contains_key(key@),
        },
{
    let ghost ev = entry_views(entries@);
    let mut j: usize = entries.len();
    while j > 0
        invariant
            j <= entries.len(),
            ev == entry_views(entries@),
            forall|l: int| j <= l < ev.len() ==> (#[trigger] ev[l]).0 != key@,
        decreases j,
    {
        if crate::text::chars_eq(&entries[j - 1].0, key) {
            proof {
                lemma_table_of_last(ev, j - 1, key@);
            }
            return Some(j - 1);
        }
        j -= 1;
    }
    proof {
        lemma_table_of_absent(ev, key@);
    }
    None
}

fn clone_strings_from(v: &Vec<String>, from: usize) -> (r: Vec<String>)
    requires
        from <= v.len(),
    ensures
        views(r@) == views(v@).skip(from as int),
{
    let mut r: Vec<String> = Vec::new();
    let mut k: usize = from;
    while k < v.len()
        invariant
            from <= k <= v.len(),
            r@.len() == k - from,
            views(r@) =~= views(v@).subrange(from as int, k as int),
        decreases v.len() - k,
    {
        let c = v[k].clone();
        let ghost old_r = r@;
        r.push(c);
        assert(r@ == old_r.push(c));
        assert(views(r@)[k - from] == views(v@)[k as int]);
        k += 1;
        assert(views(r@) =~= views(v@).subrange(from as int, k as int));
    }
    r
}

/// The view of the first pass's exec state.
pub open spec fn scan_view(in_macro: bool, depth: i32, current: Seq<String>, entries: Seq<MacroEntry>) -> MacroScan {
    MacroScan {
        in_macro,
        depth: depth as int,
        current: views(current),
        table: table_of(entry_views(entries)),
    }
}

/// Expands macros as `parse_macros` does, or gives `None` where that
/// function panics; see `macro_expansion`.
pub fn try_parse_macros(tokens: &Vec<String>) -> (r: Option<Vec<String>>)
    ensures
        match r {
            Some(v) => macro_expansion(views(tokens@)) == Some(views(v@)),
            None => macro_expansion(views(tokens@)) is None,
        },
{
    let ghost toks = views(tokens@);
    // First pass: collect the definitions.
    let mut entries: Vec<MacroEntry> = Vec::new();
    let mut current: Vec<String> = Vec::new();
    let mut end_counter: i32 = 0;
    let mut in_macro: bool = false;
    let mut i: usize = 0;
    assert(toks.skip(0) =~= toks);
    assert(scan_view(false, 0, current@, entries@) =~= initial_scan()) by {
        assert(views(current@) =~= Seq::<Seq<char>>::empty());
        assert(table_of(entry_views(entries@)) =~= Map::<Seq<char>, Seq<Seq<char>>>::empty());
    }
    while i < tokens.len()
        invariant
            toks == views(tokens@),
            i <= tokens.len(),
            0 <= end_counter,
            scan_macros(toks, initial_scan()) == scan_macros(
                toks.skip(i as int),
                scan_view(in_macro, end_counter, current@, entries@),
            ),
        decreases tokens.len() - i,
    {
        let ghost st = scan_view(in_macro, end_counter, current@, entries@);
        let ghost rest = toks.skip(i as int);
        let t = chars_of(tokens[i].as_str());
        assert(t@ == toks[i as int]);
        assert(rest[0] == t@);
        assert(rest.skip(1) =~= toks.skip(i + 1));
        if is_word(&t, "macro") {
            in_macro = true;
        } else if is_word(&t, "if") || is_word(&t, "while") {
            if end_counter == i32::MAX {
                return None;
            }
            end_counter += 1;
        } else if is_word(&t, "end") {
            if end_counter == 0 {
                if current.len() < 2 {
                    return None;
                }
                in_macro = false;
                let key = chars_of(current[1].as_str());
                let body = clone_strings_from(&current, 2);
                let ghost old_entries = entry_views(entries@);
                entries.push((key, body));
                assert(entry_views(entries@) =~= old_entries.push((views(current@)[1], views(current@).skip(2))));
                assert(entry_views(entries@).drop_last() =~= old_entries);
                current = Vec::new();
                assert(views(current@) =~= Seq::<Seq<char>>::empty());
            } else {
                end_counter -= 1;
            }
        }
        if in_macro {
            current.push(tokens[i].clone());
            assert(views(current@) =~= views(current@).drop_last().push(t@));
        }
        proof {
            let s2 = scan_view(in_macro, end_counter, current@, entries@);
            let expected = scan_step(st, t@);
            assert(expected.unwrap().current =~= s2.current);
            assert(expected.unwrap().table =~= s2.table);
            assert(expected == Some(s2));
        }
        i += 1;
    }
    assert(toks.skip(i as int) =~= Seq::<Seq<char>>::empty());
    let ghost table = table_of(entry_views(entries@));
    assert(macro_expansion(toks) == strip_definitions(expand(toks, table), false, 0));
    // Second pass: replace each macro name by its body.
    let mut new_tokens: Vec<String> = Vec::new();
    let mut i: usize = 0;
    assert(views(new_tokens@) + expand(toks, table) =~= expand(toks.skip(0), table));
    while i < tokens.len()
        invariant
            toks == views(tokens@),
            i <= tokens.len(),
            table == table_of(entry_views(entries@)),
            macro_expansion(toks) == strip_definitions(expand(toks, table), false, 0),
            expand(toks, table) == views(new_tokens@) + expand(toks.skip(i as int), table),
        decreases tokens.len() - i,
    {
        let ghost rest = toks.skip(i as int);
        let ghost before = views(new_tokens@);
        let t = chars_of(tokens[i].as_str());
        assert(t@ == toks[i as int]);
        assert(rest[0] == t@);
        assert(rest.skip(1) =~= toks.skip(i + 1));
        match find_macro(&entries, &t) {
            Some(j) => {
                let body = clone_strings_from(&entries[j].1, 0);
                assert(views(entries@[j as int].1@).skip(0) =~= views(entries@[j as int].1@));
                let mut k: usize = 0;
                while k < body.len()
                    invariant
                        k <= body.len(),
                        new_tokens@.len() == before.len() + k,
                        views(new_tokens@) =~= before + views(body@).take(k as int),
                    decreases body.len() - k,
                {
                    let c = body[k].clone();
                    let ghost old_n = new_tokens@;
                    new_tokens.push(c);
                    assert(new_tokens@ == old_n.push(c));
                    assert(views(new_tokens@) =~= views(old_n).push(c@));
                    assert(views(body@).take(k + 1) =~= views(body@).take(k as int).push(c@));
                    k += 1;
                    assert(views(new_tokens@) =~= before + views(body@).take(k as int));
                }
                assert(views(body@).take(k as int) =~= views(body@));
            },
            None => {
                new_tokens.push(tokens[i].clone());
                assert(views(new_tokens@) =~= before + seq![t@]);
            },
        }
        i += 1;
    }
    assert(toks.skip(i as int) =~= Seq::<Seq<char>>::empty());
    assert(views(new_tokens@) + Seq::<Seq<char>>::empty() =~= views(new_tokens@));
    let ghost expanded = views(new_tokens@);
    // Third pass: drop the definitions.
    let mut true_tokens: Vec<String> = Vec::new();
    let mut in_macro: bool = false;
    let mut end_counter: i32 = 0;
    let mut i: usize = 0;
    assert(expanded.skip(0) =~= expanded);
    while i < new_tokens.len()
        invariant
            expanded == views(new_tokens@),
            toks == views(tokens@),
            macro_expansion(toks) == strip_definitions(expanded, false, 0),
            i <= new_tokens.len(),
            0 <= end_counter,
            strip_definitions(expanded, false, 0) == match strip_definitions(
                expanded.skip(i as int),
                in_macro,
                end_counter as int,
            ) {
                Some(r) => Some(views(true_tokens@) + r),
                None => None,
            },
        decreases new_tokens.len() - i,
    {
        let ghost rest = expanded.skip(i as int);
        let ghost before = views(true_tokens@);
        let t = chars_of(new_tokens[i].as_str());
        assert(t@ == expanded[i as int]);
        assert(rest[0] == t@);
        assert(rest.skip(1) =~= expanded.skip(i + 1));
        if is_word(&t, "macro") {
            in_macro = true;
        }
        if !in_macro {
            true_tokens.push(new_tokens[i].clone());
            assert(views(true_tokens@) =~= before + seq![t@]);
        } else {
            assert(views(true_tokens@) =~= before + Seq::<Seq<char>>::empty());
        }
        if is_word(&t, "if") || is_word(&t, "while") {
            if end_counter == i32::MAX {
                return None;
            }
            end_counter += 1;
        } else if is_word(&t, "end") {
            if end_counter == 0 {
                in_macro = false;
            } else {
                end_counter -= 1;
            }
        }
        i += 1;
    }
    assert(expanded.skip(i as int) =~= Seq::<Seq<char>>::empty());
    assert(views(true_tokens@) + Seq::<Seq<char>>::empty() =~= views(true_tokens@));
    Some(true_tokens)
}

/// Expands the macros of a token list: `macro NAME BODY... end` defines
/// NAME (a later definition replaces an earlier one), every token naming a
/// macro is replaced by its body, and the definitions are then dropped; see
/// `macro_expansion`. The input must be one on which the expansion does not
/// panic.
pub fn parse_macros(tokens: Vec<String>) -> (r: Vec<String>)
    requires
        macro_expansion(views(tokens@)) is Some,
    ensures
        macro_expansion(views(tokens@)) == Some(views(r@)),
{
    match try_parse_macros(&tokens) {
        Some(v) => v,
        None => Vec::new(),
    }
}

} // verus!
