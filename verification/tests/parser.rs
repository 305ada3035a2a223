use pyasm::instructions::Commands;
use pyasm::parser::{
    cut_string, is_string, parse_macros, tok_to_commands, try_parse_macros, try_tok_to_commands,
    ParseDiagnostic,
};

fn strings(v: &[&str]) -> Vec<String> {
    v.iter().map(|s| s.to_string()).collect()
}

fn cmd(c: Commands, args: &[&str]) -> (Commands, Vec<String>) {
    (c, strings(args))
}

#[test]
fn numbers_and_operators() {
    let (cmds, diags) = tok_to_commands(strings(&["3", "3", "+", ".", "-", "*", "dup", "mem"]));
    assert_eq!(
        cmds,
        vec![
            cmd(Commands::Push, &["3"]),
            cmd(Commands::Push, &["3"]),
            cmd(Commands::Add, &[]),
            cmd(Commands::Dump, &[]),
            cmd(Commands::Sub, &[]),
            cmd(Commands::Mul, &[]),
            cmd(Commands::Dup, &[]),
            cmd(Commands::Mem, &[]),
        ]
    );
    assert!(diags.is_empty());
}

#[test]
fn blocks_and_comparisons_share_increasing_labels() {
    let (cmds, diags) =
        tok_to_commands(strings(&["1", "2", "<", "if", "end", "3", "while", ">", "end", "=", "!=", ">=", "<="]));
    assert_eq!(
        cmds,
        vec![
            cmd(Commands::Push, &["1"]),
            cmd(Commands::Push, &["2"]),
            cmd(Commands::L, &["0"]),
            cmd(Commands::If, &["1"]),
            cmd(Commands::EndIf, &["1"]),
            cmd(Commands::Push, &["3"]),
            cmd(Commands::While, &["2"]),
            cmd(Commands::G, &["3"]),
            cmd(Commands::EndWhile, &["2"]),
            cmd(Commands::E, &["4"]),
            cmd(Commands::Ne, &["5"]),
            cmd(Commands::Ge, &["6"]),
            cmd(Commands::Le, &["7"]),
        ]
    );
    assert!(diags.is_empty());
}

#[test]
fn end_closes_the_innermost_block() {
    let (cmds, _) = tok_to_commands(strings(&["if", "while", "end", "end"]));
    assert_eq!(
        cmds,
        vec![
            cmd(Commands::If, &["0"]),
            cmd(Commands::While, &["1"]),
            cmd(Commands::EndWhile, &["1"]),
            cmd(Commands::EndIf, &["0"]),
        ]
    );
}

#[test]
fn string_literals_are_numbered() {
    let (cmds, _) = tok_to_commands(strings(&["\"hi\"", "\"yo there\""]));
    assert_eq!(
        cmds,
        vec![
            cmd(Commands::PrintStringConst, &["\"hi\"", "0"]),
            cmd(Commands::PrintStringConst, &["\"yo there\"", "1"]),
        ]
    );
}

#[test]
fn syscall_numbers_are_normalized() {
    let (cmds, diags) = tok_to_commands(strings(&["syscall3", "syscall007"]));
    assert_eq!(cmds, vec![cmd(Commands::Syscall, &["3"]), cmd(Commands::Syscall, &["7"])]);
    assert!(diags.is_empty());
}

#[test]
fn memory_access_words() {
    let (cmds, _) = tok_to_commands(strings(&["read8", "store8"]));
    assert_eq!(cmds, vec![cmd(Commands::Read, &["8"]), cmd(Commands::Write, &["8"])]);
}

#[test]
fn diagnostics_for_bad_tokens() {
    let (cmds, diags) = tok_to_commands(strings(&["end", "syscallx", "foo", "1"]));
    assert_eq!(cmds, vec![cmd(Commands::Push, &["1"])]);
    assert_eq!(
        diags,
        vec![
            ParseDiagnostic::UnmatchedEnd,
            ParseDiagnostic::SyscallWithoutNumber,
            ParseDiagnostic::UnknownToken("foo".to_string()),
        ]
    );
}

#[test]
fn unicode_numbers_count_as_numbers() {
    let (cmds, diags) = tok_to_commands(strings(&["\u{663}", "\u{bd}", "\u{4e09}"]));
    assert_eq!(cmds, vec![cmd(Commands::Push, &["\u{663}"]), cmd(Commands::Push, &["\u{bd}"])]);
    assert_eq!(diags, vec![ParseDiagnostic::UnknownToken("\u{4e09}".to_string())]);
}

#[test]
fn an_empty_token_is_a_number() {
    let (cmds, _) = tok_to_commands(strings(&[""]));
    assert_eq!(cmds, vec![cmd(Commands::Push, &[""])]);
}

#[test]
fn unreadable_syscall_numbers_are_refused() {
    assert!(try_tok_to_commands(strings(&["syscall"])).is_none());
    assert!(try_tok_to_commands(strings(&["1", "syscall99999999999999999999"])).is_none());
    assert!(try_tok_to_commands(strings(&["syscall\u{663}"])).is_none());
    let ok = try_tok_to_commands(strings(&["syscall18446744073709551615"])).unwrap();
    assert_eq!(ok.0, vec![cmd(Commands::Syscall, &["18446744073709551615"])]);
}

#[test]
fn macros_are_expanded_and_removed() {
    let out = parse_macros(strings(&["macro", "sq", "dup", "*", "end", "3", "sq", "."]));
    assert_eq!(out, strings(&["3", "dup", "*", "."]));
}

#[test]
fn macro_bodies_may_hold_blocks() {
    let out = parse_macros(strings(&["macro", "m", "if", "1", "end", "end", "0", "m"]));
    assert_eq!(out, strings(&["0", "if", "1", "end"]));
}

#[test]
fn a_later_definition_wins() {
    let out = parse_macros(strings(&["macro", "a", "1", "end", "macro", "a", "2", "end", "a"]));
    assert_eq!(out, strings(&["2"]));
}

#[test]
fn macro_free_programs_are_unchanged() {
    let toks = strings(&["1", "if", "2", ".", "end"]);
    assert_eq!(parse_macros(toks.clone()), toks);
}

#[test]
fn broken_definitions_are_refused() {
    assert!(try_parse_macros(&strings(&["end"])).is_none());
    assert!(try_parse_macros(&strings(&["macro", "end"])).is_none());
    assert_eq!(try_parse_macros(&strings(&["1", "2"])), Some(strings(&["1", "2"])));
}

#[test]
fn string_tokens() {
    assert!(is_string("\"abc\""));
    assert!(is_string("\""));
    assert!(!is_string("abc\""));
    assert!(!is_string(""));
}

#[test]
fn cutting_quotes() {
    assert_eq!(cut_string("\"abc\""), "abc");
    assert_eq!(cut_string("\"\""), "");
    assert_eq!(cut_string("x"), "");
    assert_eq!(cut_string(""), "");
    assert_eq!(cut_string("\"h\u{e9}\""), "h\u{e9}");
}

#[test]
fn expanding_twice_changes_nothing() {
    let once = parse_macros(strings(&[
        "macro", "twice", "dup", "+", "end", "macro", "loop", "while", "1", "end", "end", "3",
        "twice", "loop", ".",
    ]));
    assert_eq!(once, strings(&["3", "dup", "+", "while", "1", "end", "."]));
    let twice = parse_macros(once.clone());
    assert_eq!(twice, once);
}

#[test]
fn a_second_expansion_can_meet_an_unmatched_end() {
    // A definition opened inside an `if` takes the `end` of that `if` into
    // its body, so the expanded tokens end with an `end` that closes nothing.
    let once = try_parse_macros(&strings(&["if", "macro", "a", "end", "x", "end", "a"])).unwrap();
    assert_eq!(once, strings(&["if", "x", "end", "end", "x"]));
    assert_eq!(try_parse_macros(&once), None);
}

#[test]
fn uses_before_a_definition_are_replaced_too() {
    let out = parse_macros(strings(&["sq", "macro", "sq", "dup", "*", "end", "4", "sq"]));
    assert_eq!(out, strings(&["dup", "*", "4", "dup", "*"]));
}

#[test]
fn every_block_label_is_opened_and_closed_once() {
    let (cmds, diags) = tok_to_commands(strings(&[
        "1", "if", "2", "while", "3", "<", "if", "end", "end", "end", "while", "end",
    ]));
    assert!(diags.is_empty());
    let openings: Vec<&String> = cmds
        .iter()
        .filter(|c| c.0 == Commands::If || c.0 == Commands::While)
        .map(|c| &c.1[0])
        .collect();
    let closings: Vec<&String> = cmds
        .iter()
        .filter(|c| c.0 == Commands::EndIf || c.0 == Commands::EndWhile)
        .map(|c| &c.1[0])
        .collect();
    assert_eq!(openings, vec!["0", "1", "3", "4"]);
    let mut sorted = closings.clone();
    sorted.sort();
    assert_eq!(sorted, vec!["0", "1", "3", "4"]);
    assert_eq!(closings, vec!["3", "1", "0", "4"]);
}
