use pyasm::lexer::file_to_tok;

fn strings(v: &[&str]) -> Vec<String> {
    v.iter().map(|s| s.to_string()).collect()
}

#[test]
fn splits_on_spaces_and_newlines() {
    assert_eq!(file_to_tok("3 3 + ."), strings(&["3", "3", "+", "."]));
    assert_eq!(file_to_tok("1\n\n  2   3\n"), strings(&["1", "2", "3"]));
}

#[test]
fn empty_and_blank_files_have_no_tokens() {
    assert_eq!(file_to_tok(""), Vec::<String>::new());
    assert_eq!(file_to_tok("  \n \n"), Vec::<String>::new());
}

#[test]
fn removes_both_comment_styles() {
    assert_eq!(file_to_tok("1 // one\n2 # two\n3"), strings(&["1", "2", "3"]));
    assert_eq!(file_to_tok("# only a comment"), Vec::<String>::new());
}

#[test]
fn tabs_are_blanks_and_carriage_returns_vanish() {
    assert_eq!(file_to_tok("1\t2\r\n3"), strings(&["1", "2", "3"]));
    assert_eq!(file_to_tok("ab\rc"), strings(&["abc"]));
}

#[test]
fn carriage_return_between_slashes_makes_a_comment() {
    assert_eq!(file_to_tok("1 /\r/ x\n2"), strings(&["1", "2"]));
}

#[test]
fn strings_keep_their_blanks() {
    assert_eq!(file_to_tok("\"hello world\" 1"), strings(&["\"hello world\"", "1"]));
    assert_eq!(file_to_tok("\"a\nb\" c"), strings(&["\"a\nb\"", "c"]));
}

#[test]
fn a_hash_inside_a_string_still_starts_a_comment() {
    assert_eq!(file_to_tok("\"a#b\" 1\n2"), strings(&["\"a\n2"]));
}

#[test]
fn quotes_glue_neighbouring_text() {
    assert_eq!(file_to_tok("x\"a b\"y z"), strings(&["x\"a b\"y", "z"]));
}

#[test]
fn every_token_is_non_empty() {
    for t in file_to_tok("  a  \"\"  b \n\n c // d") {
        assert!(!t.is_empty());
    }
}

#[test]
fn no_token_holds_comment_marks_or_tabs() {
    for t in file_to_tok("a\tb#c\r\nd \"e\tf\" g//h") {
        assert!(!t.contains('#') && !t.contains('\t') && !t.contains('\r'));
    }
}

#[test]
fn tokens_without_quotes_hold_no_blanks() {
    let toks = file_to_tok("a \"b c\" d\ne \"f\ng\" h");
    assert_eq!(toks, strings(&["a", "\"b c\"", "d", "e", "\"f\ng\"", "h"]));
    for t in toks {
        if !t.contains('"') {
            assert!(!t.contains(' ') && !t.contains('\n'));
        }
    }
}
