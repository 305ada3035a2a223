use pyasm::compiler::front_end;
use pyasm::instructions::{Commands, Setting, Settings};
use pyasm::text::{chars_of, decimal_string, parse_u64};

fn chars(s: &str) -> Vec<char> {
    s.chars().collect()
}

#[test]
fn decimal_notation() {
    assert_eq!(decimal_string(0), "0");
    assert_eq!(decimal_string(1234), "1234");
    assert_eq!(decimal_string(u64::MAX), "18446744073709551615");
}

#[test]
fn reading_numbers() {
    assert_eq!(parse_u64(&chars("42")), Some(42));
    assert_eq!(parse_u64(&chars("+5")), Some(5));
    assert_eq!(parse_u64(&chars("007")), Some(7));
    assert_eq!(parse_u64(&chars("18446744073709551615")), Some(u64::MAX));
    assert_eq!(parse_u64(&chars("18446744073709551616")), None);
    assert_eq!(parse_u64(&chars("")), None);
    assert_eq!(parse_u64(&chars("+")), None);
    assert_eq!(parse_u64(&chars("-1")), None);
    assert_eq!(parse_u64(&chars("12a")), None);
    assert_eq!(parse_u64(&chars("\u{663}")), None);
}

#[test]
fn characters_of_a_string() {
    assert_eq!(chars_of("h\u{e9}!"), vec!['h', '\u{e9}', '!']);
}

#[test]
fn settings_give_back_what_was_added() {
    let mut s = Settings::new();
    assert_eq!(s.find_value(Setting::MemorySize), None);
    s.add_setting(Setting::MemorySize, 1000);
    s.add_setting(Setting::FunctionDepthLimit, 10);
    assert_eq!(s.get_value(Setting::MemorySize), 1000);
    assert_eq!(s.get_value(Setting::FunctionDepthLimit), 10);
}

#[test]
fn first_entry_wins() {
    let s = Settings { settings_array: vec![(Setting::MemorySize, 1), (Setting::MemorySize, 2)] };
    assert_eq!(s.get_value(Setting::MemorySize), 1);
}

#[test]
fn front_end_expands_macros_before_converting() {
    let (cmds, diags) = front_end("macro sq dup * end\n3 sq . // square").unwrap();
    assert!(diags.is_empty());
    assert_eq!(
        cmds,
        vec![
            (Commands::Push, vec!["3".to_string()]),
            (Commands::Dup, vec![]),
            (Commands::Mul, vec![]),
            (Commands::Dump, vec![]),
        ]
    );
    assert!(front_end("end").is_none());
    assert!(front_end("syscall").is_none());
}

#[test]
fn command_names() {
    assert_eq!(Commands::Push.name(), "Push");
    assert_eq!(Commands::PrintStringConst.name(), "PrintStringConst");
    assert_eq!(Commands::EndWhile.name(), "EndWhile");
}
