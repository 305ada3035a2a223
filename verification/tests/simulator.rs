use pyasm::compiler::front_end;
use pyasm::instructions::{Commands, Setting, Settings};
use pyasm::simulator::{simulate, simulate_until_failure, try_simulate};

fn settings() -> Settings {
    let mut s = Settings::new();
    s.add_setting(Setting::MemorySize, 1000);
    s.add_setting(Setting::FunctionDepthLimit, 10);
    s
}

fn run(src: &str) -> Option<Vec<u64>> {
    let (cmds, diags) = front_end(src).unwrap();
    assert!(diags.is_empty());
    try_simulate(&cmds, &settings()).map(|(code, dumps)| {
        assert_eq!(code, 0);
        dumps
    })
}

fn cmd(c: Commands, args: &[&str]) -> (Commands, Vec<String>) {
    (c, args.iter().map(|s| s.to_string()).collect())
}

#[test]
fn a_number_is_pushed_and_printed() {
    assert_eq!(run("3 ."), Some(vec![3]));
}

#[test]
fn addition() {
    assert_eq!(run("3 3 + ."), Some(vec![6]));
}

#[test]
fn subtraction_takes_the_top_minus_the_second() {
    assert_eq!(run("3 10 - ."), Some(vec![7]));
    assert_eq!(run("10 3 - ."), None);
}

#[test]
fn comparisons_push_one_or_zero() {
    assert_eq!(run("2 5 < ."), Some(vec![1]));
    assert_eq!(run("2 5 > ."), Some(vec![0]));
    assert_eq!(run("4 4 = ."), Some(vec![1]));
    assert_eq!(run("4 4 != ."), Some(vec![0]));
    assert_eq!(run("5 2 >= ."), Some(vec![1]));
    assert_eq!(run("5 2 <= ."), Some(vec![0]));
}

#[test]
fn multiplication_and_dup() {
    assert_eq!(run("7 dup * ."), Some(vec![49]));
}

#[test]
fn a_zero_condition_skips_the_block() {
    assert_eq!(run("0 if 5 . end 7 ."), Some(vec![7]));
    assert_eq!(run("1 if 5 . end 7 ."), Some(vec![5, 7]));
}

#[test]
fn skipped_commands_are_not_run() {
    assert_eq!(run("0 if while mem end end 1 ."), Some(vec![1]));
}

#[test]
fn failures() {
    assert_eq!(run("."), None);
    assert_eq!(run("+"), None);
    assert_eq!(run("1 while 1 end"), None);
    assert_eq!(run("18446744073709551615 1 + ."), None);
}

#[test]
fn divmod_swap_over_drop() {
    let cmds = vec![
        cmd(Commands::Push, &["2"]),
        cmd(Commands::Push, &["+7"]),
        cmd(Commands::Div, &[]),
        cmd(Commands::Dump, &[]),
        cmd(Commands::Dump, &[]),
        cmd(Commands::Push, &["1"]),
        cmd(Commands::Push, &["2"]),
        cmd(Commands::Swap, &[]),
        cmd(Commands::Dump, &[]),
        cmd(Commands::Push, &["9"]),
        cmd(Commands::Over, &[]),
        cmd(Commands::Dump, &[]),
        cmd(Commands::Dump, &[]),
        cmd(Commands::Drop, &[]),
    ];
    let (code, dumps) = simulate(cmds, settings());
    assert_eq!(code, 0);
    assert_eq!(dumps, vec![3, 1, 1, 2, 9]);
}

#[test]
fn division_by_zero_fails() {
    let cmds = vec![cmd(Commands::Push, &["0"]), cmd(Commands::Push, &["7"]), cmd(Commands::Div, &[])];
    assert!(try_simulate(&cmds, &settings()).is_none());
}

#[test]
fn else_flips_the_block() {
    let cmds = vec![
        cmd(Commands::Push, &["0"]),
        cmd(Commands::If, &["a"]),
        cmd(Commands::Push, &["1"]),
        cmd(Commands::Dump, &[]),
        cmd(Commands::Else, &["a"]),
        cmd(Commands::Push, &["2"]),
        cmd(Commands::Dump, &[]),
        cmd(Commands::EndIf, &["a"]),
    ];
    assert_eq!(try_simulate(&cmds, &settings()), Some((0, vec![2])));
}

#[test]
fn settings_are_required() {
    let (cmds, _) = front_end("1 .").unwrap();
    let mut partial = Settings::new();
    partial.add_setting(Setting::MemorySize, 1000);
    assert!(try_simulate(&cmds, &partial).is_none());
    assert!(try_simulate(&cmds, &Settings::new()).is_none());
}

#[test]
fn output_before_a_failure_is_kept() {
    let (cmds, _) = front_end("1 . 2 . + 3 .").unwrap();
    assert_eq!(simulate_until_failure(&cmds, &settings()), (vec![1, 2], false));
    let (cmds, _) = front_end("4 . 1 while 5 . end").unwrap();
    assert_eq!(simulate_until_failure(&cmds, &settings()), (vec![4], false));
    let (cmds, _) = front_end("4 . 0 if mem end 6 .").unwrap();
    assert_eq!(simulate_until_failure(&cmds, &settings()), (vec![4, 6], true));
    assert_eq!(simulate_until_failure(&cmds, &Settings::new()), (vec![], false));
}
