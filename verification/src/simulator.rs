//! Running a program's commands on a stack of unsigned 64-bit numbers,
//! without compiling it.
use vstd::prelude::*;
use crate::instructions::{
    Command, CommandView, Commands, Setting, Settings, cmd_views, has_setting,
};
use crate::text::{
    chars_of, decimal, is_ascii_digit, lemma_decimal_value, parse_u64, parsed_u64, views,
};

verus! {

/// The machine: the value stack (top last), the stack of open `if` blocks
/// (whether the block is being skipped, and its label), and the numbers
/// printed so far.
pub struct SimState {
    pub stack: Seq<u64>,
    pub skip: Seq<(bool, Seq<char>)>,
    pub dumps: Seq<u64>,
}

/// The machine before the first command.
pub open spec fn initial_sim_state() -> SimState {
    SimState { stack: seq![], skip: seq![], dumps: seq![] }
}

/// Whether the innermost open `if` block is being skipped.
pub open spec fn skipping(st: SimState) -> bool {
    st.skip.len() > 0 && st.skip.last().0
}

/// The state with the stack replaced.
pub open spec fn with_stack(st: SimState, stack: Seq<u64>) -> SimState {
    SimState { stack, ..st }
}

/// Pops the two topmost values `a` (the top) and `b` and pushes `f(a, b)`;
/// `None` when the stack holds fewer than two values or `f` fails.
pub open spec fn binary(st: SimState, f: spec_fn(u64, u64) -> Option<u64>) -> Option<SimState> {
    let s = st.stack;
    if s.len() < 2 {
        None
    } else {
        match f(s[s.len() - 1], s[s.len() - 2]) {
            Some(v) => Some(with_stack(st, s.drop_last().drop_last().push(v))),
            None => None,
        }
    }
}

/// A boolean as the number pushed for it.
pub open spec fn flag(b: bool) -> u64 {
    if b {
        1
    } else {
        0
    }
}

/// One command's effect on the machine; `None` where running it panics
/// (an empty stack, an overflow, a division by zero, a missing argument, an
/// unreadable number, or a command the simulator does not handle).
pub open spec fn sim_step(st: SimState, c: CommandView) -> Option<SimState> {
    let (cmd, args) = c;
    let s = st.stack;
    if skipping(st) && !(cmd == Commands::Else || cmd == Commands::EndIf) {
        Some(st)
    } else {
        match cmd {
            Commands::Push => if args.len() < 1 {
                None
            } else {
                match parsed_u64(args[0]) {
                    Some(v) => Some(with_stack(st, s.push(v))),
                    None => None,
                }
            },
            Commands::Dump => if s.len() < 1 {
                None
            } else {
                Some(SimState { stack: s.drop_last(), dumps: st.dumps.push(s.last()), ..st })
            },
            Commands::Add => binary(
                st,
                |a: u64, b: u64|
                    if a + b <= u64::MAX {
                        Some((a + b) as u64)
                    } else {
                        None
                    },
            ),
            Commands::Sub => binary(
                st,
                |a: u64, b: u64|
                    if a >= b {
                        Some((a - b) as u64)
                    } else {
                        None
                    },
            ),
            Commands::Dup => if s.len() < 1 {
                None
            } else {
                Some(with_stack(st, s.push(s.last())))
            },
            Commands::If => if s.len() < 1 || args.len() < 1 {
                None
            } else {
                Some(
                    SimState {
                        stack: s.drop_last(),
                        skip: st.skip.push((s.last() == 0, args[0])),
                        ..st
                    },
                )
            },
            Commands::EndIf => if st.skip.len() < 1 || args.len() < 1 {
                None
            } else if st.skip.last().1 != args[0] {
                Some(st)
            } else {
                Some(SimState { skip: st.skip.drop_last(), ..st })
            },
            Commands::Else => if st.skip.len() < 1 || args.len() < 1 {
                None
            } else if st.skip.last().1 != args[0] {
                Some(st)
            } else {
                Some(
                    SimState {
                        skip: st.skip.drop_last().push((!st.skip.last().0, st.skip.last().1)),
                        ..st
                    },
                )
            },
            Commands::G => binary(st, |a: u64, b: u64| Some(flag(a < b))),
            Commands::L => binary(st, |a: u64, b: u64| Some(flag(a > b))),
            Commands::E => binary(st, |a: u64, b: u64| Some(flag(a == b))),
            Commands::Ne => binary(st, |a: u64, b: u64| Some(flag(a != b))),
            Commands::Ge => binary(st, |a: u64, b: u64| Some(flag(a <= b))),
            Commands::Le => binary(st, |a: u64, b: u64| Some(flag(a >= b))),
            Commands::Mul => binary(
                st,
                |a: u64, b: u64|
                    if a * b <= u64::MAX {
                        Some((a * b) as u64)
                    } else {
                        None
                    },
            ),
            Commands::Swap => if s.len() < 2 {
                None
            } else {
                Some(
                    with_stack(
                        st,
                        s.drop_last().drop_last().push(s[s.len() - 1]).push(s[s.len() - 2]),
                    ),
                )
            },
            Commands::Drop => if s.len() < 1 {
                None
            } else {
                Some(with_stack(st, s.drop_last()))
            },
            Commands::Over => if s.len() < 2 {
                None
            } else {
                Some(
                    with_stack(
                        st,
                        s.drop_last().drop_last().push(s[s.len() - 2]).push(
                            s[s.len() - 1],
                        ).push(s[s.len() - 2]),
                    ),
                )
            },
            Commands::Div => if s.len() < 2 || s[s.len() - 2] == 0 {
                None
            } else {
                let a = s[s.len() - 1];
                let b = s[s.len() - 2];
                Some(
                    with_stack(
                        st,
                        s.drop_last().drop_last().push((a % b) as u64).push((a / b) as u64),
                    ),
                )
            },
            _ => None,
        }
    }
}

/// The machine after running the commands from state `st`, or `None` when
/// one of them panics.
pub open spec fn simulate_from(cmds: Seq<CommandView>, st: SimState) -> Option<SimState>
    decreases cmds.len(),
{
    if cmds.len() == 0 {
        Some(st)
    } else {
        match sim_step(st, cmds[0]) {
            Some(s2) => simulate_from(cmds.skip(1), s2),
            None => None,
        }
    }
}

/// The numbers a program prints, or `None` when it panics.
pub open spec fn simulation(cmds: Seq<CommandView>) -> Option<Seq<u64>> {
    match simulate_from(cmds, initial_sim_state()) {
        Some(s) => Some(s.dumps),
        None => None,
    }
}

/// No command of the list is an `Else` or an `EndIf`.
pub open spec fn no_block_ends(cmds: Seq<CommandView>) -> bool {
    forall|i: int|
        0 <= i < cmds.len() ==> (#[trigger] cmds[i]).0 != Commands::Else && cmds[i].0
            != Commands::EndIf
}

/// While the innermost `if` block is being skipped, commands other than
/// `Else` and `EndIf` change nothing.
pub proof fn law_skipped_commands_do_nothing(cmds: Seq<CommandView>, st: SimState)
    requires
        skipping(st),
        no_block_ends(cmds),
    ensures
        simulate_from(cmds, st) == Some(st),
    decreases cmds.len(),
{
    if cmds.len() > 0 {
        assert(cmds[0].0 != Commands::Else && cmds[0].0 != Commands::EndIf);
        assert forall|i: int| 0 <= i < cmds.skip(1).len() implies (#[trigger] cmds.skip(
            1,
        )[i]).0 != Commands::Else && cmds.skip(1)[i].0 != Commands::EndIf by {
            assert(cmds.skip(1)[i] == cmds[i + 1]);
        }
        law_skipped_commands_do_nothing(cmds.skip(1), st);
    }
}

/// Running two lists one after the other is running their concatenation.
pub proof fn lemma_simulate_concat(a: Seq<CommandView>, b: Seq<CommandView>, st: SimState)
    ensures
        simulate_from(a + b, st) == match simulate_from(a, st) {
            Some(s) => simulate_from(b, s),
            None => None,
        },
    decreases a.len(),
{
    if a.len() == 0 {
        assert(a + b =~= b);
    } else {
        assert((a + b)[0] == a[0]);
        assert((a + b).skip(1) =~= a.skip(1) + b);
        if let Some(s2) = sim_step(st, a[0]) {
            lemma_simulate_concat(a.skip(1), b, s2);
        }
    }
}

/// An `if` whose condition is zero skips its whole body: the machine after
/// the matching `EndIf` is the machine before the `if`, without the
/// condition.
pub proof fn law_false_condition_skips_block(
    body: Seq<CommandView>,
    label: Seq<char>,
    st: SimState,
)
    requires
        !skipping(st),
        st.stack.len() > 0,
        st.stack.last() == 0,
        no_block_ends(body),
    ensures
        simulate_from(
            seq![(Commands::If, seq![label])] + body + seq![(Commands::EndIf, seq![label])],
            st,
        ) == Some(with_stack(st, st.stack.drop_last())),
{
    let open = seq![(Commands::If, seq![label])];
    let close = seq![(Commands::EndIf, seq![label])];
    let inside = SimState {
        stack: st.stack.drop_last(),
        skip: st.skip.push((true, label)),
        ..st
    };
    assert(sim_step(st, open[0]) == Some(inside));
    assert(open.skip(1) =~= Seq::<CommandView>::empty());
    assert(simulate_from(open.skip(1), inside) == Some(inside));
    assert(simulate_from(open, st) == Some(inside));
    law_skipped_commands_do_nothing(body, inside);
    lemma_simulate_concat(open, body, st);
    assert(inside.skip.drop_last() =~= st.skip);
    assert(sim_step(inside, close[0]) == Some(with_stack(st, st.stack.drop_last())));
    assert(close.skip(1) =~= Seq::<CommandView>::empty());
    let done = with_stack(st, st.stack.drop_last());
    assert(simulate_from(close.skip(1), done) == Some(done));
    assert(simulate_from(close, inside) == Some(done));
    assert(simulate_from(open + body, st) == Some(inside));
    lemma_simulate_concat(open + body, close, st);
}

/// The view of the exec block stack.
pub open spec fn skip_views(v: Seq<(bool, String)>) -> Seq<(bool, Seq<char>)> {
    v.map_values(|p: (bool, String)| (p.0, p.1@))
}

/// The view of the exec machine.
pub open spec fn sim_view(stack: Seq<u64>, skip: Seq<(bool, String)>, dumps: Seq<u64>) -> SimState {
    SimState { stack, skip: skip_views(skip), dumps }
}

/// The numbers printed by the commands run from `st`, and whether every
/// command ran: at the first command that fails, the run stops with what was
/// printed before it.
pub open spec fn simulate_trace(cmds: Seq<CommandView>, st: SimState) -> (Seq<u64>, bool)
    decreases cmds.len(),
{
    if cmds.len() == 0 {
        (st.dumps, true)
    } else {
        match sim_step(st, cmds[0]) {
            Some(s2) => simulate_trace(cmds.skip(1), s2),
            None => (st.dumps, false),
        }
    }
}

/// The numbers a program prints before it ends or fails, and whether it ran
/// to its end.
pub open spec fn simulation_output(cmds: Seq<CommandView>) -> (Seq<u64>, bool) {
    simulate_trace(cmds, initial_sim_state())
}

/// A run that reaches the end prints what the complete run prints; a run
/// that fails is one for which `simulate_from` has no result.
pub proof fn lemma_trace_matches(cmds: Seq<CommandView>, st: SimState)
    ensures
        simulate_trace(cmds, st).1 <==> simulate_from(cmds, st) is Some,
        simulate_from(cmds, st) matches Some(s) ==> simulate_trace(cmds, st).0 == s.dumps,
    decreases cmds.len(),
{
    if cmds.len() > 0 {
        if let Some(s2) = sim_step(st, cmds[0]) {
            lemma_trace_matches(cmds.skip(1), s2);
        }
    }
}

/// Commands the simulator does not run make it fail when they are reached
/// outside a skipped block: the run stops there, with what was printed
/// before.
pub proof fn law_unhandled_commands_fail(cmds: Seq<CommandView>, st: SimState)
    requires
        cmds.len() > 0,
        !skipping(st),
        ({
            let c = cmds[0].0;
            c == Commands::While || c == Commands::EndWhile || c == Commands::PrintStringConst
                || c == Commands::Syscall || c == Commands::Mem || c == Commands::Read || c
                == Commands::Write || c == Commands::Rot || c == Commands::Func || c
                == Commands::EndFunc || c == Commands::Unknown
        }),
    ensures
        sim_step(st, cmds[0]) is None,
        simulate_trace(cmds, st) == (st.dumps, false),
{
}

/// The comparisons pop the top `a` and the value `b` below it and push 1
/// when `b` stands to `a` as the word says (`>`, `<`, `=`, `!=`, `>=`,
/// `<=`), else 0.
pub proof fn law_comparisons_compare_second_with_top(
    st: SimState,
    s: Seq<u64>,
    b: u64,
    a: u64,
    args: Seq<Seq<char>>,
)
    requires
        !skipping(st),
        st.stack == s.push(b).push(a),
    ensures
        sim_step(st, (Commands::G, args)) == Some(
            SimState { stack: s.push(if b > a { 1u64 } else { 0u64 }), ..st },
        ),
        sim_step(st, (Commands::L, args)) == Some(
            SimState { stack: s.push(if b < a { 1u64 } else { 0u64 }), ..st },
        ),
        sim_step(st, (Commands::E, args)) == Some(
            SimState { stack: s.push(if b == a { 1u64 } else { 0u64 }), ..st },
        ),
        sim_step(st, (Commands::Ne, args)) == Some(
            SimState { stack: s.push(if b != a { 1u64 } else { 0u64 }), ..st },
        ),
        sim_step(st, (Commands::Ge, args)) == Some(
            SimState { stack: s.push(if b >= a { 1u64 } else { 0u64 }), ..st },
        ),
        sim_step(st, (Commands::Le, args)) == Some(
            SimState { stack: s.push(if b <= a { 1u64 } else { 0u64 }), ..st },
        ),
{
    let st2 = st.stack;
    assert(st2.len() >= 2 && st2[st2.len() - 1] == a && st2[st2.len() - 2] == b);
    assert(st2.drop_last().drop_last() =~= s);
}

/// The arithmetic words pop the top `a` and the value `b` below it: `+`
/// pushes `a + b`, `-` pushes `a - b`, `*` pushes `a * b` (each failing
/// where the result leaves the range of `u64`), and the division pushes the
/// remainder and then the quotient of `a` by `b` (failing when `b` is 0).
pub proof fn law_arithmetic_on_top_values(
    st: SimState,
    s: Seq<u64>,
    b: u64,
    a: u64,
    args: Seq<Seq<char>>,
)
    requires
        !skipping(st),
        st.stack == s.push(b).push(a),
    ensures
        sim_step(st, (Commands::Add, args)) == if a + b <= u64::MAX {
            Some(SimState { stack: s.push((a + b) as u64), ..st })
        } else {
            None
        },
        sim_step(st, (Commands::Sub, args)) == if b <= a {
            Some(SimState { stack: s.push((a - b) as u64), ..st })
        } else {
            None
        },
        sim_step(st, (Commands::Mul, args)) == if a * b <= u64::MAX {
            Some(SimState { stack: s.push((a * b) as u64), ..st })
        } else {
            None
        },
        sim_step(st, (Commands::Div, args)) == if b == 0 {
            None
        } else {
            Some(SimState { stack: s.push((a % b) as u64).push((a / b) as u64), ..st })
        },
{
    let st2 = st.stack;
    assert(st2.len() >= 2 && st2[st2.len() - 1] == a && st2[st2.len() - 2] == b);
    assert(st2.drop_last().drop_last() =~= s);
}

/// The stack words: `dup` copies the top, `swap` exchanges the two topmost
/// values, `drop` removes the top, `over` copies the second value on top,
/// and `.` removes the top and prints it.
pub proof fn law_stack_words(st: SimState, s: Seq<u64>, b: u64, a: u64, args: Seq<Seq<char>>)
    requires
        !skipping(st),
        st.stack == s.push(b).push(a),
    ensures
        sim_step(st, (Commands::Dup, args)) == Some(
            SimState { stack: s.push(b).push(a).push(a), ..st },
        ),
        sim_step(st, (Commands::Swap, args)) == Some(
            SimState { stack: s.push(a).push(b), ..st },
        ),
        sim_step(st, (Commands::Drop, args)) == Some(SimState { stack: s.push(b), ..st }),
        sim_step(st, (Commands::Over, args)) == Some(
            SimState { stack: s.push(b).push(a).push(b), ..st },
        ),
        sim_step(st, (Commands::Dump, args)) == Some(
            SimState { stack: s.push(b), dumps: st.dumps.push(a), ..st },
        ),
{
    let st2 = st.stack;
    assert(st2.len() >= 2 && st2[st2.len() - 1] == a && st2[st2.len() - 2] == b);
    assert(st2.drop_last().drop_last() =~= s);
    assert(st2.drop_last() =~= s.push(b));
}

/// A number pushes its value.
pub proof fn law_number_pushes_its_value(st: SimState, n: u64, rest: Seq<Seq<char>>)
    requires
        !skipping(st),
    ensures
        sim_step(st, (Commands::Push, seq![decimal(n as nat)] + rest)) == Some(
            SimState { stack: st.stack.push(n), ..st },
        ),
{
    lemma_decimal_value(n as nat);
    let d = decimal(n as nat);
    assert((seq![d] + rest)[0] == d);
    assert(is_ascii_digit(d[0]));
    assert(d[0] != '+');
}

/// While the innermost open block is skipped, every command leaves the
/// machine unchanged except an `Else` or `EndIf` with that block's label.
pub proof fn law_skipped_block_ignores_other_labels(cmds: Seq<CommandView>, st: SimState)
    requires
        skipping(st),
        forall|i: int|
            0 <= i < cmds.len() && ((#[trigger] cmds[i]).0 == Commands::Else || cmds[i].0
                == Commands::EndIf) ==> cmds[i].1.len() >= 1 && cmds[i].1[0] != st.skip.last().1,
    ensures
        simulate_from(cmds, st) == Some(st),
    decreases cmds.len(),
{
    if cmds.len() > 0 {
        let c = cmds[0];
        if c.0 == Commands::Else || c.0 == Commands::EndIf {
            assert(c.1.len() >= 1 && c.1[0] != st.skip.last().1);
        }
        assert(sim_step(st, c) == Some(st));
        assert forall|i: int|
            0 <= i < cmds.skip(1).len() && ((#[trigger] cmds.skip(1)[i]).0 == Commands::Else
                || cmds.skip(1)[i].0 == Commands::EndIf) implies cmds.skip(1)[i].1.len() >= 1
            && cmds.skip(1)[i].1[0] != st.skip.last().1 by {
            assert(cmds.skip(1)[i] == cmds[i + 1]);
        }
        law_skipped_block_ignores_other_labels(cmds.skip(1), st);
    }
}

/// An `if` whose condition is zero skips its whole body, nested blocks
/// included: when every `Else` and `EndIf` of the body carries another
/// label, the machine after the matching `EndIf` is the machine before the
/// `if`, without the condition.
pub proof fn law_false_condition_skips_nested_blocks(
    body: Seq<CommandView>,
    label: Seq<char>,
    st: SimState,
)
    requires
        !skipping(st),
        st.stack.len() > 0,
        st.stack.last() == 0,
        forall|i: int|
            0 <= i < body.len() && ((#[trigger] body[i]).0 == Commands::Else || body[i].0
                == Commands::EndIf) ==> body[i].1.len() >= 1 && body[i].1[0] != label,
    ensures
        simulate_from(
            seq![(Commands::If, seq![label])] + body + seq![(Commands::EndIf, seq![label])],
            st,
        ) == Some(SimState { stack: st.stack.drop_last(), ..st }),
{
    let open = seq![(Commands::If, seq![label])];
    let close = seq![(Commands::EndIf, seq![label])];
    let inside = SimState {
        stack: st.stack.drop_last(),
        skip: st.skip.push((true, label)),
        ..st
    };
    assert(sim_step(st, open[0]) == Some(inside));
    assert(open.skip(1) =~= Seq::<CommandView>::empty());
    assert(simulate_from(open.skip(1), inside) == Some(inside));
    assert(simulate_from(open, st) == Some(inside));
    assert(inside.skip.last().1 == label);
    law_skipped_block_ignores_other_labels(body, inside);
    lemma_simulate_concat(open, body, st);
    assert(inside.skip.drop_last() =~= st.skip);
    let done = SimState { stack: st.stack.drop_last(), ..st };
    assert(sim_step(inside, close[0]) == Some(done));
    assert(close.skip(1) =~= Seq::<CommandView>::empty());
    assert(simulate_from(close.skip(1), done) == Some(done));
    assert(simulate_from(close, inside) == Some(done));
    assert(simulate_from(open + body, st) == Some(inside));
    lemma_simulate_concat(open + body, close, st);
}

/// An `if` whose condition is not zero runs its body: the condition is
/// popped and a block with the `if`'s label is opened that is not skipped.
pub proof fn law_true_condition_opens_running_block(st: SimState, label: Seq<char>, rest: Seq<Seq<char>>)
    requires
        !skipping(st),
        st.stack.len() > 0,
        st.stack.last() != 0,
    ensures
        sim_step(st, (Commands::If, seq![label] + rest)) == Some(
            SimState { stack: st.stack.drop_last(), skip: st.skip.push((false, label)), ..st },
        ),
        !skipping(SimState { stack: st.stack.drop_last(), skip: st.skip.push((false, label)), ..st }),
{
    assert((seq![label] + rest)[0] == label);
}

/// `Else` and `EndIf` act on the innermost open block only when they carry
/// its label: `Else` switches the block between running and skipped, and
/// `EndIf` closes it; with another label both leave the machine unchanged.
pub proof fn law_block_ends_match_labels(
    st: SimState,
    blocks: Seq<(bool, Seq<char>)>,
    skipped: bool,
    label: Seq<char>,
    other: Seq<char>,
    rest: Seq<Seq<char>>,
)
    requires
        st.skip == blocks.push((skipped, label)),
        other != label,
    ensures
        sim_step(st, (Commands::Else, seq![label] + rest)) == Some(
            SimState { skip: blocks.push((!skipped, label)), ..st },
        ),
        sim_step(st, (Commands::EndIf, seq![label] + rest)) == Some(
            SimState { skip: blocks, ..st },
        ),
        sim_step(st, (Commands::Else, seq![other] + rest)) == Some(st),
        sim_step(st, (Commands::EndIf, seq![other] + rest)) == Some(st),
{
    assert((seq![label] + rest)[0] == label);
    assert((seq![other] + rest)[0] == other);
    assert(st.skip.drop_last() =~= blocks);
    assert(st.skip.last() == (skipped, label));
}

fn run_commands(commands: &Vec<Command>) -> (r: (Vec<u64>, bool))
    ensures
        (r.0@, r.1) == simulation_output(cmd_views(commands@)),
{
    let ghost cmds = cmd_views(commands@);
    let mut stack: Vec<u64> = Vec::new();
    let mut skip_stack: Vec<(bool, String)> = Vec::new();
    let mut dumps: Vec<u64> = Vec::new();
    let mut index: usize = 0;
    assert(cmds.skip(0) =~= cmds);
    assert(sim_view(stack@, skip_stack@, dumps@) =~= initial_sim_state()) by {
        assert(skip_views(skip_stack@) =~= Seq::<(bool, Seq<char>)>::empty());
    }
    while index < commands.len()
        invariant
            cmds == cmd_views(commands@),
            index <= commands.len(),
            simulate_trace(cmds, initial_sim_state()) == simulate_trace(
                cmds.skip(index as int),
                sim_view(stack@, skip_stack@, dumps@),
            ),
        decreases commands.len() - index,
    {
        let ghost st = sim_view(stack@, skip_stack@, dumps@);
        let ghost rest = cmds.skip(index as int);
        assert(rest[0] == cmds[index as int]);
        assert(rest.skip(1) =~= cmds.skip(index + 1));
        let command = commands[index].0;
        let args = &commands[index].1;
        let ghost c = cmds[index as int];
        assert(c.0 == command);
        assert(c.1 == views(args@));
        let skipping_now = skip_stack.len() > 0 && skip_stack[skip_stack.len() - 1].0;
        if skipping_now && !(command == Commands::Else || command == Commands::EndIf) {
            index += 1;
            continue;
        }
        let n = stack.len();
        match command {
            Commands::Push => {
                if args.len() < 1 {
                    return (dumps, false);
                }
                let digits = chars_of(args[0].as_str());
                match parse_u64(&digits) {
                    Some(v) => {
                        stack.push(v);
                    },
                    None => {
                        return (dumps, false);
                    },
                }
            },
            Commands::Dump => {
                match stack.pop() {
                    Some(v) => {
                        dumps.push(v);
                    },
                    None => {
                        return (dumps, false);
                    },
                }
            },
            Commands::Dup => {
                if n < 1 {
                    return (dumps, false);
                }
                let last = stack[n - 1];
                stack.push(last);
            },
            Commands::If => {
                if n < 1 || args.len() < 1 {
                    return (dumps, false);
                }
                let v = stack.pop().unwrap();
                let label = args[0].clone();
                skip_stack.push((v == 0, label));
                assert(skip_views(skip_stack@) =~= st.skip.push((st.stack.last() == 0, c.1[0])));
            },
            Commands::EndIf | Commands::Else => {
                if skip_stack.len() < 1 || args.len() < 1 {
                    return (dumps, false);
                }
                let k = skip_stack.len() - 1;
                let same = skip_stack[k].1 == args[0];
                if same {
                    let (should_run, number) = skip_stack.pop().unwrap();
                    if command == Commands::Else {
                        skip_stack.push((!should_run, number));
                    }
                    assert(skip_views(skip_stack@) =~= if command == Commands::Else {
                        st.skip.drop_last().push((!st.skip.last().0, st.skip.last().1))
                    } else {
                        st.skip.drop_last()
                    });
                }
            },
            Commands::Add | Commands::Sub | Commands::Mul | Commands::Div | Commands::G
            | Commands::L | Commands::E | Commands::Ne | Commands::Ge | Commands::Le
            | Commands::Swap | Commands::Over => {
                if n < 2 {
                    return (dumps, false);
                }
                let a = stack.pop().unwrap();
                let b = stack.pop().unwrap();
                match command {
                    Commands::Add => {
                        match a.checked_add(b) {
                            Some(v) => stack.push(v),
                            None => {
                                return (dumps, false);
                            },
                        }
                    },
                    Commands::Sub => {
                        if a < b {
                            return (dumps, false);
                        }
                        stack.push(a - b);
                    },
                    Commands::Mul => {
                        match a.checked_mul(b) {
                            Some(v) => stack.push(v),
                            None => {
                                return (dumps, false);
                            },
                        }
                    },
                    Commands::Div => {
                        if b == 0 {
                            return (dumps, false);
                        }
                        stack.push(a % b);
                        stack.push(a / b);
                    },
                    Commands::G => stack.push(if a < b { 1 } else { 0 }),
                    Commands::L => stack.push(if a > b { 1 } else { 0 }),
                    Commands::E => stack.push(if a == b { 1 } else { 0 }),
                    Commands::Ne => stack.push(if a != b { 1 } else { 0 }),
                    Commands::Ge => stack.push(if a <= b { 1 } else { 0 }),
                    Commands::Le => stack.push(if a >= b { 1 } else { 0 }),
                    Commands::Swap => {
                        stack.push(a);
                        stack.push(b);
                    },
                    _ => {
                        stack.push(b);
                        stack.push(a);
                        stack.push(b);
                    },
                }
            },
            Commands::Drop => {
                if n < 1 {
                    return (dumps, false);
                }
                stack.pop();
            },
            _ => {
                return (dumps, false);
            },
        }
        proof {
            let s2 = sim_view(stack@, skip_stack@, dumps@);
            assert(sim_step(st, c) =~~= Some(s2));
        }
        index += 1;
    }
    assert(cmds.skip(index as int) =~= Seq::<CommandView>::empty());
    (dumps, true)
}

/// Runs the commands and gives the exit code (always 0) with the numbers
/// printed by `.`, in order; see `simulation`. The settings must hold both
/// the memory size and the function depth limit, and the program must not
/// panic.
pub fn simulate(commands: Vec<Command>, settings: Settings) -> (r: (u8, Vec<u64>))
    requires
        has_setting(settings.settings_array@, Setting::MemorySize),
        has_setting(settings.settings_array@, Setting::FunctionDepthLimit),
        simulation(cmd_views(commands@)) is Some,
    ensures
        r.0 == 0,
        simulation(cmd_views(commands@)) == Some(r.1@),
{
    let _memory_size: u64 = settings.get_value(Setting::MemorySize);
    let _function_depth_limit: u64 = settings.get_value(Setting::FunctionDepthLimit);
    proof {
        lemma_trace_matches(cmd_views(commands@), initial_sim_state());
    }
    let (dumps, _) = run_commands(&commands);
    (0, dumps)
}

/// Runs the commands as far as `simulate` gets: the numbers printed before
/// the run ends or fails, and whether it ran to its end. When a setting is
/// missing, nothing runs and nothing is printed.
pub fn simulate_until_failure(commands: &Vec<Command>, settings: &Settings) -> (r: (Vec<u64>, bool))
    ensures
        !(has_setting(settings.settings_array@, Setting::MemorySize) && has_setting(
            settings.settings_array@,
            Setting::FunctionDepthLimit,
        )) ==> r.0@ == Seq::<u64>::empty() && !r.1,
        (has_setting(settings.settings_array@, Setting::MemorySize) && has_setting(
            settings.settings_array@,
            Setting::FunctionDepthLimit,
        )) ==> (r.0@, r.1) == simulation_output(cmd_views(commands@)),
{
    proof {
        crate::instructions::lemma_setting_value_some(settings.settings_array@, Setting::MemorySize);
        crate::instructions::lemma_setting_value_some(
            settings.settings_array@,
            Setting::FunctionDepthLimit,
        );
    }
    if settings.find_value(Setting::MemorySize).is_none() || settings.find_value(
        Setting::FunctionDepthLimit,
    ).is_none() {
        return (Vec::new(), false);
    }
    run_commands(commands)
}

/// Runs the commands as `simulate` does, or gives `None` where `simulate`
/// panics: when a setting is missing or the program fails.
pub fn try_simulate(commands: &Vec<Command>, settings: &Settings) -> (r: Option<(u8, Vec<u64>)>)
    ensures
        r is Some <==> (has_setting(settings.settings_array@, Setting::MemorySize)
            && has_setting(settings.settings_array@, Setting::FunctionDepthLimit)
            && simulation(cmd_views(commands@)) is Some),
        r matches Some(p) ==> p.0 == 0 && simulation(cmd_views(commands@)) == Some(p.1@),
{
    proof {
        lemma_trace_matches(cmd_views(commands@), initial_sim_state());
    }
    let (dumps, complete) = simulate_until_failure(commands, settings);
    if complete {
        Some((0, dumps))
    } else {
        None
    }
}

} // verus!
