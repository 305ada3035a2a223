//! What the generator emits for each command: the lines of the code of the
//! stack commands (which registers they pop into, what they compute and
//! what they push), the jump of each comparison, the code of the block and
//! call commands, the registers of a `syscall`, the width of each memory
//! access, and which command lists it accepts.
use vstd::prelude::*;
use crate::comparison::{lemma_lines_text_at, lines_text};
use crate::generator::{asm_generable, command_code, command_supported, comparison_code, syscall_arity};
use crate::instructions::{CommandView, Commands};
use crate::parser::{ParseState, TokenClass, classify, parse_step, parse_tokens, parsed_commands, syscall_digits};
use crate::text::{all_numeric, decimal, digit_char, parsed_u64};

verus! {

/// The lines of the code of `dump`: it pops the top into `rdi` and calls the printing routine.
pub open spec fn dump_lines() -> Seq<Seq<char>> {
    seq![
        "  ; dump stack"@,
        "  pop rdi"@,
        "  call dump"@,
        ""@,
    ]
}

proof fn lemma_dump_text()
    ensures
        lines_text(dump_lines()) == "  ; dump stack\n  pop rdi\n  call dump\n\n"@,
{
    let ls = dump_lines();
    assert(ls.skip(4) =~= Seq::<Seq<char>>::empty());
    lemma_lines_text_at(ls, 3);
    lemma_lines_text_at(ls, 2);
    lemma_lines_text_at(ls, 1);
    lemma_lines_text_at(ls, 0);
    assert(ls.skip(0) =~= ls);
    reveal_strlit("");
    reveal_strlit("  ; dump stack");
    reveal_strlit("  call dump");
    reveal_strlit("  pop rdi");
    reveal_strlit("\n");
    reveal_strlit("  ; dump stack\n  pop rdi\n  call dump\n\n");
    assert(lines_text(ls) =~= "  ; dump stack\n  pop rdi\n  call dump\n\n"@);
}

/// The lines of the code of `add`: it pops the top into `rdi` and the second into `rax`, adds, pushes `rax`.
pub open spec fn add_lines() -> Seq<Seq<char>> {
    seq![
        "  ; add"@,
        "  pop rdi"@,
        "  pop rax"@,
        "  add rax, rdi"@,
        "  push rax"@,
        ""@,
    ]
}

proof fn lemma_add_text()
    ensures
        lines_text(add_lines()) == "  ; add\n  pop rdi\n  pop rax\n  add rax, rdi\n  push rax\n\n"@,
{
    let ls = add_lines();
    assert(ls.skip(6) =~= Seq::<Seq<char>>::empty());
    lemma_lines_text_at(ls, 5);
    lemma_lines_text_at(ls, 4);
    lemma_lines_text_at(ls, 3);
    lemma_lines_text_at(ls, 2);
    lemma_lines_text_at(ls, 1);
    lemma_lines_text_at(ls, 0);
    assert(ls.skip(0) =~= ls);
    reveal_strlit("");
    reveal_strlit("  ; add");
    reveal_strlit("  add rax, rdi");
    reveal_strlit("  pop rax");
    reveal_strlit("  pop rdi");
    reveal_strlit("  push rax");
    reveal_strlit("\n");
    reveal_strlit("  ; add\n  pop rdi\n  pop rax\n  add rax, rdi\n  push rax\n\n");
    assert(lines_text(ls) =~= "  ; add\n  pop rdi\n  pop rax\n  add rax, rdi\n  push rax\n\n"@);
}

/// The lines of the code of `sub`: it pops the top into `rax` and the second into `rdi`, subtracts `rax` from `rdi` and pushes `rdi`: the second value minus the top.
pub open spec fn sub_lines() -> Seq<Seq<char>> {
    seq![
        "  ; sub"@,
        "  pop rax"@,
        "  pop rdi"@,
        "  sub rdi, rax"@,
        "  push rdi"@,
        ""@,
    ]
}

proof fn lemma_sub_text()
    ensures
        lines_text(sub_lines()) == "  ; sub\n  pop rax\n  pop rdi\n  sub rdi, rax\n  push rdi\n\n"@,
{
    let ls = sub_lines();
    assert(ls.skip(6) =~= Seq::<Seq<char>>::empty());
    lemma_lines_text_at(ls, 5);
    lemma_lines_text_at(ls, 4);
    lemma_lines_text_at(ls, 3);
    lemma_lines_text_at(ls, 2);
    lemma_lines_text_at(ls, 1);
    lemma_lines_text_at(ls, 0);
    assert(ls.skip(0) =~= ls);
    reveal_strlit("");
    reveal_strlit("  ; sub");
    reveal_strlit("  pop rax");
    reveal_strlit("  pop rdi");
    reveal_strlit("  push rdi");
    reveal_strlit("  sub rdi, rax");
    reveal_strlit("\n");
    reveal_strlit("  ; sub\n  pop rax\n  pop rdi\n  sub rdi, rax\n  push rdi\n\n");
    assert(lines_text(ls) =~= "  ; sub\n  pop rax\n  pop rdi\n  sub rdi, rax\n  push rdi\n\n"@);
}

/// The lines of the code of `dup`: it pops the top into `rax` and pushes it twice.
pub open spec fn dup_lines() -> Seq<Seq<char>> {
    seq![
        "  ; dup"@,
        "  pop rax"@,
        "  push rax"@,
        "  push rax"@,
        ""@,
    ]
}

proof fn lemma_dup_text()
    ensures
        lines_text(dup_lines()) == "  ; dup\n  pop rax\n  push rax\n  push rax\n\n"@,
{
    let ls = dup_lines();
    assert(ls.skip(5) =~= Seq::<Seq<char>>::empty());
    lemma_lines_text_at(ls, 4);
    lemma_lines_text_at(ls, 3);
    lemma_lines_text_at(ls, 2);
    lemma_lines_text_at(ls, 1);
    lemma_lines_text_at(ls, 0);
    assert(ls.skip(0) =~= ls);
    reveal_strlit("");
    reveal_strlit("  ; dup");
    reveal_strlit("  pop rax");
    reveal_strlit("  push rax");
    reveal_strlit("\n");
    reveal_strlit("  ; dup\n  pop rax\n  push rax\n  push rax\n\n");
    assert(lines_text(ls) =~= "  ; dup\n  pop rax\n  push rax\n  push rax\n\n"@);
}

/// The lines of the code of `mul`: it pops the top into `rax` and the second into `rdi`, multiplies `rax` by `rdi` and pushes `rax`.
pub open spec fn mul_lines() -> Seq<Seq<char>> {
    seq![
        "  ; mul"@,
        "  pop rax"@,
        "  pop rdi"@,
        "  mul rdi"@,
        "  push rax"@,
        ""@,
    ]
}

proof fn lemma_mul_text()
    ensures
        lines_text(mul_lines()) == "  ; mul\n  pop rax\n  pop rdi\n  mul rdi\n  push rax\n\n"@,
{
    let ls = mul_lines();
    assert(ls.skip(6) =~= Seq::<Seq<char>>::empty());
    lemma_lines_text_at(ls, 5);
    lemma_lines_text_at(ls, 4);
    lemma_lines_text_at(ls, 3);
    lemma_lines_text_at(ls, 2);
    lemma_lines_text_at(ls, 1);
    lemma_lines_text_at(ls, 0);
    assert(ls.skip(0) =~= ls);
    reveal_strlit("");
    reveal_strlit("  ; mul");
    reveal_strlit("  mul rdi");
    reveal_strlit("  pop rax");
    reveal_strlit("  pop rdi");
    reveal_strlit("  push rax");
    reveal_strlit("\n");
    reveal_strlit("  ; mul\n  pop rax\n  pop rdi\n  mul rdi\n  push rax\n\n");
    assert(lines_text(ls) =~= "  ; mul\n  pop rax\n  pop rdi\n  mul rdi\n  push rax\n\n"@);
}

/// The lines of the code of `swap`: it pops the top into `rax` and the second into `rdi`, pushes `rax` then `rdi`.
pub open spec fn swap_lines() -> Seq<Seq<char>> {
    seq![
        "  ; swap"@,
        "  pop rax"@,
        "  pop rdi"@,
        "  push rax"@,
        "  push rdi"@,
        ""@,
    ]
}

proof fn lemma_swap_text()
    ensures
        lines_text(swap_lines()) == "  ; swap\n  pop rax\n  pop rdi\n  push rax\n  push rdi\n\n"@,
{
    let ls = swap_lines();
    assert(ls.skip(6) =~= Seq::<Seq<char>>::empty());
    lemma_lines_text_at(ls, 5);
    lemma_lines_text_at(ls, 4);
    lemma_lines_text_at(ls, 3);
    lemma_lines_text_at(ls, 2);
    lemma_lines_text_at(ls, 1);
    lemma_lines_text_at(ls, 0);
    assert(ls.skip(0) =~= ls);
    reveal_strlit("");
    reveal_strlit("  ; swap");
    reveal_strlit("  pop rax");
    reveal_strlit("  pop rdi");
    reveal_strlit("  push rax");
    reveal_strlit("  push rdi");
    reveal_strlit("\n");
    reveal_strlit("  ; swap\n  pop rax\n  pop rdi\n  push rax\n  push rdi\n\n");
    assert(lines_text(ls) =~= "  ; swap\n  pop rax\n  pop rdi\n  push rax\n  push rdi\n\n"@);
}

/// The lines of the code of `drop`: it pops the top into `rax`.
pub open spec fn drop_lines() -> Seq<Seq<char>> {
    seq![
        "  ; drop"@,
        "  pop rax"@,
        ""@,
    ]
}

proof fn lemma_drop_text()
    ensures
        lines_text(drop_lines()) == "  ; drop\n  pop rax\n\n"@,
{
    let ls = drop_lines();
    assert(ls.skip(3) =~= Seq::<Seq<char>>::empty());
    lemma_lines_text_at(ls, 2);
    lemma_lines_text_at(ls, 1);
    lemma_lines_text_at(ls, 0);
    assert(ls.skip(0) =~= ls);
    reveal_strlit("");
    reveal_strlit("  ; drop");
    reveal_strlit("  pop rax");
    reveal_strlit("\n");
    reveal_strlit("  ; drop\n  pop rax\n\n");
    assert(lines_text(ls) =~= "  ; drop\n  pop rax\n\n"@);
}

/// The lines of the code of `over`: it pops the top into `rax` and the second into `rdi`, pushes `rdi`, `rax`, `rdi`.
pub open spec fn over_lines() -> Seq<Seq<char>> {
    seq![
        "  ; over"@,
        "  pop rax"@,
        "  pop rdi"@,
        "  push rdi"@,
        "  push rax"@,
        "  push rdi"@,
        ""@,
    ]
}

proof fn lemma_over_text()
    ensures
        lines_text(over_lines()) == "  ; over\n  pop rax\n  pop rdi\n  push rdi\n  push rax\n  push rdi\n\n"@,
{
    let ls = over_lines();
    assert(ls.skip(7) =~= Seq::<Seq<char>>::empty());
    lemma_lines_text_at(ls, 6);
    lemma_lines_text_at(ls, 5);
    lemma_lines_text_at(ls, 4);
    lemma_lines_text_at(ls, 3);
    lemma_lines_text_at(ls, 2);
    lemma_lines_text_at(ls, 1);
    lemma_lines_text_at(ls, 0);
    assert(ls.skip(0) =~= ls);
    reveal_strlit("");
    reveal_strlit("  ; over");
    reveal_strlit("  pop rax");
    reveal_strlit("  pop rdi");
    reveal_strlit("  push rax");
    reveal_strlit("  push rdi");
    reveal_strlit("\n");
    reveal_strlit("  ; over\n  pop rax\n  pop rdi\n  push rdi\n  push rax\n  push rdi\n\n");
    assert(lines_text(ls) =~= "  ; over\n  pop rax\n  pop rdi\n  push rdi\n  push rax\n  push rdi\n\n"@);
}

/// The lines of the code of `rot`: it pops the top three values into `rax`, `rdi`, `rbx` and pushes `rax`, `rbx`, `rdi`.
pub open spec fn rot_lines() -> Seq<Seq<char>> {
    seq![
        "  ; rot"@,
        "  pop rax"@,
        "  pop rdi"@,
        "  pop rbx"@,
        "  push rax"@,
        "  push rbx"@,
        "  push rdi"@,
        ""@,
    ]
}

proof fn lemma_rot_text()
    ensures
        lines_text(rot_lines()) == "  ; rot\n  pop rax\n  pop rdi\n  pop rbx\n  push rax\n  push rbx\n  push rdi\n\n"@,
{
    let ls = rot_lines();
    assert(ls.skip(8) =~= Seq::<Seq<char>>::empty());
    lemma_lines_text_at(ls, 7);
    lemma_lines_text_at(ls, 6);
    lemma_lines_text_at(ls, 5);
    lemma_lines_text_at(ls, 4);
    lemma_lines_text_at(ls, 3);
    lemma_lines_text_at(ls, 2);
    lemma_lines_text_at(ls, 1);
    lemma_lines_text_at(ls, 0);
    assert(ls.skip(0) =~= ls);
    reveal_strlit("");
    reveal_strlit("  ; rot");
    reveal_strlit("  pop rax");
    reveal_strlit("  pop rbx");
    reveal_strlit("  pop rdi");
    reveal_strlit("  push rax");
    reveal_strlit("  push rbx");
    reveal_strlit("  push rdi");
    reveal_strlit("\n");
    reveal_strlit("  ; rot\n  pop rax\n  pop rdi\n  pop rbx\n  push rax\n  push rbx\n  push rdi\n\n");
    assert(lines_text(ls) =~= "  ; rot\n  pop rax\n  pop rdi\n  pop rbx\n  push rax\n  push rbx\n  push rdi\n\n"@);
}

/// The lines of the code of `divmod`: it clears `rdx`, pops the top into `rax` and the second into `rcx`, divides, pushes the remainder then the quotient.
pub open spec fn divmod_lines() -> Seq<Seq<char>> {
    seq![
        "  ; divmod"@,
        "  xor rdx, rdx"@,
        "  pop rax"@,
        "  pop rcx"@,
        "  div rcx"@,
        "  push rdx"@,
        "  push rax"@,
        ""@,
    ]
}

proof fn lemma_divmod_text()
    ensures
        lines_text(divmod_lines()) == "  ; divmod\n  xor rdx, rdx\n  pop rax\n  pop rcx\n  div rcx\n  push rdx\n  push rax\n\n"@,
{
    let ls = divmod_lines();
    assert(ls.skip(8) =~= Seq::<Seq<char>>::empty());
    lemma_lines_text_at(ls, 7);
    lemma_lines_text_at(ls, 6);
    lemma_lines_text_at(ls, 5);
    lemma_lines_text_at(ls, 4);
    lemma_lines_text_at(ls, 3);
    lemma_lines_text_at(ls, 2);
    lemma_lines_text_at(ls, 1);
    lemma_lines_text_at(ls, 0);
    assert(ls.skip(0) =~= ls);
    reveal_strlit("");
    reveal_strlit("  ; divmod");
    reveal_strlit("  div rcx");
    reveal_strlit("  pop rax");
    reveal_strlit("  pop rcx");
    reveal_strlit("  push rax");
    reveal_strlit("  push rdx");
    reveal_strlit("  xor rdx, rdx");
    reveal_strlit("\n");
    reveal_strlit("  ; divmod\n  xor rdx, rdx\n  pop rax\n  pop rcx\n  div rcx\n  push rdx\n  push rax\n\n");
    assert(lines_text(ls) =~= "  ; divmod\n  xor rdx, rdx\n  pop rax\n  pop rcx\n  div rcx\n  push rdx\n  push rax\n\n"@);
}

/// The lines of the code of `mem`: it pushes the address of the memory area past the room for nested calls.
pub open spec fn mem_lines() -> Seq<Seq<char>> {
    seq![
        "  ; mem"@,
        "  mov rdi, mem"@,
        "  add rdi, 81 ; to have space for nested functions calls"@,
        "  push rdi"@,
        ""@,
    ]
}

proof fn lemma_mem_text()
    ensures
        lines_text(mem_lines()) == "  ; mem\n  mov rdi, mem\n  add rdi, 81 ; to have space for nested functions calls\n  push rdi\n\n"@,
{
    let ls = mem_lines();
    assert(ls.skip(5) =~= Seq::<Seq<char>>::empty());
    lemma_lines_text_at(ls, 4);
    lemma_lines_text_at(ls, 3);
    lemma_lines_text_at(ls, 2);
    lemma_lines_text_at(ls, 1);
    lemma_lines_text_at(ls, 0);
    assert(ls.skip(0) =~= ls);
    reveal_strlit("");
    reveal_strlit("  ; mem");
    reveal_strlit("  add rdi, 81 ; to have space for nested functions calls");
    reveal_strlit("  mov rdi, mem");
    reveal_strlit("  push rdi");
    reveal_strlit("\n");
    reveal_strlit("  ; mem\n  mov rdi, mem\n  add rdi, 81 ; to have space for nested functions calls\n  push rdi\n\n");
    assert(lines_text(ls) =~= "  ; mem\n  mov rdi, mem\n  add rdi, 81 ; to have space for nested functions calls\n  push rdi\n\n"@);
}

/// The code of each command without a label is exactly its lines, whatever
/// its arguments and the function table; see the `*_lines` functions for
/// what each pops, computes and pushes.
pub proof fn law_stack_command_code(args: Seq<Seq<char>>, funcs: Map<Seq<char>, Seq<char>>)
    ensures
        command_code((Commands::Dump, args), funcs) == lines_text(dump_lines()),
        command_code((Commands::Add, args), funcs) == lines_text(add_lines()),
        command_code((Commands::Sub, args), funcs) == lines_text(sub_lines()),
        command_code((Commands::Dup, args), funcs) == lines_text(dup_lines()),
        command_code((Commands::Mul, args), funcs) == lines_text(mul_lines()),
        command_code((Commands::Swap, args), funcs) == lines_text(swap_lines()),
        command_code((Commands::Drop, args), funcs) == lines_text(drop_lines()),
        command_code((Commands::Over, args), funcs) == lines_text(over_lines()),
        command_code((Commands::Rot, args), funcs) == lines_text(rot_lines()),
        command_code((Commands::Div, args), funcs) == lines_text(divmod_lines()),
        command_code((Commands::Mem, args), funcs) == lines_text(mem_lines()),
{
    lemma_dump_text();
    lemma_add_text();
    lemma_sub_text();
    lemma_dup_text();
    lemma_mul_text();
    lemma_swap_text();
    lemma_drop_text();
    lemma_over_text();
    lemma_rot_text();
    lemma_divmod_text();
    lemma_mem_text();
}

/// Every command without arguments is compiled, whatever its arguments and
/// the function table.
pub proof fn law_stack_commands_supported(args: Seq<Seq<char>>, funcs: Map<Seq<char>, Seq<char>>)
    ensures
        command_supported((Commands::Dump, args), funcs),
        command_supported((Commands::Add, args), funcs),
        command_supported((Commands::Sub, args), funcs),
        command_supported((Commands::Dup, args), funcs),
        command_supported((Commands::Mul, args), funcs),
        command_supported((Commands::Swap, args), funcs),
        command_supported((Commands::Drop, args), funcs),
        command_supported((Commands::Over, args), funcs),
        command_supported((Commands::Rot, args), funcs),
        command_supported((Commands::Div, args), funcs),
        command_supported((Commands::Mem, args), funcs),
{
}

/// Each comparison compiles to the comparison code of its own jump: `>` to
/// `jg`, `<` to `jl`, `=` to `je`, `!=` to `jne`, `>=` to `jge` and `<=` to
/// `jle`, with the command's label.
pub proof fn law_comparison_jumps(label: Seq<char>, rest: Seq<Seq<char>>, funcs: Map<Seq<char>, Seq<char>>)
    ensures
        command_code((Commands::G, seq![label] + rest), funcs) == comparison_code("g"@, label),
        command_code((Commands::L, seq![label] + rest), funcs) == comparison_code("l"@, label),
        command_code((Commands::E, seq![label] + rest), funcs) == comparison_code("e"@, label),
        command_code((Commands::Ne, seq![label] + rest), funcs) == comparison_code("ne"@, label),
        command_code((Commands::Ge, seq![label] + rest), funcs) == comparison_code("ge"@, label),
        command_code((Commands::Le, seq![label] + rest), funcs) == comparison_code("le"@, label),
        command_supported((Commands::G, seq![label] + rest), funcs),
        command_supported((Commands::L, seq![label] + rest), funcs),
        command_supported((Commands::E, seq![label] + rest), funcs),
        command_supported((Commands::Ne, seq![label] + rest), funcs),
        command_supported((Commands::Ge, seq![label] + rest), funcs),
        command_supported((Commands::Le, seq![label] + rest), funcs),
{
    assert((seq![label] + rest)[0] == label);
}

/// A `syscall` with at most six arguments names its number of arguments.
proof fn lemma_small_syscall(n: nat)
    requires
        n <= 6,
    ensures
        syscall_arity(decimal(n)) == Some(n),
{
    assert(decimal(n) == seq![digit_char(n)]);
    reveal_strlit("0");
    reveal_strlit("1");
    reveal_strlit("2");
    reveal_strlit("3");
    reveal_strlit("4");
    reveal_strlit("5");
    reveal_strlit("6");
    let d = seq![digit_char(n)];
    assert(digit_char(n) as u32 == n + 48);
    assert(decimal(n) == d);
    if n == 0 {
        assert(d =~= "0"@);
    } else if n == 1 {
        assert(d =~= "1"@);
        assert(d[0] != "0"@[0]);
    } else if n == 2 {
        assert(d =~= "2"@);
        assert(d[0] != "0"@[0]);
        assert(d[0] != "1"@[0]);
    } else if n == 3 {
        assert(d =~= "3"@);
        assert(d[0] != "0"@[0]);
        assert(d[0] != "1"@[0]);
        assert(d[0] != "2"@[0]);
    } else if n == 4 {
        assert(d =~= "4"@);
        assert(d[0] != "0"@[0]);
        assert(d[0] != "1"@[0]);
        assert(d[0] != "2"@[0]);
        assert(d[0] != "3"@[0]);
    } else if n == 5 {
        assert(d =~= "5"@);
        assert(d[0] != "0"@[0]);
        assert(d[0] != "1"@[0]);
        assert(d[0] != "2"@[0]);
        assert(d[0] != "3"@[0]);
        assert(d[0] != "4"@[0]);
    } else {
        assert(d =~= "6"@);
        assert(d[0] != "0"@[0]);
        assert(d[0] != "1"@[0]);
        assert(d[0] != "2"@[0]);
        assert(d[0] != "3"@[0]);
        assert(d[0] != "4"@[0]);
        assert(d[0] != "5"@[0]);
    }
}

/// Every `syscall` token that becomes a command names at most six arguments.
pub open spec fn syscalls_small(toks: Seq<Seq<char>>) -> bool {
    forall|i: int|
        0 <= i < toks.len() && classify(#[trigger] toks[i]) == TokenClass::Syscall && all_numeric(
            syscall_digits(toks[i]),
        ) ==> (parsed_u64(syscall_digits(toks[i])) matches Some(v) && v <= 6)
}

proof fn lemma_parse_supported(
    toks: Seq<Seq<char>>,
    st: ParseState,
    funcs: Map<Seq<char>, Seq<char>>,
)
    requires
        syscalls_small(toks),
    ensures
        forall|j: int|
            0 <= j < parse_tokens(toks, st).0.len() ==> command_supported(
                #[trigger] parse_tokens(toks, st).0[j],
                funcs,
            ),
    decreases toks.len(),
{
    if toks.len() > 0 {
        let t = toks[0];
        let (st2, c, d) = parse_step(st, t);
        assert forall|i: int|
            0 <= i < toks.skip(1).len() && classify(#[trigger] toks.skip(1)[i])
                == TokenClass::Syscall && all_numeric(syscall_digits(toks.skip(1)[i])) implies
            (parsed_u64(syscall_digits(toks.skip(1)[i])) matches Some(v) && v <= 6) by {
            assert(toks.skip(1)[i] == toks[i + 1]);
        }
        lemma_parse_supported(toks.skip(1), st2, funcs);
        let rest = parse_tokens(toks.skip(1), st2).0;
        let cs = parse_tokens(toks, st).0;
        assert(cs == c + rest);
        if classify(t) == TokenClass::Syscall && all_numeric(syscall_digits(t)) {
            assert(parsed_u64(syscall_digits(t)) matches Some(v) && v <= 6);
            lemma_small_syscall(parsed_u64(syscall_digits(t)).unwrap() as nat);
        }
        reveal_strlit("8");
        assert forall|j: int| 0 <= j < c.len() implies command_supported(#[trigger] c[j], funcs) by {
            assert(c.len() == 1 && j == 0);
        }
        assert forall|j: int| 0 <= j < cs.len() implies command_supported(#[trigger] cs[j], funcs) by {
            if j < c.len() {
                assert(cs[j] == c[j]);
            } else {
                assert(cs[j] == rest[j - c.len()]);
            }
        }
    }
}

/// Every command list that the conversion makes from tokens is accepted by
/// the generator, when each `syscall` among the tokens names at most six
/// arguments.
pub proof fn law_converted_commands_compile(toks: Seq<Seq<char>>)
    requires
        syscalls_small(toks),
    ensures
        asm_generable(parsed_commands(toks).0),
{
    let cs = parsed_commands(toks).0;
    lemma_parse_supported(toks, crate::parser::initial_parse_state(), crate::generator::function_table(cs));
}

/// The code of the block commands and of the commands that carry a word:
/// an `if` pops its condition and jumps to the end of its block when it is
/// zero; the end of an `if` is the label it jumps to; a `while` marks its
/// start, pops its condition and leaves the loop when it is zero; the end of
/// a `while` jumps back to the start and marks the loop's end; a number is
/// pushed as it is written; a call goes to the start of the named
/// function's label.
pub proof fn law_labelled_command_code(
    n: Seq<char>,
    rest: Seq<Seq<char>>,
    funcs: Map<Seq<char>, Seq<char>>,
)
    ensures
        command_code((Commands::If, seq![n] + rest), funcs) == "  ; if\n  pop rdi\n  cmp rdi, 0\n  je if_"@
            + n + "_end\n\n"@,
        command_code((Commands::EndIf, seq![n] + rest), funcs) == "  if_"@ + n
            + "_end: ; end of the if\n\n"@,
        command_code((Commands::While, seq![n] + rest), funcs) == "  while_"@ + n
            + "_start: ; start of the while clause\n  ; while\n  pop rdi\n  cmp rdi, 0\n  je while_"@
            + n + "_end\n\n"@,
        command_code((Commands::EndWhile, seq![n] + rest), funcs) == "  ; jump to while\n  jmp while_"@
            + n + "_start\n  while_"@ + n + "_end ; end of the while\n\n"@,
        command_code((Commands::Push, seq![n] + rest), funcs) == "  ; push "@ + n + "\n  push "@ + n
            + "\n\n"@,
        command_code((Commands::Unknown, seq![n] + rest), funcs) == "  ; call function : "@ + n
            + " \n  call fn_"@ + funcs[n] + "_start\n\n"@,
{
    assert((seq![n] + rest)[0] == n);
}

/// A function definition jumps over its body to the end label, opens its
/// start label and checks and raises the call depth; its end restores the
/// depth, returns and places the end label. A string pushes its length and
/// then its address.
pub proof fn law_function_and_string_code(
    label: Seq<char>,
    name: Seq<char>,
    rest: Seq<Seq<char>>,
    funcs: Map<Seq<char>, Seq<char>>,
)
    ensures
        command_code((Commands::Func, seq![label, name] + rest), funcs) == "  ; function definition : "@
            + name + " \n  jmp fn_"@ + label + "_end\nfn_"@ + label + "_start:\n"@
            + crate::generator::FUNC_PROLOGUE@,
        command_code((Commands::EndFunc, seq![label] + rest), funcs) == crate::generator::FUNC_RETURN@
            + "fn_"@ + label + "_end:\n\n"@,
        command_code((Commands::PrintStringConst, seq![label, name] + rest), funcs)
            == "  ; put the *msg "@ + name + " and the len on the stack\n  mov rax, msg"@ + name
            + "len\n  push rax\n\n  mov rax, msg"@ + name + "\n  push rax\n\n"@,
{
    assert((seq![label, name] + rest)[0] == label);
    assert((seq![label, name] + rest)[1] == name);
    assert((seq![label] + rest)[0] == label);
}

/// A `syscall` pops the call number into `rax` and then its arguments into
/// `rdi`, `rsi`, `rdx`, `r10`, `r8` and `r9`, in that order.
pub proof fn law_syscall_registers()
    ensures
        crate::generator::syscall_pops(0) == "  pop rax\n"@,
        crate::generator::syscall_pops(1) == "  pop rax\n"@ + "  pop rdi\n"@,
        crate::generator::syscall_pops(2) == "  pop rax\n"@ + "  pop rdi\n"@ + "  pop rsi\n"@,
        crate::generator::syscall_pops(3) == "  pop rax\n"@ + "  pop rdi\n"@ + "  pop rsi\n"@
            + "  pop rdx\n"@,
        crate::generator::syscall_pops(4) == "  pop rax\n"@ + "  pop rdi\n"@ + "  pop rsi\n"@
            + "  pop rdx\n"@ + "  pop r10\n"@,
        crate::generator::syscall_pops(5) == "  pop rax\n"@ + "  pop rdi\n"@ + "  pop rsi\n"@
            + "  pop rdx\n"@ + "  pop r10\n"@ + "  pop r8\n"@,
        crate::generator::syscall_pops(6) == "  pop rax\n"@ + "  pop rdi\n"@ + "  pop rsi\n"@
            + "  pop rdx\n"@ + "  pop r10\n"@ + "  pop r8\n"@ + "  pop r9\n"@,
{
    reveal_strlit("  pop rax\n");
    reveal_strlit("  pop rdi\n");
    reveal_strlit("  pop rsi\n");
    reveal_strlit("  pop rdx\n");
    reveal_strlit("  pop r10\n");
    reveal_strlit("  pop r8\n");
    reveal_strlit("  pop r9\n");
    reveal_strlit("  pop rax");
    reveal_strlit("  pop rdi");
    reveal_strlit("  pop rsi");
    reveal_strlit("  pop rdx");
    reveal_strlit("  pop r10");
    reveal_strlit("  pop r8");
    reveal_strlit("  pop r9");
    reveal_strlit("\n");
    reveal_with_fuel(crate::generator::syscall_pops, 7);
    assert(crate::generator::syscall_pops(0) =~= "  pop rax\n"@);
    assert(crate::generator::syscall_pops(1) =~= "  pop rax\n"@ + "  pop rdi\n"@);
    assert(crate::generator::syscall_pops(2) =~= "  pop rax\n"@ + "  pop rdi\n"@ + "  pop rsi\n"@);
    assert(crate::generator::syscall_pops(3) =~= "  pop rax\n"@ + "  pop rdi\n"@ + "  pop rsi\n"@
        + "  pop rdx\n"@);
    assert(crate::generator::syscall_pops(4) =~= "  pop rax\n"@ + "  pop rdi\n"@ + "  pop rsi\n"@
        + "  pop rdx\n"@ + "  pop r10\n"@);
    assert(crate::generator::syscall_pops(5) =~= "  pop rax\n"@ + "  pop rdi\n"@ + "  pop rsi\n"@
        + "  pop rdx\n"@ + "  pop r10\n"@ + "  pop r8\n"@);
    assert(crate::generator::syscall_pops(6) =~= "  pop rax\n"@ + "  pop rdi\n"@ + "  pop rsi\n"@
        + "  pop rdx\n"@ + "  pop r10\n"@ + "  pop r8\n"@ + "  pop r9\n"@);
}

/// Memory is read and written with the instruction of its width: 8, 16,
/// 32 or 64 bits through `bl`, `bx`, `ebx` or `rbx`.
pub proof fn law_memory_widths()
    ensures
        crate::generator::read_line("8"@) == "  mov bl, BYTE [rax]\n"@,
        crate::generator::read_line("16"@) == "  mov bx, WORD [rax]\n"@,
        crate::generator::read_line("32"@) == "  mov ebx, DWORD [rax]\n"@,
        crate::generator::read_line("64"@) == "  mov rbx, QWORD [rax]\n"@,
        crate::generator::write_line("8"@) == "  mov BYTE [rax], bl\n\n"@,
        crate::generator::write_line("16"@) == "  mov WORD [rax], bx\n\n"@,
        crate::generator::write_line("32"@) == "  mov DWORD [rax], ebx\n\n"@,
        crate::generator::write_line("64"@) == "  mov QWORD [rax], rbx\n\n"@,
{
    reveal_strlit("8");
    reveal_strlit("16");
    reveal_strlit("32");
    reveal_strlit("64");
    assert("16"@.len() != "8"@.len());
    assert("32"@.len() != "8"@.len() && "64"@.len() != "8"@.len());
    assert("32"@[0] != "16"@[0]);
    assert("64"@[0] != "16"@[0] && "64"@[0] != "32"@[0]);
}

} // verus!
