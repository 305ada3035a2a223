//! Turning commands into x86-64 assembly text for nasm.
use vstd::prelude::*;
use crate::instructions::{Command, CommandView, Commands, cmd_views};
use crate::parser::{cut_string, table_of, unquoted, lemma_table_of_absent, lemma_table_of_last};
use crate::text::{append_chars, chars_eq, chars_of, is_word, push_all, replace_all, replace_all_chars, string_of};

verus! {

/// The constants every program uses and the message printed when function
/// calls nest too deep (the body of the data section).
pub const DATA_CONSTANTS: &'static str = "  ; constants
  NULL            equ 0
  EXIT_SUCCESS    equ 0
  EXIT_FAIL       equ 1
  SYS_exit        equ 60
  SYS_read        equ 0
  SYS_write       equ 1
  STD_in          equ 0
  STD_out         equ 1
  STD_err         equ 2

  REC_OVERFLOW_MSG db 'Recursion overflow', 10, '', 0
  REC_OVERFLOW_MSG_LEN equ $ - REC_OVERFLOW_MSG

";

/// The routine that prints the number in `rdi` in decimal.
pub const DUMP_ROUTINE: &'static str = "dump:
    mov     r9, -3689348814741910323
    sub     rsp, 40
    mov     BYTE [rsp+31], 10
    lea     rcx, [rsp+30]
.L2:
    mov     rax, rdi
    lea     r8, [rsp+32]
    mul     r9
    mov     rax, rdi
    sub     r8, rcx
    shr     rdx, 3
    lea     rsi, [rdx+rdx*4]
    add     rsi, rsi
    sub     rax, rsi
    add     eax, 48
    mov     BYTE [rcx], al
    mov     rax, rdi
    mov     rdi, rdx
    mov     rdx, rcx
    sub     rcx, 1
    cmp     rax, 9
    ja      .L2
    lea     rax, [rsp+32]
    mov     edi, 1
    sub     rdx, rax
    xor     eax, eax
    lea     rsi, [rsp+32+rdx]
    mov     rdx, r8
    mov     rax, 1
    syscall
    add     rsp, 40
    ret

";

/// The exit with status 0 that ends the main code, then the routine that
/// reports nesting too deep, up to its exit with status 1.
pub const PROGRAM_EXIT: &'static str = "  ; we end the program and return 0
  mov rax, SYS_exit
  mov rdi, EXIT_SUCCESS
  syscall

RECURSION_LIMIT:
  ; print error msg
  mov rax, 1
  mov rdi, 1
  mov rsi, REC_OVERFLOW_MSG
  mov rdx, REC_OVERFLOW_MSG_LEN
  syscall

  ; exit
  pop rax
";



/// The start of a function body: check the nesting depth and save the
/// return address.
pub const FUNC_PROLOGUE: &'static str = "  ; on check si la memoire est remplie
  xor rax, rax
  mov al, byte [mem]
  cmp al, 10
  je RECURSION_LIMIT
  ; on se décale vers la droite
  xor rax, rax
  mov al, byte [mem]
  mov rbx, 8
  mul rbx
  add rax, 1
  ; valeur de l'adresse de retour
  pop rbx
  mov [mem+rax], rbx
  ; on incrémente [mem]
  mov al, [mem]
  add al, 1
  mov [mem], al

";

/// The end of a function body: restore the nesting depth and jump back to
/// the saved return address.
pub const FUNC_RETURN: &'static str = "  ; remove 1 from [mem]
  mov al, [mem]
  sub al, 1
  mov [mem], al
  ; compute of return adress
  xor rax, rax
  mov al, byte [mem]
  mov rbx, 8
  mul rbx
  add rax, 1
  ; return 
  mov rax, [mem+rax]
  jmp rax

";

/// The code of a comparison `op` (the suffix of the conditional jump) with
/// label `label`: pops two values and pushes 1 when the second popped value
/// compares to the first as `op` says, else 0.
pub open spec fn comparison_code(op: Seq<char>, label: Seq<char>) -> Seq<char> {
    "  ; "@ + op + "\n  pop rdi\n  pop rax\n  cmp rax, rdi\n  j"@ + op + " "@ + op + "_true_"@
        + label + "\n  push 0\n  jmp "@ + op + "_end_"@ + label + "\n  "@ + op + "_true_"@ + label
        + ":\n  push 1\n  "@ + op + "_end_"@ + label + ":\n\n"@
}

/// The assembly of a comparison; see `comparison_code`.
pub fn generate_comparison_code(operation: &str, args: &str) -> (r: String)
    ensures
        r@ == comparison_code(operation@, args@),
{
    let mut program = String::from_str("  ; ");
    program.append(operation);
    program.append("\n  pop rdi\n  pop rax\n  cmp rax, rdi\n  j");
    program.append(operation);
    program.append(" ");
    program.append(operation);
    program.append("_true_");
    program.append(args);
    program.append("\n  push 0\n  jmp ");
    program.append(operation);
    program.append("_end_");
    program.append(args);
    program.append("\n  ");
    program.append(operation);
    program.append("_true_");
    program.append(args);
    program.append(":\n  push 1\n  ");
    program.append(operation);
    program.append("_end_");
    program.append(args);
    program.append(":\n\n");
    program
}

/// The number of arguments a `syscall` label stands for, from `"0"` to `"6"`.
pub open spec fn syscall_arity(a: Seq<char>) -> Option<nat> {
    if a == "0"@ {
        Some(0)
    } else if a == "1"@ {
        Some(1)
    } else if a == "2"@ {
        Some(2)
    } else if a == "3"@ {
        Some(3)
    } else if a == "4"@ {
        Some(4)
    } else if a == "5"@ {
        Some(5)
    } else if a == "6"@ {
        Some(6)
    } else {
        None
    }
}

/// The instruction that pops the `k`-th system call argument (0 is the call
/// number) into its register.
pub open spec fn syscall_register(k: nat) -> Seq<char> {
    if k == 0 {
        "  pop rax"@
    } else if k == 1 {
        "  pop rdi"@
    } else if k == 2 {
        "  pop rsi"@
    } else if k == 3 {
        "  pop rdx"@
    } else if k == 4 {
        "  pop r10"@
    } else if k == 5 {
        "  pop r8"@
    } else {
        "  pop r9"@
    }
}

/// The pops for a system call with `n` arguments: the call number first,
/// then the arguments in register order, one per line.
pub open spec fn syscall_pops(n: nat) -> Seq<char>
    decreases n,
{
    if n == 0 {
        syscall_register(0) + "\n"@
    } else {
        syscall_pops((n - 1) as nat) + syscall_register(n) + "\n"@
    }
}

/// Whether a width is one that `read` and `write` handle.
pub open spec fn memory_width(a: Seq<char>) -> bool {
    a == "8"@ || a == "16"@ || a == "32"@ || a == "64"@
}

/// The load instruction for a width.
pub open spec fn read_line(a: Seq<char>) -> Seq<char> {
    if a == "8"@ {
        "  mov bl, BYTE [rax]\n"@
    } else if a == "16"@ {
        "  mov bx, WORD [rax]\n"@
    } else if a == "32"@ {
        "  mov ebx, DWORD [rax]\n"@
    } else {
        "  mov rbx, QWORD [rax]\n"@
    }
}

/// The store instruction for a width.
pub open spec fn write_line(a: Seq<char>) -> Seq<char> {
    if a == "8"@ {
        "  mov BYTE [rax], bl\n\n"@
    } else if a == "16"@ {
        "  mov WORD [rax], bx\n\n"@
    } else if a == "32"@ {
        "  mov DWORD [rax], ebx\n\n"@
    } else {
        "  mov QWORD [rax], rbx\n\n"@
    }
}

/// Whether the generator handles a command: it has the arguments its code
/// uses, a `syscall` has 0 to 6 arguments, `read`/`write` a width of 8, 16,
/// 32 or 64 bits, and an unknown word names a function. `Else` has no code.
pub open spec fn command_supported(c: CommandView, funcs: Map<Seq<char>, Seq<char>>) -> bool {
    let a = c.1;
    match c.0 {
        Commands::Push | Commands::If | Commands::EndIf | Commands::While | Commands::EndWhile
        | Commands::G | Commands::L | Commands::E | Commands::Ne | Commands::Ge | Commands::Le
        | Commands::EndFunc => a.len() >= 1,
        Commands::PrintStringConst | Commands::Func => a.len() >= 2,
        Commands::Syscall => a.len() >= 1 && syscall_arity(a[0]) is Some,
        Commands::Read | Commands::Write => a.len() >= 1 && memory_width(a[0]),
        Commands::Unknown => a.len() >= 1 && funcs.contains_key(a[0]),
        Commands::Else => false,
        _ => true,
    }
}

/// The assembly of one command, given the table from function names to
/// their labels.
pub open spec fn command_code(c: CommandView, funcs: Map<Seq<char>, Seq<char>>) -> Seq<char> {
    let a = c.1;
    match c.0 {
        Commands::Push => "  ; push "@ + a[0] + "\n  push "@ + a[0] + "\n\n"@,
        Commands::Dump => "  ; dump stack\n  pop rdi\n  call dump\n\n"@,
        Commands::Add => "  ; add\n  pop rdi\n  pop rax\n  add rax, rdi\n  push rax\n\n"@,
        Commands::Sub => "  ; sub\n  pop rax\n  pop rdi\n  sub rdi, rax\n  push rdi\n\n"@,
        Commands::Dup => "  ; dup\n  pop rax\n  push rax\n  push rax\n\n"@,
        Commands::If => "  ; if\n  pop rdi\n  cmp rdi, 0\n  je if_"@ + a[0] + "_end\n\n"@,
        Commands::EndIf => "  if_"@ + a[0] + "_end: ; end of the if\n\n"@,
        Commands::While => "  while_"@ + a[0]
            + "_start: ; start of the while clause\n  ; while\n  pop rdi\n  cmp rdi, 0\n  je while_"@
            + a[0] + "_end\n\n"@,
        Commands::EndWhile => "  ; jump to while\n  jmp while_"@ + a[0] + "_start\n  while_"@ + a[0]
            + "_end ; end of the while\n\n"@,
        Commands::G => comparison_code("g"@, a[0]),
        Commands::L => comparison_code("l"@, a[0]),
        Commands::E => comparison_code("e"@, a[0]),
        Commands::Ne => comparison_code("ne"@, a[0]),
        Commands::Ge => comparison_code("ge"@, a[0]),
        Commands::Le => comparison_code("le"@, a[0]),
        Commands::PrintStringConst => "  ; put the *msg "@ + a[1]
            + " and the len on the stack\n  mov rax, msg"@ + a[1] + "len\n  push rax\n\n  mov rax, msg"@
            + a[1] + "\n  push rax\n\n"@,
        Commands::Syscall => "  ; syscall with "@ + a[0] + " args\n"@ + syscall_pops(
            syscall_arity(a[0]).unwrap(),
        ) + "  syscall\n  push rax\n\n"@,
        Commands::Mul => "  ; mul\n  pop rax\n  pop rdi\n  mul rdi\n  push rax\n\n"@,
        Commands::Mem => "  ; mem\n  mov rdi, mem\n  add rdi, 81 ; to have space for nested functions calls\n  push rdi\n\n"@,
        Commands::Read => "  ; read"@ + a[0] + "\n  pop rax\n  xor rbx, rbx ; clean rxb\n"@ + read_line(
            a[0],
        ) + "  push rbx\n\n"@,
        Commands::Write => "  ; write"@ + a[0] + "\n  pop rbx\n  pop rax\n"@ + write_line(a[0]),
        Commands::Swap => "  ; swap\n  pop rax\n  pop rdi\n  push rax\n  push rdi\n\n"@,
        Commands::Drop => "  ; drop\n  pop rax\n\n"@,
        Commands::Over => "  ; over\n  pop rax\n  pop rdi\n  push rdi\n  push rax\n  push rdi\n\n"@,
        Commands::Rot => "  ; rot\n  pop rax\n  pop rdi\n  pop rbx\n  push rax\n  push rbx\n  push rdi\n\n"@,
        Commands::Func => "  ; function definition : "@ + a[1] + " \n  jmp fn_"@ + a[0] + "_end\nfn_"@
            + a[0] + "_start:\n"@ + FUNC_PROLOGUE@,
        Commands::EndFunc => FUNC_RETURN@ + "fn_"@ + a[0] + "_end:\n\n"@,
        Commands::Unknown => "  ; call function : "@ + a[0] + " \n  call fn_"@ + funcs[a[0]]
            + "_start\n\n"@,
        Commands::Div => "  ; divmod\n  xor rdx, rdx\n  pop rax\n  pop rcx\n  div rcx\n  push rdx\n  push rax\n\n"@,
        Commands::Else => seq![],
    }
}

/// The data constant of a string command: the message (with each `\n`
/// written as a line break) and its length; nothing for other commands.
pub open spec fn message_const(c: CommandView) -> Seq<char> {
    let a = c.1;
    if c.0 == Commands::PrintStringConst {
        replace_all(
            "  msg"@ + a[1] + " db '"@ + unquoted(a[0]) + "', 0\n"@,
            "\\n"@,
            "', 10, '"@,
        ) + "  msg"@ + a[1] + "len equ $ - msg"@ + a[1] + " \n"@
    } else {
        seq![]
    }
}

/// The data constants of all string commands, in order.
pub open spec fn message_consts(cmds: Seq<CommandView>) -> Seq<char>
    decreases cmds.len(),
{
    if cmds.len() == 0 {
        seq![]
    } else {
        message_consts(cmds.drop_last()) + message_const(cmds.last())
    }
}

/// The code of all commands, in order.
pub open spec fn commands_code(cmds: Seq<CommandView>, funcs: Map<Seq<char>, Seq<char>>) -> Seq<char>
    decreases cmds.len(),
{
    if cmds.len() == 0 {
        seq![]
    } else {
        commands_code(cmds.drop_last(), funcs) + command_code(cmds.last(), funcs)
    }
}

/// The functions the commands define, in order: each name with its label.
pub open spec fn function_entries(cmds: Seq<CommandView>) -> Seq<(Seq<char>, Seq<char>)>
    decreases cmds.len(),
{
    if cmds.len() == 0 {
        seq![]
    } else {
        function_entries(cmds.drop_last()) + if cmds.last().0 == Commands::Func {
            seq![(cmds.last().1[1], cmds.last().1[0])]
        } else {
            seq![]
        }
    }
}

/// The table from function names to labels; a later definition of a name
/// replaces an earlier one.
pub open spec fn function_table(cmds: Seq<CommandView>) -> Map<Seq<char>, Seq<char>> {
    table_of(function_entries(cmds))
}

/// Every command is one the generator handles.
pub open spec fn asm_generable(cmds: Seq<CommandView>) -> bool {
    forall|i: int| 0 <= i < cmds.len() ==> command_supported(#[trigger] cmds[i], function_table(cmds))
}

/// The assembly program for a list of commands: the data section (shared
/// constants, then the messages), the memory area, the text section with the
/// printing routine, the entry point, the code of the commands, and the exit.
pub open spec fn asm_program(cmds: Seq<CommandView>) -> Seq<char> {
    "section .data\n"@ + DATA_CONSTANTS@ + message_consts(cmds)
        + "section .bss\n  mem: resb 1000\n\n"@ + "section .text\n"@ + DUMP_ROUTINE@
        + "global _start\n_start:\n\n"@ + commands_code(cmds, function_table(cmds))
        + PROGRAM_EXIT@ + "  mov rax, SYS_exit\n  mov rdi, EXIT_FAIL\n  syscall\n"@
}

/// Every program has, in this order: the data section header, the memory
/// area in the bss section, the text section header, the entry point, and
/// last the exit with status 1 of the nesting check.
pub proof fn law_program_layout(cmds: Seq<CommandView>)
    ensures
        ({
            let p = asm_program(cmds);
            let bss: int = 14 + DATA_CONSTANTS@.len() as int + message_consts(cmds).len() as int;
            let text: int = bss + 31;
            let start: int = text + 14 + DUMP_ROUTINE@.len() as int;
            &&& p.take(14) == "section .data\n"@
            &&& p.subrange(bss, text) == "section .bss\n  mem: resb 1000\n\n"@
            &&& p.subrange(text, text + 14) == "section .text\n"@
            &&& p.subrange(start, start + 23) == "global _start\n_start:\n\n"@
            &&& p.len() >= start + 23 + 51
            &&& p.skip(p.len() - 51) == "  mov rax, SYS_exit\n  mov rdi, EXIT_FAIL\n  syscall\n"@
        }),
{
    reveal_strlit("section .data\n");
    reveal_strlit("section .bss\n  mem: resb 1000\n\n");
    reveal_strlit("section .text\n");
    reveal_strlit("global _start\n_start:\n\n");
    reveal_strlit("  mov rax, SYS_exit\n  mov rdi, EXIT_FAIL\n  syscall\n");
    let p = asm_program(cmds);
    let a1 = "section .data\n"@ + DATA_CONSTANTS@ + message_consts(cmds);
    let a2 = a1 + "section .bss\n  mem: resb 1000\n\n"@;
    let a3 = a2 + "section .text\n"@;
    let a4 = a3 + DUMP_ROUTINE@;
    let a5 = a4 + "global _start\n_start:\n\n"@;
    let a6 = a5 + commands_code(cmds, function_table(cmds)) + PROGRAM_EXIT@;
    let fail = "  mov rax, SYS_exit\n  mov rdi, EXIT_FAIL\n  syscall\n"@;
    assert(p == a6 + fail);
    assert(a1.take(14) =~= "section .data\n"@);
    assert(p.take(14) =~= a1.take(14));
    assert(p.subrange(a1.len() as int, a2.len() as int) =~= "section .bss\n  mem: resb 1000\n\n"@);
    assert(p.subrange(a2.len() as int, a3.len() as int) =~= "section .text\n"@);
    assert(p.subrange(a4.len() as int, a5.len() as int) =~= "global _start\n_start:\n\n"@);
    assert(p.skip(p.len() - 51) =~= fail);
}

/// A function table entry: a function's name and its label.
pub type FuncEntry = (Vec<char>, Vec<char>);

/// The view of function table entries.
pub open spec fn func_entry_views(es: Seq<FuncEntry>) -> Seq<(Seq<char>, Seq<char>)> {
    es.map_values(|e: FuncEntry| (e.0@, e.1@))
}

fn find_function(entries: &Vec<FuncEntry>, key: &Vec<char>) -> (r: Option<usize>)
    ensures
        match r {
            Some(j) => j < entries@.len() && table_of(func_entry_views(entries@)).contains_key(key@)
                && table_of(func_entry_views(entries@))[key@] == entries@[j as int].1@,
            None => !table_of(func_entry_views(entries@)).contains_key(key@),
        },
{
    let ghost ev = func_entry_views(entries@);
    let mut j: usize = entries.len();
    while j > 0
        invariant
            j <= entries.len(),
            ev == func_entry_views(entries@),
            forall|l: int| j <= l < ev.len() ==> (#[trigger] ev[l]).0 != key@,
        decreases j,
    {
        if chars_eq(&entries[j - 1].0, key) {
            proof {
                lemma_table_of_last(ev, j - 1, key@);
            }
            return Some(j - 1);
        }
        j -= 1;
    }
    proof {
        lemma_table_of_absent(ev, key@);
    }
    None
}

fn function_entries_of(commands: &Vec<Command>) -> (r: Vec<FuncEntry>)
    requires
        forall|i: int|
            0 <= i < commands@.len() && (#[trigger] commands@[i]).0 == Commands::Func
                ==> commands@[i].1@.len() >= 2,
    ensures
        func_entry_views(r@) == function_entries(cmd_views(commands@)),
{
    let ghost cmds = cmd_views(commands@);
    let mut r: Vec<FuncEntry> = Vec::new();
    let mut i: usize = 0;
    assert(cmds.take(0) =~= Seq::<CommandView>::empty());
    assert(func_entry_views(r@) =~= Seq::<(Seq<char>, Seq<char>)>::empty());
    while i < commands.len()
        invariant
            cmds == cmd_views(commands@),
            i <= commands.len(),
            forall|k: int|
                0 <= k < commands@.len() && (#[trigger] commands@[k]).0 == Commands::Func
                    ==> commands@[k].1@.len() >= 2,
            func_entry_views(r@) == function_entries(cmds.take(i as int)),
        decreases commands.len() - i,
    {
        let ghost before = func_entry_views(r@);
        assert(cmds.take(i + 1).drop_last() =~= cmds.take(i as int));
        assert(cmds.take(i + 1).last() == cmds[i as int]);
        if commands[i].0 == Commands::Func {
            let name = chars_of(commands[i].1[1].as_str());
            let label = chars_of(commands[i].1[0].as_str());
            r.push((name, label));
            assert(func_entry_views(r@) =~= before + seq![(cmds[i as int].1[1], cmds[i as int].1[0])]);
        } else {
            assert(func_entry_views(r@) =~= before + Seq::<(Seq<char>, Seq<char>)>::empty());
        }
        i += 1;
    }
    assert(cmds.take(i as int) =~= cmds);
    r
}

fn syscall_register_text(k: u64) -> (r: &'static str)
    requires
        k <= 6,
    ensures
        r@ == syscall_register(k as nat),
{
    if k == 0 {
        "  pop rax"
    } else if k == 1 {
        "  pop rdi"
    } else if k == 2 {
        "  pop rsi"
    } else if k == 3 {
        "  pop rdx"
    } else if k == 4 {
        "  pop r10"
    } else if k == 5 {
        "  pop r8"
    } else {
        "  pop r9"
    }
}

fn syscall_pops_text(n: u64) -> (r: String)
    requires
        n <= 6,
    ensures
        r@ == syscall_pops(n as nat),
{
    let mut s = String::from_str(syscall_register_text(0));
    s.append("\n");
    let mut k: u64 = 0;
    while k < n
        invariant
            k <= n <= 6,
            s@ == syscall_pops(k as nat),
        decreases n - k,
    {
        k += 1;
        s.append(syscall_register_text(k));
        s.append("\n");
    }
    s
}

fn syscall_arity_of(a: &Vec<char>) -> (r: Option<u64>)
    ensures
        match r {
            Some(n) => syscall_arity(a@) == Some(n as nat) && n <= 6,
            None => syscall_arity(a@) is None,
        },
{
    if is_word(a, "0") {
        Some(0)
    } else if is_word(a, "1") {
        Some(1)
    } else if is_word(a, "2") {
        Some(2)
    } else if is_word(a, "3") {
        Some(3)
    } else if is_word(a, "4") {
        Some(4)
    } else if is_word(a, "5") {
        Some(5)
    } else if is_word(a, "6") {
        Some(6)
    } else {
        None
    }
}

fn memory_width_of(a: &Vec<char>) -> (r: Option<u8>)
    ensures
        r is Some <==> memory_width(a@),
        r == Some(0u8) ==> a@ == "8"@,
        r == Some(1u8) ==> a@ != "8"@ && a@ == "16"@,
        r == Some(2u8) ==> a@ != "8"@ && a@ != "16"@ && a@ == "32"@,
        r == Some(3u8) ==> a@ != "8"@ && a@ != "16"@ && a@ != "32"@ && a@ == "64"@,
        r matches Some(k) ==> k <= 3,
{
    if is_word(a, "8") {
        Some(0)
    } else if is_word(a, "16") {
        Some(1)
    } else if is_word(a, "32") {
        Some(2)
    } else if is_word(a, "64") {
        Some(3)
    } else {
        None
    }
}

fn comparison_op(c: Commands) -> (r: &'static str)
    requires
        c == Commands::G || c == Commands::L || c == Commands::E || c == Commands::Ne || c
            == Commands::Ge || c == Commands::Le,
    ensures
        c == Commands::G ==> r@ == "g"@,
        c == Commands::L ==> r@ == "l"@,
        c == Commands::E ==> r@ == "e"@,
        c == Commands::Ne ==> r@ == "ne"@,
        c == Commands::Ge ==> r@ == "ge"@,
        c == Commands::Le ==> r@ == "le"@,
{
    match c {
        Commands::G => "g",
        Commands::L => "l",
        Commands::E => "e",
        Commands::Ne => "ne",
        Commands::Ge => "ge",
        _ => "le",
    }
}

fn command_text(c: &Command, funcs: &Vec<FuncEntry>) -> (r: String)
    requires
        command_supported((c.0, crate::text::views(c.1@)), table_of(func_entry_views(funcs@))),
    ensures
        r@ == command_code((c.0, crate::text::views(c.1@)), table_of(func_entry_views(funcs@))),
{
    let ghost a = crate::text::views(c.1@);
    let args = &c.1;
    proof {
        if args@.len() >= 1 {
            assert(a[0] == args@[0]@);
        }
        if args@.len() >= 2 {
            assert(a[1] == args@[1]@);
        }
    }
    match c.0 {
        Commands::Push => {
            let mut s = String::from_str("  ; push ");
            s.append(args[0].as_str());
            s.append("\n  push ");
            s.append(args[0].as_str());
            s.append("\n\n");
            s
        },
        Commands::Dump => String::from_str("  ; dump stack\n  pop rdi\n  call dump\n\n"),
        Commands::Add => String::from_str("  ; add\n  pop rdi\n  pop rax\n  add rax, rdi\n  push rax\n\n"),
        Commands::Sub => String::from_str("  ; sub\n  pop rax\n  pop rdi\n  sub rdi, rax\n  push rdi\n\n"),
        Commands::Dup => String::from_str("  ; dup\n  pop rax\n  push rax\n  push rax\n\n"),
        Commands::If => {
            let mut s = String::from_str("  ; if\n  pop rdi\n  cmp rdi, 0\n  je if_");
            s.append(args[0].as_str());
            s.append("_end\n\n");
            s
        },
        Commands::EndIf => {
            let mut s = String::from_str("  if_");
            s.append(args[0].as_str());
            s.append("_end: ; end of the if\n\n");
            s
        },
        Commands::While => {
            let mut s = String::from_str("  while_");
            s.append(args[0].as_str());
            s.append("_start: ; start of the while clause\n  ; while\n  pop rdi\n  cmp rdi, 0\n  je while_");
            s.append(args[0].as_str());
            s.append("_end\n\n");
            s
        },
        Commands::EndWhile => {
            let mut s = String::from_str("  ; jump to while\n  jmp while_");
            s.append(args[0].as_str());
            s.append("_start\n  while_");
            s.append(args[0].as_str());
            s.append("_end ; end of the while\n\n");
            s
        },
        Commands::G | Commands::L | Commands::E | Commands::Ne | Commands::Ge | Commands::Le => {
            let op = comparison_op(c.0);
            generate_comparison_code(op, args[0].as_str())
        },
        Commands::PrintStringConst => {
            let mut s = String::from_str("  ; put the *msg ");
            s.append(args[1].as_str());
            s.append(" and the len on the stack\n  mov rax, msg");
            s.append(args[1].as_str());
            s.append("len\n  push rax\n\n  mov rax, msg");
            s.append(args[1].as_str());
            s.append("\n  push rax\n\n");
            s
        },
        Commands::Syscall => {
            let digits = chars_of(args[0].as_str());
            let n = match syscall_arity_of(&digits) {
                Some(n) => n,
                None => 0,
            };
            let pops = syscall_pops_text(n);
            let mut s = String::from_str("  ; syscall with ");
            s.append(args[0].as_str());
            s.append(" args\n");
            s.append(pops.as_str());
            s.append("  syscall\n  push rax\n\n");
            s
        },
        Commands::Mul => String::from_str("  ; mul\n  pop rax\n  pop rdi\n  mul rdi\n  push rax\n\n"),
        Commands::Mem => String::from_str("  ; mem\n  mov rdi, mem\n  add rdi, 81 ; to have space for nested functions calls\n  push rdi\n\n"),
        Commands::Read => {
            let width = chars_of(args[0].as_str());
            let w = memory_width_of(&width);
            let mut s = String::from_str("  ; read");
            s.append(args[0].as_str());
            s.append("\n  pop rax\n  xor rbx, rbx ; clean rxb\n");
            match w {
                Some(0) => s.append("  mov bl, BYTE [rax]\n"),
                Some(1) => s.append("  mov bx, WORD [rax]\n"),
                Some(2) => s.append("  mov ebx, DWORD [rax]\n"),
                _ => s.append("  mov rbx, QWORD [rax]\n"),
            }
            s.append("  push rbx\n\n");
            s
        },
        Commands::Write => {
            let width = chars_of(args[0].as_str());
            let w = memory_width_of(&width);
            let mut s = String::from_str("  ; write");
            s.append(args[0].as_str());
            s.append("\n  pop rbx\n  pop rax\n");
            match w {
                Some(0) => s.append("  mov BYTE [rax], bl\n\n"),
                Some(1) => s.append("  mov WORD [rax], bx\n\n"),
                Some(2) => s.append("  mov DWORD [rax], ebx\n\n"),
                _ => s.append("  mov QWORD [rax], rbx\n\n"),
            }
            s
        },
        Commands::Swap => String::from_str("  ; swap\n  pop rax\n  pop rdi\n  push rax\n  push rdi\n\n"),
        Commands::Drop => String::from_str("  ; drop\n  pop rax\n\n"),
        Commands::Over => String::from_str("  ; over\n  pop rax\n  pop rdi\n  push rdi\n  push rax\n  push rdi\n\n"),
        Commands::Rot => String::from_str("  ; rot\n  pop rax\n  pop rdi\n  pop rbx\n  push rax\n  push rbx\n  push rdi\n\n"),
        Commands::Func => {
            let mut s = String::from_str("  ; function definition : ");
            s.append(args[1].as_str());
            s.append(" \n  jmp fn_");
            s.append(args[0].as_str());
            s.append("_end\nfn_");
            s.append(args[0].as_str());
            s.append("_start:\n");
            s.append(FUNC_PROLOGUE);
            s
        },
        Commands::EndFunc => {
            let mut s = String::from_str(FUNC_RETURN);
            s.append("fn_");
            s.append(args[0].as_str());
            s.append("_end:\n\n");
            s
        },
        Commands::Unknown => {
            let name = chars_of(args[0].as_str());
            let mut s = String::from_str("  ; call function : ");
            s.append(args[0].as_str());
            s.append(" \n  call fn_");
            match find_function(funcs, &name) {
                Some(j) => append_chars(&mut s, &funcs[j].1),
                None => {},
            }
            s.append("_start\n\n");
            s
        },
        Commands::Div => String::from_str("  ; divmod\n  xor rdx, rdx\n  pop rax\n  pop rcx\n  div rcx\n  push rdx\n  push rax\n\n"),
        Commands::Else => String::new(),
    }
}

fn message_const_text(c: &Command) -> (r: String)
    requires
        c.0 == Commands::PrintStringConst ==> c.1@.len() >= 2,
    ensures
        r@ == message_const((c.0, crate::text::views(c.1@))),
{
    let ghost a = crate::text::views(c.1@);
    if c.0 != Commands::PrintStringConst {
        return String::new();
    }
    let args = &c.1;
    assert(a[0] == args@[0]@);
    assert(a[1] == args@[1]@);
    let mut line = chars_of("  msg");
    push_all(&mut line, &chars_of(args[1].as_str()));
    push_all(&mut line, &chars_of(" db '"));
    push_all(&mut line, &chars_of(cut_string(args[0].as_str())));
    push_all(&mut line, &chars_of("', 0\n"));
    let replaced = replace_all_chars(&line, &chars_of("\\n"), &chars_of("', 10, '"));
    let mut s = string_of(&replaced);
    s.append("  msg");
    s.append(args[1].as_str());
    s.append("len equ $ - msg");
    s.append(args[1].as_str());
    s.append(" \n");
    s
}

/// Whether the generator handles every command; see `asm_generable`.
pub fn can_generate_asm(commands: &Vec<Command>) -> (r: bool)
    ensures
        r == asm_generable(cmd_views(commands@)),
{
    let ghost cmds = cmd_views(commands@);
    let mut i: usize = 0;
    while i < commands.len()
        invariant
            cmds == cmd_views(commands@),
            i <= commands.len(),
            forall|k: int| 0 <= k < i ==> (#[trigger] commands@[k]).0 == Commands::Func ==> commands@[k].1@.len() >= 2,
        decreases commands.len() - i,
    {
        assert(cmds[i as int].1.len() == commands@[i as int].1@.len());
        if commands[i].0 == Commands::Func && commands[i].1.len() < 2 {
            assert(!command_supported(cmds[i as int], function_table(cmds)));
            return false;
        }
        i += 1;
    }
    let funcs = function_entries_of(commands);
    let mut i: usize = 0;
    while i < commands.len()
        invariant
            cmds == cmd_views(commands@),
            i <= commands.len(),
            func_entry_views(funcs@) == function_entries(cmds),
            forall|k: int| 0 <= k < i ==> command_supported(#[trigger] cmds[k], function_table(cmds)),
        decreases commands.len() - i,
    {
        let c = &commands[i];
        let ghost cv = cmds[i as int];
        assert(cv.0 == c.0 && cv.1 == crate::text::views(c.1@));
        let args = &c.1;
        if args.len() >= 1 {
            assert(cv.1[0] == args@[0]@);
        }
        let ok = match c.0 {
            Commands::Push | Commands::If | Commands::EndIf | Commands::While
            | Commands::EndWhile | Commands::G | Commands::L | Commands::E | Commands::Ne
            | Commands::Ge | Commands::Le | Commands::EndFunc => args.len() >= 1,
            Commands::PrintStringConst | Commands::Func => args.len() >= 2,
            Commands::Syscall => args.len() >= 1 && syscall_arity_of(&chars_of(args[0].as_str())).is_some(),
            Commands::Read | Commands::Write => args.len() >= 1 && memory_width_of(&chars_of(args[0].as_str())).is_some(),
            Commands::Unknown => args.len() >= 1 && find_function(&funcs, &chars_of(args[0].as_str())).is_some(),
            Commands::Else => false,
            _ => true,
        };
        if !ok {
            return false;
        }
        i += 1;
    }
    true
}

/// The assembly program for a list of commands; see `asm_program`. Every
/// command must be one the generator handles.
pub fn generate_asm(commands: &Vec<Command>) -> (r: String)
    requires
        asm_generable(cmd_views(commands@)),
    ensures
        r@ == asm_program(cmd_views(commands@)),
{
    let ghost cmds = cmd_views(commands@);
    proof {
        assert forall|i: int|
            0 <= i < commands@.len() && (#[trigger] commands@[i]).0 == Commands::Func
                implies commands@[i].1@.len() >= 2 by {
            assert(command_supported(cmds[i], function_table(cmds)));
        }
    }
    let funcs = function_entries_of(commands);
    let mut program = String::from_str("section .data\n");
    program.append(DATA_CONSTANTS);
    let mut consts = String::new();
    let mut i: usize = 0;
    assert(cmds.take(0) =~= Seq::<CommandView>::empty());
    while i < commands.len()
        invariant
            cmds == cmd_views(commands@),
            asm_generable(cmds),
            i <= commands.len(),
            consts@ == message_consts(cmds.take(i as int)),
        decreases commands.len() - i,
    {
        assert(cmds.take(i + 1).drop_last() =~= cmds.take(i as int));
        assert(cmds.take(i + 1).last() == cmds[i as int]);
        assert(command_supported(cmds[i as int], function_table(cmds)));
        let m = message_const_text(&commands[i]);
        consts.append(m.as_str());
        i += 1;
    }
    assert(cmds.take(i as int) =~= cmds);
    program.append(consts.as_str());
    program.append("section .bss\n  mem: resb 1000\n\n");
    program.append("section .text\n");
    program.append(DUMP_ROUTINE);
    program.append("global _start\n_start:\n\n");
    let mut code = String::new();
    let mut i: usize = 0;
    while i < commands.len()
        invariant
            cmds == cmd_views(commands@),
            asm_generable(cmds),
            func_entry_views(funcs@) == function_entries(cmds),
            i <= commands.len(),
            code@ == commands_code(cmds.take(i as int), function_table(cmds)),
        decreases commands.len() - i,
    {
        assert(cmds.take(i + 1).drop_last() =~= cmds.take(i as int));
        assert(cmds.take(i + 1).last() == cmds[i as int]);
        assert(command_supported(cmds[i as int], function_table(cmds)));
        let t = command_text(&commands[i], &funcs);
        code.append(t.as_str());
        i += 1;
    }
    assert(cmds.take(i as int) =~= cmds);
    program.append(code.as_str());
    program.append(PROGRAM_EXIT);
    program.append("  mov rax, SYS_exit\n  mov rdi, EXIT_FAIL\n  syscall\n");
    program
}

} // verus!
