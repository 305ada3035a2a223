use pyasm::generator::{
    can_generate_asm, generate_asm, generate_comparison_code, DATA_CONSTANTS, DUMP_ROUTINE,
    PROGRAM_EXIT,
};
use pyasm::instructions::Commands;

fn cmd(c: Commands, args: &[&str]) -> (Commands, Vec<String>) {
    (c, args.iter().map(|s| s.to_string()).collect())
}

fn program(data: &str, code: &str) -> String {
    format!(
        "section .data\n{}{}section .bss\n  mem: resb 1000\n\nsection .text\n{}global _start\n_start:\n\n{}{}  mov rax, SYS_exit\n  mov rdi, EXIT_FAIL\n  syscall\n",
        DATA_CONSTANTS, data, DUMP_ROUTINE, code, PROGRAM_EXIT
    )
}

#[test]
fn comparison_code() {
    assert_eq!(
        generate_comparison_code("g", "0"),
        "  ; g\n  pop rdi\n  pop rax\n  cmp rax, rdi\n  jg g_true_0\n  push 0\n  jmp g_end_0\n  g_true_0:\n  push 1\n  g_end_0:\n\n"
    );
}

#[test]
fn header_and_trailer() {
    assert!(DATA_CONSTANTS.starts_with("  ; constants\n  NULL            equ 0\n"));
    assert!(DUMP_ROUTINE.starts_with("dump:\n    mov     r9, -3689348814741910323\n"));
    assert!(DUMP_ROUTINE.ends_with("    add     rsp, 40\n    ret\n\n"));
    assert!(PROGRAM_EXIT.starts_with("  ; we end the program and return 0\n  mov rax, SYS_exit\n"));
    assert!(PROGRAM_EXIT.ends_with("  ; exit\n  pop rax\n"));
    let out = generate_asm(&vec![(Commands::Dump, vec![])]);
    let data = out.find("section .data\n").unwrap();
    let bss = out.find("section .bss\n  mem: resb 1000\n").unwrap();
    let text = out.find("section .text\n").unwrap();
    let start = out.find("global _start\n_start:\n\n").unwrap();
    assert!(data == 0 && data < bss && bss < text && text < start);
    assert!(out.ends_with("  mov rax, SYS_exit\n  mov rdi, EXIT_FAIL\n  syscall\n"));
}

#[test]
fn push_and_dump() {
    let cmds = vec![cmd(Commands::Push, &["3"]), cmd(Commands::Dump, &[])];
    assert!(can_generate_asm(&cmds));
    assert_eq!(
        generate_asm(&cmds),
        program("", "  ; push 3\n  push 3\n\n  ; dump stack\n  pop rdi\n  call dump\n\n")
    );
}

#[test]
fn empty_program() {
    assert_eq!(generate_asm(&vec![]), program("", ""));
}

#[test]
fn blocks() {
    let cmds = vec![
        cmd(Commands::If, &["0"]),
        cmd(Commands::EndIf, &["0"]),
        cmd(Commands::While, &["1"]),
        cmd(Commands::EndWhile, &["1"]),
    ];
    assert_eq!(
        generate_asm(&cmds),
        program(
            "",
            "  ; if\n  pop rdi\n  cmp rdi, 0\n  je if_0_end\n\n  if_0_end: ; end of the if\n\n  while_1_start: ; start of the while clause\n  ; while\n  pop rdi\n  cmp rdi, 0\n  je while_1_end\n\n  ; jump to while\n  jmp while_1_start\n  while_1_end ; end of the while\n\n"
        )
    );
}

#[test]
fn string_constants() {
    let cmds = vec![cmd(Commands::PrintStringConst, &["\"a\\nb\"", "0"])];
    assert_eq!(
        generate_asm(&cmds),
        program(
            "  msg0 db 'a', 10, 'b', 0\n  msg0len equ $ - msg0 \n",
            "  ; put the *msg 0 and the len on the stack\n  mov rax, msg0len\n  push rax\n\n  mov rax, msg0\n  push rax\n\n"
        )
    );
}

#[test]
fn syscalls_pop_their_arguments() {
    let cmds = vec![cmd(Commands::Syscall, &["3"]), cmd(Commands::Syscall, &["0"])];
    assert_eq!(
        generate_asm(&cmds),
        program(
            "",
            "  ; syscall with 3 args\n  pop rax\n  pop rdi\n  pop rsi\n  pop rdx\n  syscall\n  push rax\n\n  ; syscall with 0 args\n  pop rax\n  syscall\n  push rax\n\n"
        )
    );
    let six = generate_asm(&vec![cmd(Commands::Syscall, &["6"])]);
    assert!(six.contains("  pop rax\n  pop rdi\n  pop rsi\n  pop rdx\n  pop r10\n  pop r8\n  pop r9\n  syscall\n"));
}

#[test]
fn memory_access() {
    let cmds = vec![cmd(Commands::Read, &["16"]), cmd(Commands::Write, &["64"]), cmd(Commands::Mem, &[])];
    assert_eq!(
        generate_asm(&cmds),
        program(
            "",
            "  ; read16\n  pop rax\n  xor rbx, rbx ; clean rxb\n  mov bx, WORD [rax]\n  push rbx\n\n  ; write64\n  pop rbx\n  pop rax\n  mov QWORD [rax], rbx\n\n  ; mem\n  mov rdi, mem\n  add rdi, 81 ; to have space for nested functions calls\n  push rdi\n\n"
        )
    );
}

#[test]
fn functions_are_called_by_label() {
    let cmds = vec![
        cmd(Commands::Func, &["0", "f"]),
        cmd(Commands::EndFunc, &["0"]),
        cmd(Commands::Func, &["1", "f"]),
        cmd(Commands::EndFunc, &["1"]),
        cmd(Commands::Unknown, &["f"]),
    ];
    assert!(can_generate_asm(&cmds));
    let out = generate_asm(&cmds);
    assert!(out.contains("  ; function definition : f \n  jmp fn_0_end\nfn_0_start:\n  ; on check si la memoire est remplie\n"));
    assert!(out.contains("  jmp rax\n\nfn_0_end:\n\n"));
    assert!(out.contains("  ; call function : f \n  call fn_1_start\n\n"));
}

#[test]
fn unsupported_commands_are_detected() {
    assert!(!can_generate_asm(&vec![cmd(Commands::Unknown, &["g"])]));
    assert!(!can_generate_asm(&vec![cmd(Commands::Else, &["0"])]));
    assert!(!can_generate_asm(&vec![cmd(Commands::Syscall, &["7"])]));
    assert!(!can_generate_asm(&vec![cmd(Commands::Read, &["12"])]));
    assert!(!can_generate_asm(&vec![cmd(Commands::Push, &[])]));
    assert!(!can_generate_asm(&vec![cmd(Commands::Func, &["0"])]));
    assert!(can_generate_asm(&vec![cmd(Commands::Rot, &[]), cmd(Commands::Div, &[])]));
}

#[test]
fn function_prologue_stores_the_new_depth() {
    let out = generate_asm(&vec![cmd(Commands::Func, &["0", "f"])]);
    assert!(out.contains("  ; on incr\u{e9}mente [mem]\n  mov al, [mem]\n  add al, 1\n  mov [mem], al\n\n"));
}

#[test]
fn comparison_code_defines_its_two_labels_once() {
    let code = generate_comparison_code("ge", "12");
    let lines: Vec<&str> = code.split('\n').collect();
    assert_eq!(
        lines,
        vec![
            "  ; ge",
            "  pop rdi",
            "  pop rax",
            "  cmp rax, rdi",
            "  jge ge_true_12",
            "  push 0",
            "  jmp ge_end_12",
            "  ge_true_12:",
            "  push 1",
            "  ge_end_12:",
            "",
            "",
        ]
    );
    let defined: Vec<&&str> = lines.iter().filter(|l| l.ends_with(':')).collect();
    assert_eq!(defined, vec![&"  ge_true_12:", &"  ge_end_12:"]);
    let other = generate_comparison_code("e", "12");
    assert!(!other.contains("ge_true_12") && !other.contains("ge_end_12"));
}
