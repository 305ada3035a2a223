//! The shape of the code of a comparison: which registers it pops into,
//! where it jumps, and which labels it defines.
use vstd::prelude::*;
use crate::generator::comparison_code;
use crate::text::all_ascii_digits;

verus! {

/// The jump suffixes of the six comparisons: `>`, `<`, `=`, `!=`, `>=`, `<=`.
pub open spec fn is_comparison_op(op: Seq<char>) -> bool {
    op == "g"@ || op == "l"@ || op == "e"@ || op == "ne"@ || op == "ge"@ || op == "le"@
}

/// The label jumped to when the comparison holds.
pub open spec fn true_label(op: Seq<char>, label: Seq<char>) -> Seq<char> {
    op + "_true_"@ + label
}

/// The label where both outcomes meet again.
pub open spec fn end_label(op: Seq<char>, label: Seq<char>) -> Seq<char> {
    op + "_end_"@ + label
}

/// The lines of the code of a comparison.
pub open spec fn comparison_lines(op: Seq<char>, label: Seq<char>) -> Seq<Seq<char>> {
    seq![
        "  ; "@ + op,
        "  pop rdi"@,
        "  pop rax"@,
        "  cmp rax, rdi"@,
        "  j"@ + op + " "@ + true_label(op, label),
        "  push 0"@,
        "  jmp "@ + end_label(op, label),
        "  "@ + true_label(op, label) + ":"@,
        "  push 1"@,
        "  "@ + end_label(op, label) + ":"@,
        ""@,
    ]
}

/// Lines joined into a text, each followed by a line break.
pub open spec fn lines_text(lines: Seq<Seq<char>>) -> Seq<char>
    decreases lines.len(),
{
    if lines.len() == 0 {
        seq![]
    } else {
        lines[0] + "\n"@ + lines_text(lines.skip(1))
    }
}

/// A line that defines the label `name`.
pub open spec fn defines_label(line: Seq<char>, name: Seq<char>) -> bool {
    line == "  "@ + name + ":"@
}

pub proof fn lemma_lines_text_at(lines: Seq<Seq<char>>, k: int)
    requires
        0 <= k < lines.len(),
    ensures
        lines_text(lines.skip(k)) == lines[k] + "\n"@ + lines_text(lines.skip(k + 1)),
{
    assert(lines.skip(k).skip(1) =~= lines.skip(k + 1));
    assert(lines.skip(k)[0] == lines[k]);
}

proof fn lemma_op_shape(op: Seq<char>)
    requires
        is_comparison_op(op),
    ensures
        op.len() == 1 || (op.len() == 2 && op[1] == 'e'),
        op.len() > 0,
        op[op.len() - 1] != ':',
{
    reveal_strlit("g");
    reveal_strlit("l");
    reveal_strlit("e");
    reveal_strlit("ne");
    reveal_strlit("ge");
    reveal_strlit("le");
}

proof fn lemma_last_of_concat(a: Seq<char>, b: Seq<char>)
    requires
        b.len() > 0,
    ensures
        (a + b).len() > 0,
        (a + b)[(a + b).len() - 1] == b[b.len() - 1],
{
}

proof fn lemma_defined_name(name: Seq<char>, other: Seq<char>)
    requires
        "  "@ + name + ":"@ == "  "@ + other + ":"@,
    ensures
        name == other,
{
    reveal_strlit("  ");
    reveal_strlit(":");
    let a = "  "@ + name + ":"@;
    let b = "  "@ + other + ":"@;
    assert(a.subrange(2, a.len() - 1) =~= name);
    assert(b.subrange(2, b.len() - 1) =~= other);
}

#[verifier::rlimit(100)]
#[verifier::spinoff_prover]
proof fn lemma_code_is_lines(op: Seq<char>, label: Seq<char>)
    ensures
        comparison_code(op, label) == lines_text(comparison_lines(op, label)),
{
    let ls = comparison_lines(op, label);
    let t = true_label(op, label);
    let e = end_label(op, label);
    let z1 = e + ":\n\n"@;
    let z2 = ":\n  push 1\n  "@ + z1;
    let z3 = t + z2;
    let z4 = "\n  "@ + z3;
    let z5 = e + z4;
    let z6 = "\n  push 0\n  jmp "@ + z5;
    let z7 = t + z6;
    let z8 = " "@ + z7;
    let z9 = op + z8;
    let z10 = "\n  pop rdi\n  pop rax\n  cmp rax, rdi\n  j"@ + z9;
    let z11 = op + z10;
    let c0 = "  ; "@ + z11;
    assert(lines_text(ls.skip(10)) == "\n"@) by {
        assert(ls.skip(11) =~= Seq::<Seq<char>>::empty());
        lemma_lines_text_at(ls, 10);
        reveal_strlit("");
        assert(lines_text(ls.skip(10)) =~= "\n"@);
    };
    let c9 = "  "@ + z1;
    assert(lines_text(ls.skip(9)) == c9) by {
        lemma_lines_text_at(ls, 9);
        reveal_strlit(":");
        reveal_strlit("\n");
        reveal_strlit(":\n\n");
        assert(lines_text(ls.skip(9)) =~= c9);
    };
    let c8 = "  push 1\n"@ + c9;
    assert(lines_text(ls.skip(8)) == c8) by {
        lemma_lines_text_at(ls, 8);
        reveal_strlit("  push 1");
        reveal_strlit("\n");
        reveal_strlit("  push 1\n");
        assert(lines_text(ls.skip(8)) =~= c8);
    };
    let c7 = "  "@ + z3;
    assert(lines_text(ls.skip(7)) == c7) by {
        lemma_lines_text_at(ls, 7);
        reveal_strlit(":");
        reveal_strlit("\n");
        reveal_strlit("  push 1\n");
        reveal_strlit(":\n  push 1\n  ");
        reveal_strlit("  ");
        assert(lines_text(ls.skip(7)) =~= c7);
    };
    let c6 = "  jmp "@ + z5;
    assert(lines_text(ls.skip(6)) == c6) by {
        lemma_lines_text_at(ls, 6);
        reveal_strlit("\n");
        reveal_strlit("  ");
        reveal_strlit("\n  ");
        assert(lines_text(ls.skip(6)) =~= c6);
    };
    let c5 = "  push 0\n"@ + c6;
    assert(lines_text(ls.skip(5)) == c5) by {
        lemma_lines_text_at(ls, 5);
        reveal_strlit("  push 0");
        reveal_strlit("\n");
        reveal_strlit("  push 0\n");
        assert(lines_text(ls.skip(5)) =~= c5);
    };
    let c4 = "  j"@ + z9;
    assert(lines_text(ls.skip(4)) == c4) by {
        lemma_lines_text_at(ls, 4);
        reveal_strlit("\n");
        reveal_strlit("  push 0\n");
        reveal_strlit("  jmp ");
        reveal_strlit("\n  push 0\n  jmp ");
        assert(lines_text(ls.skip(4)) =~= c4);
    };
    let c1 = "  pop rdi\n  pop rax\n  cmp rax, rdi\n"@ + c4;
    assert(lines_text(ls.skip(1)) == c1) by {
        lemma_lines_text_at(ls, 3);
        lemma_lines_text_at(ls, 2);
        lemma_lines_text_at(ls, 1);
        reveal_strlit("\n");
        reveal_strlit("  pop rdi");
        reveal_strlit("  pop rax");
        reveal_strlit("  cmp rax, rdi");
        reveal_strlit("  pop rdi\n  pop rax\n  cmp rax, rdi\n");
        assert(lines_text(ls.skip(1)) =~= c1);
    };
    assert(lines_text(ls) == c0) by {
        lemma_lines_text_at(ls, 0);
        assert(ls.skip(0) =~= ls);
        reveal_strlit("\n");
        reveal_strlit("  j");
        reveal_strlit("  pop rdi\n  pop rax\n  cmp rax, rdi\n");
        reveal_strlit("\n  pop rdi\n  pop rax\n  cmp rax, rdi\n  j");
        assert("\n"@ + c1 =~= z10);
        assert(lines_text(ls) =~= c0);
    };
    assert(comparison_code(op, label) == c0) by {
        assert(comparison_code(op, label) =~= c0);
    };
}

/// A comparison's code is its lines: it pops the top of the stack into
/// `rdi` and the value below into `rax`, compares `rax` with `rdi`, jumps on
/// `j<op>` to its true label where it pushes 1, and otherwise pushes 0 and
/// jumps to its end label. Of its lines exactly two define a label: the
/// true label and then the end label, which differ.
pub proof fn law_comparison_code_lines(op: Seq<char>, label: Seq<char>)
    requires
        is_comparison_op(op),
        label.len() > 0,
        all_ascii_digits(label),
    ensures
        comparison_code(op, label) == lines_text(comparison_lines(op, label)),
        forall|i: int, name: Seq<char>|
            0 <= i < comparison_lines(op, label).len() ==> (#[trigger] defines_label(
                comparison_lines(op, label)[i],
                name,
            ) <==> (i == 7 && name == true_label(op, label)) || (i == 9 && name == end_label(
                op,
                label,
            ))),
        true_label(op, label) != end_label(op, label),
{
    let ls = comparison_lines(op, label);
    let t = true_label(op, label);
    let e = end_label(op, label);
    lemma_op_shape(op);
    reveal_strlit("  ; ");
    reveal_strlit(" ");
    reveal_strlit("_true_");
    reveal_strlit("_end_");
    reveal_strlit("  pop rdi");
    reveal_strlit("  pop rax");
    reveal_strlit("  cmp rax, rdi");
    reveal_strlit("  j");
    reveal_strlit("  push 0");
    reveal_strlit("  jmp ");
    reveal_strlit("  ");
    reveal_strlit(":");
    reveal_strlit("  push 1");
    reveal_strlit("");
    lemma_code_is_lines(op, label);
    // The two labels differ one character after the operation.
    assert(t[op.len() as int + 1] != e[op.len() as int + 1]);
    // Only the label lines end with a colon.
    let ld = label[label.len() - 1];
    assert(ld != ':') by {
        assert(crate::text::is_ascii_digit(ld));
    };
    assert forall|i: int, name: Seq<char>| 0 <= i < ls.len() implies (#[trigger] defines_label(
        ls[i],
        name,
    ) <==> (i == 7 && name == t) || (i == 9 && name == e)) by {
        let d = "  "@ + name + ":"@;
        lemma_last_of_concat("  "@ + name, ":"@);
        if i == 7 {
            if defines_label(ls[i], name) {
                lemma_defined_name(name, t);
            }
        } else if i == 9 {
            if defines_label(ls[i], name) {
                lemma_defined_name(name, e);
            }
        } else if defines_label(ls[i], name) {
            assert(d[d.len() - 1] == ':');
            if i == 0 {
                lemma_last_of_concat("  ; "@, op);
            } else if i == 4 {
                lemma_last_of_concat("  j"@ + op + " "@ + op + "_true_"@, label);
                assert(ls[4] == "  j"@ + op + " "@ + op + "_true_"@ + label);
            } else if i == 6 {
                lemma_last_of_concat("  jmp "@ + op + "_end_"@, label);
                assert(ls[6] == "  jmp "@ + op + "_end_"@ + label);
            } else if i == 10 {
                assert(d.len() >= 3);
            }
        }
    }
}

/// Different comparisons define different labels: a true label or an end
/// label gives back its operation and its number, and no true label is an
/// end label.
pub proof fn law_comparison_labels_distinct(
    op1: Seq<char>,
    label1: Seq<char>,
    op2: Seq<char>,
    label2: Seq<char>,
)
    requires
        is_comparison_op(op1),
        is_comparison_op(op2),
    ensures
        true_label(op1, label1) == true_label(op2, label2) ==> op1 == op2 && label1 == label2,
        end_label(op1, label1) == end_label(op2, label2) ==> op1 == op2 && label1 == label2,
        true_label(op1, label1) != end_label(op2, label2),
{
    lemma_op_shape(op1);
    lemma_op_shape(op2);
    reveal_strlit("_true_");
    reveal_strlit("_end_");
    let t1 = true_label(op1, label1);
    let t2 = true_label(op2, label2);
    let e1 = end_label(op1, label1);
    let e2 = end_label(op2, label2);
    if op1.len() == op2.len() {
        let n = op1.len() as int;
        assert(t1.take(n) =~= op1 && t2.take(n) =~= op2);
        assert(e1.take(n) =~= op1 && e2.take(n) =~= op2);
        assert(t1.skip(n + 6) =~= label1 && t2.skip(n + 6) =~= label2);
        assert(e1.skip(n + 5) =~= label1 && e2.skip(n + 5) =~= label2);
        assert(t1[n + 1] != e2[n + 1]);
    } else if op1.len() == 1 {
        assert(t1[1] != t2[1]);
        assert(e1[1] != e2[1]);
        assert(t1[1] != e2[1]);
    } else {
        assert(t1[1] != t2[1]);
        assert(e1[1] != e2[1]);
        assert(t1[1] != e2[1]);
    }
}

} // verus!
