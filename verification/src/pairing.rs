//! How block openings and closings pair up in the commands of a token
//! list: every label is opened at most once and closed at most once, never
//! closed before it is opened, and, once no block is left open, closed
//! exactly as often as it is opened.
use vstd::prelude::*;
use crate::instructions::{CommandView, Commands};
use crate::parser::{law_end_closes_innermost_block, law_labels_distinct, open_blocks_from, parsed_commands};

verus! {

/// `If` and `While` open a block.
pub open spec fn is_opening(c: Commands) -> bool {
    c == Commands::If || c == Commands::While
}

/// `EndIf` and `EndWhile` close a block.
pub open spec fn is_closing(c: Commands) -> bool {
    c == Commands::EndIf || c == Commands::EndWhile
}

/// Whether a command closes (`closing`) or opens (`!closing`) a block with
/// label `n`.
pub open spec fn block_with_label(c: CommandView, closing: bool, n: Seq<char>) -> bool {
    (if closing {
        is_closing(c.0)
    } else {
        is_opening(c.0)
    }) && c.1[0] == n
}

/// The number of commands that close (`closing`) or open (`!closing`) a
/// block with label `n`.
pub open spec fn count_blocks(cs: Seq<CommandView>, closing: bool, n: Seq<char>) -> nat
    decreases cs.len(),
{
    if cs.len() == 0 {
        0
    } else {
        count_blocks(cs.drop_last(), closing, n) + if block_with_label(cs.last(), closing, n) {
            1nat
        } else {
            0nat
        }
    }
}

/// Some open block has label `n`.
pub open spec fn is_open(blocks: Seq<(bool, Seq<char>)>, n: Seq<char>) -> bool {
    exists|a: int| 0 <= a < blocks.len() && (#[trigger] blocks[a]).1 == n
}

/// No two open blocks share a label.
pub open spec fn distinct_labels(blocks: Seq<(bool, Seq<char>)>) -> bool {
    forall|a: int, b: int|
        0 <= a < b < blocks.len() ==> (#[trigger] blocks[a]).1 != (#[trigger] blocks[b]).1
}

proof fn lemma_count_witness(cs: Seq<CommandView>, closing: bool, n: Seq<char>)
    requires
        count_blocks(cs, closing, n) > 0,
    ensures
        exists|i: int| 0 <= i < cs.len() && block_with_label(#[trigger] cs[i], closing, n),
    decreases cs.len(),
{
    if block_with_label(cs.last(), closing, n) {
        assert(block_with_label(cs[cs.len() - 1], closing, n));
    } else {
        lemma_count_witness(cs.drop_last(), closing, n);
        let i = choose|i: int|
            0 <= i < cs.drop_last().len() && block_with_label(
                #[trigger] cs.drop_last()[i],
                closing,
                n,
            );
        assert(cs[i] == cs.drop_last()[i]);
    }
}

/// The invariant of the replay of the first `k` commands: the open blocks
/// have distinct labels, each label is opened at most once, and a label is
/// opened as often as it is closed plus one if it is still open.
proof fn lemma_pairing_prefix(toks: Seq<Seq<char>>, k: int)
    requires
        0 <= k <= parsed_commands(toks).0.len(),
    ensures
        ({
            let cs = parsed_commands(toks).0.take(k);
            let open = open_blocks_from(seq![], cs);
            &&& distinct_labels(open)
            &&& forall|n: Seq<char>|
                #![trigger count_blocks(cs, false, n)]
                count_blocks(cs, false, n) <= 1 && (if is_open(open, n) {
                    1nat
                } else {
                    0nat
                }) + count_blocks(cs, true, n) == count_blocks(cs, false, n)
        }),
    decreases k,
{
    let all = parsed_commands(toks).0;
    let cs = all.take(k);
    let open = open_blocks_from(seq![], cs);
    if k == 0 {
        assert(cs =~= Seq::<CommandView>::empty());
        assert forall|n: Seq<char>| #![trigger count_blocks(cs, false, n)] !is_open(open, n) by {}
    } else {
        lemma_pairing_prefix(toks, k - 1);
        let prev = all.take(k - 1);
        let before = open_blocks_from(seq![], prev);
        let c = all[k - 1];
        assert(cs.drop_last() =~= prev);
        assert(cs.last() == c);
        let m = c.1[0];
        if is_opening(c.0) {
            let w = c.0 == Commands::While;
            assert(open == before.push((w, m)));
            // The label is fresh: an earlier opening with it would share it.
            assert(count_blocks(prev, false, m) == 0) by {
                if count_blocks(prev, false, m) > 0 {
                    lemma_count_witness(prev, false, m);
                    let i = choose|i: int|
                        0 <= i < prev.len() && block_with_label(#[trigger] prev[i], false, m);
                    assert(prev[i] == all[i]);
                    law_labels_distinct(toks, i, k - 1);
                }
            };
            assert(!is_open(before, m));
            assert forall|a: int, b: int| 0 <= a < b < open.len() implies (#[trigger] open[a]).1
                != (#[trigger] open[b]).1 by {
                if b == open.len() - 1 {
                    assert(open[a] == before[a]);
                } else {
                    assert(open[a] == before[a] && open[b] == before[b]);
                }
            }
            assert forall|n: Seq<char>| #![trigger count_blocks(cs, false, n)]
                count_blocks(cs, false, n) <= 1 && (if is_open(open, n) {
                    1nat
                } else {
                    0nat
                }) + count_blocks(cs, true, n) == count_blocks(cs, false, n) by {
                assert(count_blocks(prev, false, n) <= 1);
                if n == m {
                    assert(open[open.len() - 1].1 == m);
                } else {
                    if is_open(open, n) {
                        let a = choose|a: int| 0 <= a < open.len() && (#[trigger] open[a]).1 == n;
                        assert(open[a] == before[a]);
                    }
                    if is_open(before, n) {
                        let a = choose|a: int| 0 <= a < before.len() && (#[trigger] before[a]).1
                            == n;
                        assert(open[a] == before[a]);
                    }
                }
            }
        } else if is_closing(c.0) {
            law_end_closes_innermost_block(toks, k - 1);
            assert(all.take(k - 1) == prev);
            assert(before.len() > 0 && before.last().1 == m);
            assert(open == before.drop_last());
            assert forall|a: int, b: int| 0 <= a < b < open.len() implies (#[trigger] open[a]).1
                != (#[trigger] open[b]).1 by {
                assert(open[a] == before[a] && open[b] == before[b]);
            }
            assert forall|n: Seq<char>| #![trigger count_blocks(cs, false, n)]
                count_blocks(cs, false, n) <= 1 && (if is_open(open, n) {
                    1nat
                } else {
                    0nat
                }) + count_blocks(cs, true, n) == count_blocks(cs, false, n) by {
                assert(count_blocks(prev, false, n) <= 1);
                let top = before.len() - 1;
                assert(before[top].1 == m);
                if n == m {
                    assert(is_open(before, m));
                    if is_open(open, m) {
                        let a = choose|a: int| 0 <= a < open.len() && (#[trigger] open[a]).1 == m;
                        assert(open[a] == before[a]);
                        assert(before[a].1 != before[top].1);
                    }
                } else {
                    if is_open(open, n) {
                        let a = choose|a: int| 0 <= a < open.len() && (#[trigger] open[a]).1 == n;
                        assert(open[a] == before[a]);
                    }
                    if is_open(before, n) {
                        let a = choose|a: int| 0 <= a < before.len() && (#[trigger] before[a]).1
                            == n;
                        assert(a != top);
                        assert(open[a] == before[a]);
                    }
                }
            }
        } else {
            assert(open == before);
            assert forall|n: Seq<char>| #![trigger count_blocks(cs, false, n)]
                count_blocks(cs, false, n) <= 1 && (if is_open(open, n) {
                    1nat
                } else {
                    0nat
                }) + count_blocks(cs, true, n) == count_blocks(cs, false, n) by {
                assert(count_blocks(prev, false, n) <= 1);
            }
        }
    }
}

/// Block openings and closings pair up by label: each label is opened by
/// at most one `If` or `While`, and closed at most as often as it is
/// opened, so at most once; when no block is left open after the commands
/// (every `if` and `while` has its `end`), every opening has exactly one
/// closing with its label and every closing exactly one opening.
pub proof fn law_blocks_pair_up(toks: Seq<Seq<char>>, n: Seq<char>)
    ensures
        ({
            let cs = parsed_commands(toks).0;
            &&& count_blocks(cs, false, n) <= 1
            &&& count_blocks(cs, true, n) <= count_blocks(cs, false, n)
            &&& open_blocks_from(seq![], cs).len() == 0 ==> count_blocks(cs, true, n)
                == count_blocks(cs, false, n)
        }),
{
    let cs = parsed_commands(toks).0;
    lemma_pairing_prefix(toks, cs.len() as int);
    assert(cs.take(cs.len() as int) =~= cs);
    assert(count_blocks(cs, false, n) <= 1);
}

} // verus!
