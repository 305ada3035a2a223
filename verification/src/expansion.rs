//! The shape of macro expansion. A token list made of plain tokens and
//! definitions `macro NAME BODY... end` expands to its plain tokens, in
//! order, with every token that names a macro replaced by the macro's body.
use vstd::prelude::*;
use crate::parser::{
    MacroScan, ends_balanced, expand, initial_scan, law_balanced_macro_free_tokens_unchanged,
    law_expansion_removes_definitions, macro_expansion, scan_macros, scan_step,
    strip_definitions,
};

verus! {

/// A piece of a token list: a plain token, or a macro definition given by
/// its name and its body.
pub enum Piece {
    Token(Seq<char>),
    Definition(Seq<char>, Seq<Seq<char>>),
}

/// The tokens that a piece stands for.
pub open spec fn piece_tokens(p: Piece) -> Seq<Seq<char>> {
    match p {
        Piece::Token(t) => seq![t],
        Piece::Definition(name, body) => seq!["macro"@, name] + body + seq!["end"@],
    }
}

/// The token list made of the pieces, one after the other.
pub open spec fn flatten(ps: Seq<Piece>) -> Seq<Seq<char>>
    decreases ps.len(),
{
    if ps.len() == 0 {
        seq![]
    } else {
        piece_tokens(ps[0]) + flatten(ps.skip(1))
    }
}

/// The plain tokens, in order: everything outside the definitions.
pub open spec fn outside(ps: Seq<Piece>) -> Seq<Seq<char>>
    decreases ps.len(),
{
    if ps.len() == 0 {
        seq![]
    } else {
        match ps[0] {
            Piece::Token(t) => seq![t] + outside(ps.skip(1)),
            Piece::Definition(_, _) => outside(ps.skip(1)),
        }
    }
}

/// The macro table after reading the pieces on top of `table`: a later
/// definition of a name replaces an earlier one.
pub open spec fn definitions_from(
    table: Map<Seq<char>, Seq<Seq<char>>>,
    ps: Seq<Piece>,
) -> Map<Seq<char>, Seq<Seq<char>>>
    decreases ps.len(),
{
    if ps.len() == 0 {
        table
    } else {
        match ps[0] {
            Piece::Token(_) => definitions_from(table, ps.skip(1)),
            Piece::Definition(name, body) => definitions_from(table.insert(name, body), ps.skip(1)),
        }
    }
}

/// The macros that the pieces define.
pub open spec fn definitions(ps: Seq<Piece>) -> Map<Seq<char>, Seq<Seq<char>>> {
    definitions_from(Map::empty(), ps)
}

/// The words that open, close or define a block.
pub open spec fn is_keyword(t: Seq<char>) -> bool {
    t == "if"@ || t == "while"@ || t == "end"@ || t == "macro"@
}

/// No token is `macro`.
pub open spec fn macro_free(toks: Seq<Seq<char>>) -> bool {
    forall|i: int| 0 <= i < toks.len() ==> #[trigger] toks[i] != "macro"@
}

/// Read from depth `depth`, every `end` closes an open `if` or `while`.
pub open spec fn nests(toks: Seq<Seq<char>>, depth: int) -> bool
    decreases toks.len(),
{
    if toks.len() == 0 {
        true
    } else {
        let t = toks[0];
        if t == "if"@ || t == "while"@ {
            nests(toks.skip(1), depth + 1)
        } else if t == "end"@ {
            depth > 0 && nests(toks.skip(1), depth - 1)
        } else {
            nests(toks.skip(1), depth)
        }
    }
}

/// The depth of open blocks after the tokens, read from depth `depth`.
pub open spec fn depth_after(toks: Seq<Seq<char>>, depth: int) -> int
    decreases toks.len(),
{
    if toks.len() == 0 {
        depth
    } else {
        let t = toks[0];
        if t == "if"@ || t == "while"@ {
            depth_after(toks.skip(1), depth + 1)
        } else if t == "end"@ {
            depth_after(toks.skip(1), depth - 1)
        } else {
            depth_after(toks.skip(1), depth)
        }
    }
}

/// A macro body: no `macro` token, and every `if` and `while` closed by
/// its own `end` inside the body.
pub open spec fn closed_block(body: Seq<Seq<char>>) -> bool {
    macro_free(body) && nests(body, 0) && depth_after(body, 0) == 0
}

/// Every name of the table is an ordinary word and every body is closed.
pub open spec fn bodies_closed(table: Map<Seq<char>, Seq<Seq<char>>>) -> bool {
    forall|k: Seq<char>| #[trigger]
        table.contains_key(k) ==> !is_keyword(k) && closed_block(table[k])
}

/// Read from depth `depth`: no plain token is `macro`, every plain `end`
/// closes an open `if` or `while`, and every definition stands outside any
/// open block, has an ordinary word as its name and a closed body.
pub open spec fn well_formed_pieces(ps: Seq<Piece>, depth: int) -> bool
    decreases ps.len(),
{
    if ps.len() == 0 {
        true
    } else {
        match ps[0] {
            Piece::Token(t) => t != "macro"@ && if t == "if"@ || t == "while"@ {
                well_formed_pieces(ps.skip(1), depth + 1)
            } else if t == "end"@ {
                depth > 0 && well_formed_pieces(ps.skip(1), depth - 1)
            } else {
                well_formed_pieces(ps.skip(1), depth)
            },
            Piece::Definition(name, body) => depth == 0 && !is_keyword(name) && closed_block(body)
                && well_formed_pieces(ps.skip(1), 0),
        }
    }
}

proof fn lemma_keywords_distinct()
    ensures
        "macro"@ != "if"@,
        "macro"@ != "while"@,
        "macro"@ != "end"@,
        "end"@ != "if"@,
        "end"@ != "while"@,
{
    reveal_strlit("macro");
    reveal_strlit("if");
    reveal_strlit("while");
    reveal_strlit("end");
    assert("macro"@.len() != "if"@.len());
    assert("macro"@[0] != "while"@[0]);
    assert("macro"@.len() != "end"@.len());
    assert("end"@.len() != "if"@.len());
    assert("end"@[0] != "while"@[0]);
}

proof fn lemma_single(t: Seq<char>)
    ensures
        seq![t].len() == 1,
        seq![t][0] == t,
        seq![t].skip(1) == Seq::<Seq<char>>::empty(),
{
    assert(seq![t].skip(1) =~= Seq::<Seq<char>>::empty());
}

proof fn lemma_cons_skip(t: Seq<char>, rest: Seq<Seq<char>>)
    ensures
        (seq![t] + rest)[0] == t,
        (seq![t] + rest).skip(1) == rest,
        (seq![t] + rest).len() == rest.len() + 1,
{
    assert((seq![t] + rest).skip(1) =~= rest);
}

proof fn lemma_concat_skip(a: Seq<Seq<char>>, b: Seq<Seq<char>>)
    requires
        a.len() > 0,
    ensures
        (a + b)[0] == a[0],
        (a + b).skip(1) == a.skip(1) + b,
{
    assert((a + b).skip(1) =~= a.skip(1) + b);
}

proof fn lemma_nests_concat(a: Seq<Seq<char>>, b: Seq<Seq<char>>, d: int)
    ensures
        nests(a + b, d) == (nests(a, d) && nests(b, depth_after(a, d))),
        depth_after(a + b, d) == depth_after(b, depth_after(a, d)),
    decreases a.len(),
{
    if a.len() == 0 {
        assert(a + b =~= b);
    } else {
        lemma_concat_skip(a, b);
        let t = a[0];
        if t == "if"@ || t == "while"@ {
            lemma_nests_concat(a.skip(1), b, d + 1);
        } else if t == "end"@ {
            lemma_nests_concat(a.skip(1), b, d - 1);
        } else {
            lemma_nests_concat(a.skip(1), b, d);
        }
    }
}

proof fn lemma_depth_shift(a: Seq<Seq<char>>, d: int, e: int)
    ensures
        depth_after(a, e) == depth_after(a, d) + (e - d),
    decreases a.len(),
{
    if a.len() > 0 {
        let t = a[0];
        if t == "if"@ || t == "while"@ {
            lemma_depth_shift(a.skip(1), d + 1, e + 1);
        } else if t == "end"@ {
            lemma_depth_shift(a.skip(1), d - 1, e - 1);
        } else {
            lemma_depth_shift(a.skip(1), d, e);
        }
    }
}

proof fn lemma_nests_shift(a: Seq<Seq<char>>, d: int, e: int)
    requires
        nests(a, d),
        d <= e,
    ensures
        nests(a, e),
        depth_after(a, e) == depth_after(a, d) + (e - d),
    decreases a.len(),
{
    lemma_depth_shift(a, d, e);
    if a.len() > 0 {
        let t = a[0];
        if t == "if"@ || t == "while"@ {
            lemma_nests_shift(a.skip(1), d + 1, e + 1);
        } else if t == "end"@ {
            lemma_nests_shift(a.skip(1), d - 1, e - 1);
        } else {
            lemma_nests_shift(a.skip(1), d, e);
        }
    }
}

proof fn lemma_expand_concat(
    a: Seq<Seq<char>>,
    b: Seq<Seq<char>>,
    table: Map<Seq<char>, Seq<Seq<char>>>,
)
    ensures
        expand(a + b, table) == expand(a, table) + expand(b, table),
    decreases a.len(),
{
    if a.len() == 0 {
        assert(a + b =~= b);
        assert(expand(a, table) + expand(b, table) =~= expand(b, table));
    } else {
        lemma_concat_skip(a, b);
        lemma_expand_concat(a.skip(1), b, table);
        let head = if table.contains_key(a[0]) {
            table[a[0]]
        } else {
            seq![a[0]]
        };
        assert(head + (expand(a.skip(1), table) + expand(b, table)) =~= (head + expand(
            a.skip(1),
            table,
        )) + expand(b, table));
    }
}

proof fn lemma_expand_single(t: Seq<char>, table: Map<Seq<char>, Seq<Seq<char>>>)
    ensures
        expand(seq![t], table) == (if table.contains_key(t) {
            table[t]
        } else {
            seq![t]
        }),
{
    lemma_cons_skip(t, seq![]);
    assert(seq![t] + Seq::<Seq<char>>::empty() =~= seq![t]);
    let head = if table.contains_key(t) {
        table[t]
    } else {
        seq![t]
    };
    assert(expand(seq![t].skip(1), table) == Seq::<Seq<char>>::empty());
    assert(head + Seq::<Seq<char>>::empty() =~= head);
}

proof fn lemma_expand_depth(x: Seq<Seq<char>>, table: Map<Seq<char>, Seq<Seq<char>>>, d: int)
    requires
        bodies_closed(table),
    ensures
        depth_after(expand(x, table), d) == depth_after(x, d),
    decreases x.len(),
{
    if x.len() > 0 {
        let t = x[0];
        let rest = x.skip(1);
        let head = if table.contains_key(t) {
            table[t]
        } else {
            seq![t]
        };
        assert(expand(x, table) == head + expand(rest, table));
        lemma_nests_concat(head, expand(rest, table), d);
        lemma_single(t);
        if table.contains_key(t) {
            assert(!is_keyword(t) && closed_block(head));
            lemma_depth_shift(head, 0, d);
            lemma_expand_depth(rest, table, d);
            assert(depth_after(head, d) == d);
            assert(depth_after(x, d) == depth_after(rest, d));
        } else if t == "if"@ || t == "while"@ {
            lemma_expand_depth(rest, table, d + 1);
            assert(depth_after(head.skip(1), d + 1) == d + 1);
            assert(depth_after(head, d) == d + 1);
        } else if t == "end"@ {
            lemma_expand_depth(rest, table, d - 1);
            assert(depth_after(head.skip(1), d - 1) == d - 1);
            assert(depth_after(head, d) == d - 1);
        } else {
            lemma_expand_depth(rest, table, d);
            assert(depth_after(head.skip(1), d) == d);
            assert(depth_after(head, d) == d);
        }
    }
}

/// Replacing uses by closed bodies changes neither the nesting nor the final
/// depth, and brings in no `macro` token.
proof fn lemma_expand_nests(x: Seq<Seq<char>>, table: Map<Seq<char>, Seq<Seq<char>>>, d: int)
    requires
        bodies_closed(table),
        d >= 0,
    ensures
        nests(expand(x, table), d) == nests(x, d),
        depth_after(expand(x, table), d) == depth_after(x, d),
        macro_free(x) ==> macro_free(expand(x, table)),
    decreases x.len(),
{
    if x.len() > 0 {
        let t = x[0];
        let rest = x.skip(1);
        let head = if table.contains_key(t) {
            table[t]
        } else {
            seq![t]
        };
        assert(expand(x, table) == head + expand(rest, table));
        lemma_nests_concat(head, expand(rest, table), d);
        lemma_single(t);
        lemma_expand_depth(x, table, d);
        if table.contains_key(t) {
            assert(!is_keyword(t) && closed_block(head));
            lemma_nests_shift(head, 0, d);
            lemma_expand_nests(rest, table, d);
            assert(nests(head, d) && depth_after(head, d) == d);
            assert(nests(x, d) == nests(rest, d));
        } else if t == "if"@ || t == "while"@ {
            lemma_expand_nests(rest, table, d + 1);
            assert(nests(head.skip(1), d + 1) && depth_after(head.skip(1), d + 1) == d + 1);
            assert(nests(head, d) && depth_after(head, d) == d + 1);
        } else if t == "end"@ && d > 0 {
            lemma_expand_nests(rest, table, d - 1);
            assert(nests(head.skip(1), d - 1) && depth_after(head.skip(1), d - 1) == d - 1);
            assert(nests(head, d) && depth_after(head, d) == d - 1);
        } else if t == "end"@ {
            assert(!nests(head, d));
            assert(!nests(x, d));
        } else {
            lemma_expand_nests(rest, table, d);
            assert(nests(head.skip(1), d) && depth_after(head.skip(1), d) == d);
            assert(nests(head, d) && depth_after(head, d) == d);
        }
        if macro_free(x) {
            assert(x[0] != "macro"@);
            assert forall|i: int| 0 <= i < rest.len() implies #[trigger] rest[i] != "macro"@ by {
                assert(rest[i] == x[i + 1]);
            }
            lemma_expand_nests(rest, table, d);
            let e = head + expand(rest, table);
            assert forall|i: int| 0 <= i < e.len() implies #[trigger] e[i] != "macro"@ by {
                if i < head.len() {
                    assert(e[i] == head[i]);
                    if table.contains_key(t) {
                        assert(macro_free(table[t]));
                        assert(head[i] != "macro"@);
                    }
                } else {
                    assert(e[i] == expand(rest, table)[i - head.len()]);
                }
            }
        }
    }
}

/// Inside a definition, the first pass collects a body that nests without
/// closing the definition.
proof fn lemma_scan_in_definition(x: Seq<Seq<char>>, y: Seq<Seq<char>>, st: MacroScan)
    requires
        st.in_macro,
        macro_free(x),
        nests(x, st.depth),
        st.depth >= 0,
        st.depth + x.len() < i32::MAX,
    ensures
        scan_macros(x + y, st) == scan_macros(
            y,
            MacroScan { depth: depth_after(x, st.depth), current: st.current + x, ..st },
        ),
    decreases x.len(),
{
    if x.len() == 0 {
        assert(x + y =~= y);
        assert(st.current + x =~= st.current);
        assert(MacroScan { depth: depth_after(x, st.depth), current: st.current + x, ..st } == st);
    } else {
        lemma_concat_skip(x, y);
        let t = x[0];
        assert(t != "macro"@);
        let d2 = if t == "if"@ || t == "while"@ {
            st.depth + 1
        } else if t == "end"@ {
            st.depth - 1
        } else {
            st.depth
        };
        let s2 = MacroScan { depth: d2, current: st.current.push(t), ..st };
        assert(scan_step(st, t) == Some(s2));
        assert forall|i: int| 0 <= i < x.skip(1).len() implies #[trigger] x.skip(1)[i]
            != "macro"@ by {
            assert(x.skip(1)[i] == x[i + 1]);
        }
        lemma_scan_in_definition(x.skip(1), y, s2);
        assert(st.current.push(t) + x.skip(1) =~= st.current + x);
    }
}

/// Outside a definition, a stretch that nests is kept as it is.
proof fn lemma_strip_keep(x: Seq<Seq<char>>, y: Seq<Seq<char>>, d: int)
    requires
        macro_free(x),
        nests(x, d),
        d >= 0,
        d + x.len() < i32::MAX,
    ensures
        strip_definitions(x + y, false, d) == (match strip_definitions(
            y,
            false,
            depth_after(x, d),
        ) {
            Some(r) => Some(x + r),
            None => None,
        }),
    decreases x.len(),
{
    if x.len() == 0 {
        assert(x + y =~= y);
        if let Some(r) = strip_definitions(y, false, d) {
            assert(x + r =~= r);
        }
    } else {
        lemma_concat_skip(x, y);
        let t = x[0];
        assert(t != "macro"@);
        let d2 = if t == "if"@ || t == "while"@ {
            d + 1
        } else if t == "end"@ {
            d - 1
        } else {
            d
        };
        assert forall|i: int| 0 <= i < x.skip(1).len() implies #[trigger] x.skip(1)[i]
            != "macro"@ by {
            assert(x.skip(1)[i] == x[i + 1]);
        }
        lemma_strip_keep(x.skip(1), y, d2);
        if let Some(r) = strip_definitions(y, false, depth_after(x, d)) {
            assert(seq![t] + (x.skip(1) + r) =~= x + r);
        }
    }
}

/// Inside a definition, a stretch that nests is dropped without closing
/// the definition.
proof fn lemma_strip_skip(x: Seq<Seq<char>>, y: Seq<Seq<char>>, d: int)
    requires
        nests(x, d),
        d >= 0,
        d + x.len() < i32::MAX,
    ensures
        strip_definitions(x + y, true, d) == strip_definitions(y, true, depth_after(x, d)),
    decreases x.len(),
{
    if x.len() == 0 {
        assert(x + y =~= y);
    } else {
        lemma_concat_skip(x, y);
        let t = x[0];
        let d2 = if t == "if"@ || t == "while"@ {
            d + 1
        } else if t == "end"@ {
            d - 1
        } else {
            d
        };
        lemma_strip_skip(x.skip(1), y, d2);
        if let Some(r) = strip_definitions(y, true, depth_after(x, d)) {
            assert(Seq::<Seq<char>>::empty() + r =~= r);
        }
    }
}

proof fn lemma_flatten_cons(ps: Seq<Piece>)
    requires
        ps.len() > 0,
    ensures
        flatten(ps) == piece_tokens(ps[0]) + flatten(ps.skip(1)),
        flatten(ps).len() == piece_tokens(ps[0]).len() + flatten(ps.skip(1)).len(),
{
}

/// The first pass over well-formed pieces succeeds outside any definition
/// and collects exactly their definitions.
proof fn lemma_scan_pieces(ps: Seq<Piece>, st: MacroScan)
    requires
        well_formed_pieces(ps, st.depth),
        !st.in_macro,
        st.current.len() == 0,
        st.depth >= 0,
        st.depth + flatten(ps).len() < i32::MAX,
    ensures
        scan_macros(flatten(ps), st) matches Some(s) && s.table == definitions_from(st.table, ps),
    decreases ps.len(),
{
    if ps.len() > 0 {
        lemma_flatten_cons(ps);
        let rest = flatten(ps.skip(1));
        match ps[0] {
            Piece::Token(t) => {
                lemma_cons_skip(t, rest);
                let d2 = if t == "if"@ || t == "while"@ {
                    st.depth + 1
                } else if t == "end"@ {
                    st.depth - 1
                } else {
                    st.depth
                };
                let s2 = MacroScan { depth: d2, ..st };
                assert(scan_step(st, t) == Some(s2));
                lemma_scan_pieces(ps.skip(1), s2);
                assert(scan_macros(flatten(ps), st) == scan_macros(rest, s2));
            },
            Piece::Definition(name, body) => {
                let tail = seq!["end"@] + rest;
                assert(flatten(ps) =~= seq!["macro"@] + (seq![name] + (body + tail)));
                lemma_cons_skip("macro"@, seq![name] + (body + tail));
                let s1 = MacroScan { in_macro: true, current: seq!["macro"@], ..st };
                assert(scan_step(st, "macro"@) == Some(s1));
                lemma_cons_skip(name, body + tail);
                let s2 = MacroScan { current: seq!["macro"@, name], ..s1 };
                assert(seq!["macro"@].push(name) =~= seq!["macro"@, name]);
                assert(scan_step(s1, name) == Some(s2));
                lemma_scan_in_definition(body, tail, s2);
                let s3 = MacroScan { depth: 0, current: seq!["macro"@, name] + body, ..s2 };
                lemma_cons_skip("end"@, rest);
                lemma_keywords_distinct();
                assert(s3.current[1] == name);
                assert(s3.current.skip(2) =~= body);
                let s4 = MacroScan {
                    in_macro: false,
                    depth: 0,
                    current: seq![],
                    table: st.table.insert(name, body),
                };
                assert(scan_step(s3, "end"@) == Some(s4));
                lemma_scan_pieces(ps.skip(1), s4);
                assert(scan_macros(tail, s3) == scan_macros(rest, s4));
                assert(scan_macros(body + tail, s2) == scan_macros(tail, s3));
                assert(scan_macros(seq![name] + (body + tail), s1) == scan_macros(body + tail, s2));
                assert(scan_macros(flatten(ps), st) == scan_macros(seq![name] + (body + tail), s1));
            },
        }
    }
}

/// The second and third passes over well-formed pieces: the expanded
/// definitions are dropped and the expanded plain tokens kept.
proof fn lemma_strip_pieces(ps: Seq<Piece>, table: Map<Seq<char>, Seq<Seq<char>>>, d: int)
    requires
        bodies_closed(table),
        well_formed_pieces(ps, d),
        d >= 0,
        d + expand(flatten(ps), table).len() < i32::MAX,
    ensures
        strip_definitions(expand(flatten(ps), table), false, d) == Some(
            expand(outside(ps), table),
        ),
    decreases ps.len(),
{
    if ps.len() == 0 {
        assert(expand(flatten(ps), table) =~= Seq::<Seq<char>>::empty());
    } else {
        lemma_flatten_cons(ps);
        let rest = flatten(ps.skip(1));
        let erest = expand(rest, table);
        match ps[0] {
            Piece::Token(t) => {
                lemma_expand_concat(seq![t], rest, table);
                lemma_expand_single(t, table);
                let head = expand(seq![t], table);
                lemma_expand_nests(seq![t], table, d);
                lemma_expand_depth(seq![t], table, d);
                lemma_single(t);
                assert(macro_free(seq![t]));
                let d1 = if t == "if"@ || t == "while"@ {
                    d + 1
                } else if t == "end"@ {
                    d - 1
                } else {
                    d
                };
                assert(nests(seq![t].skip(1), d1) && depth_after(seq![t].skip(1), d1) == d1);
                assert(nests(seq![t], d) && depth_after(seq![t], d) == d1);
                let d2 = depth_after(head, d);
                assert(d2 == d1);
                // The depth grows by at most one per token kept.
                assert(head.len() >= 1 || d1 == d) by {
                    if !table.contains_key(t) {
                        assert(head == seq![t]);
                    } else {
                        assert(!is_keyword(t));
                    }
                };
                lemma_strip_keep(head, erest, d);
                lemma_strip_pieces(ps.skip(1), table, d2);
                assert(outside(ps) == seq![t] + outside(ps.skip(1)));
                lemma_expand_concat(seq![t], outside(ps.skip(1)), table);
            },
            Piece::Definition(name, body) => {
                let core = seq![name] + body;
                assert(piece_tokens(ps[0]) =~= seq!["macro"@] + (core + seq!["end"@]));
                lemma_expand_concat(seq!["macro"@], core + seq!["end"@], table);
                lemma_expand_concat(core, seq!["end"@], table);
                lemma_expand_concat(piece_tokens(ps[0]), rest, table);
                lemma_expand_single("macro"@, table);
                lemma_expand_single("end"@, table);
                assert(!table.contains_key("macro"@));
                assert(!table.contains_key("end"@));
                let x = expand(core, table);
                let tail = seq!["end"@] + erest;
                assert(expand(flatten(ps), table) =~= seq!["macro"@] + (x + tail));
                lemma_keywords_distinct();
                lemma_cons_skip(name, body);
                assert(nests(core, 0) && depth_after(core, 0) == 0) by {
                    lemma_nests_concat(seq![name], body, 0);
                    lemma_single(name);
                };
                lemma_expand_nests(core, table, 0);
                lemma_expand_depth(core, table, 0);
                lemma_strip_skip(x, tail, 0);
                lemma_cons_skip("end"@, erest);
                lemma_strip_pieces(ps.skip(1), table, 0);
                let out = expand(outside(ps.skip(1)), table);
                assert(Seq::<Seq<char>>::empty() + out =~= out);
                assert(strip_definitions(tail, true, 0) == Some(out));
                assert(strip_definitions(x + tail, true, 0) == Some(out));
                lemma_cons_skip("macro"@, x + tail);
                assert(strip_definitions(seq!["macro"@] + (x + tail), false, 0) == Some(out));
            },
        }
    }
}

proof fn lemma_definitions_closed(table: Map<Seq<char>, Seq<Seq<char>>>, ps: Seq<Piece>, d: int)
    requires
        bodies_closed(table),
        well_formed_pieces(ps, d),
    ensures
        bodies_closed(definitions_from(table, ps)),
    decreases ps.len(),
{
    if ps.len() > 0 {
        match ps[0] {
            Piece::Token(t) => {
                let d2 = if t == "if"@ || t == "while"@ {
                    d + 1
                } else if t == "end"@ {
                    d - 1
                } else {
                    d
                };
                lemma_definitions_closed(table, ps.skip(1), d2);
            },
            Piece::Definition(name, body) => {
                let t2 = table.insert(name, body);
                assert forall|k: Seq<char>| #[trigger] t2.contains_key(k) implies !is_keyword(k)
                    && closed_block(t2[k]) by {
                    if k != name {
                        assert(table.contains_key(k));
                    }
                }
                lemma_definitions_closed(t2, ps.skip(1), 0);
            },
        }
    }
}

/// Macro expansion of a token list made of plain tokens and definitions
/// `macro NAME BODY... end` — each definition outside any open block, named
/// by an ordinary word, with a body free of `macro` that closes each of its
/// own blocks, and every plain `end` closing an open block — succeeds, and
/// gives the plain tokens in order with every token that names a macro
/// replaced by the body of its last definition (bodies are not expanded
/// again). The only other condition is the machine limit: the token list
/// and its expansion hold fewer than `i32::MAX` tokens.
pub proof fn law_expansion_of_definitions(ps: Seq<Piece>)
    requires
        well_formed_pieces(ps, 0),
        flatten(ps).len() < i32::MAX,
        expand(flatten(ps), definitions(ps)).len() < i32::MAX,
    ensures
        macro_expansion(flatten(ps)) == Some(expand(outside(ps), definitions(ps))),
{
    lemma_scan_pieces(ps, initial_scan());
    lemma_definitions_closed(Map::empty(), ps, 0);
    lemma_strip_pieces(ps, definitions(ps), 0);
}

proof fn lemma_outside_nests(ps: Seq<Piece>, d: int)
    requires
        well_formed_pieces(ps, d),
        d >= 0,
    ensures
        nests(outside(ps), d),
    decreases ps.len(),
{
    if ps.len() > 0 {
        match ps[0] {
            Piece::Token(t) => {
                lemma_cons_skip(t, outside(ps.skip(1)));
                if t == "if"@ || t == "while"@ {
                    lemma_outside_nests(ps.skip(1), d + 1);
                } else if t == "end"@ {
                    lemma_outside_nests(ps.skip(1), d - 1);
                } else {
                    lemma_outside_nests(ps.skip(1), d);
                }
            },
            Piece::Definition(_, _) => {
                lemma_outside_nests(ps.skip(1), 0);
            },
        }
    }
}

proof fn lemma_outside_shorter(ps: Seq<Piece>, table: Map<Seq<char>, Seq<Seq<char>>>)
    ensures
        expand(outside(ps), table).len() <= expand(flatten(ps), table).len(),
    decreases ps.len(),
{
    if ps.len() > 0 {
        lemma_flatten_cons(ps);
        lemma_outside_shorter(ps.skip(1), table);
        lemma_expand_concat(piece_tokens(ps[0]), flatten(ps.skip(1)), table);
        match ps[0] {
            Piece::Token(t) => {
                lemma_expand_concat(seq![t], outside(ps.skip(1)), table);
            },
            Piece::Definition(_, _) => {},
        }
    }
}

proof fn lemma_nests_balanced(toks: Seq<Seq<char>>, d: int)
    requires
        nests(toks, d),
        d >= 0,
        d + toks.len() < i32::MAX,
    ensures
        ends_balanced(toks, d),
    decreases toks.len(),
{
    if toks.len() > 0 {
        let t = toks[0];
        if t == "if"@ || t == "while"@ {
            lemma_nests_balanced(toks.skip(1), d + 1);
        } else if t == "end"@ {
            lemma_nests_balanced(toks.skip(1), d - 1);
        } else {
            lemma_nests_balanced(toks.skip(1), d);
        }
    }
}

/// For the token lists of `law_expansion_of_definitions`, expanding the
/// result once more gives it back unchanged.
pub proof fn law_expansion_of_definitions_is_idempotent(ps: Seq<Piece>)
    requires
        well_formed_pieces(ps, 0),
        flatten(ps).len() < i32::MAX,
        expand(flatten(ps), definitions(ps)).len() < i32::MAX,
    ensures
        macro_expansion(expand(outside(ps), definitions(ps))) == Some(
            expand(outside(ps), definitions(ps)),
        ),
{
    let table = definitions(ps);
    let out = expand(outside(ps), table);
    law_expansion_of_definitions(ps);
    lemma_definitions_closed(Map::empty(), ps, 0);
    lemma_outside_nests(ps, 0);
    lemma_expand_nests(outside(ps), table, 0);
    lemma_outside_shorter(ps, table);
    lemma_nests_balanced(out, 0);
    assert forall|i: int| 0 <= i < out.len() implies #[trigger] out[i] != "macro"@ by {
        law_expansion_removes_definitions(flatten(ps), i);
    }
    law_balanced_macro_free_tokens_unchanged(out);
}

} // verus!
