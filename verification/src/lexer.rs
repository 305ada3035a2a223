//! Splitting a source file into tokens.
//!
//! Carriage returns are dropped, tabs become spaces and `//` becomes `#`;
//! everything from a `#` to the end of its line is a comment. Tokens are then
//! separated by spaces and newlines, except inside double quotes.
use vstd::prelude::*;
use crate::text::{char_views, chars_of, replace_all, replace_all_chars, strings_of, views};

verus! {

/// The file after the three textual replacements that precede comment
/// removal: `"\r"` by nothing, `"\t"` by `" "`, then `"//"` by `"#"`.
pub open spec fn normalized(file: Seq<char>) -> Seq<char> {
    replace_all(
        replace_all(replace_all(file, seq!['\r'], seq![]), seq!['\t'], seq![' ']),
        seq!['/', '/'],
        seq!['#'],
    )
}

/// The characters of `s` that lie outside comments, where a comment runs from
/// a `#` up to (not including) the next newline; `in_comment` says whether
/// `s` starts inside one.
pub open spec fn strip_comments(s: Seq<char>, in_comment: bool) -> Seq<char>
    decreases s.len(),
{
    if s.len() == 0 {
        seq![]
    } else {
        let c = s[0];
        let ic = if c == '\n' {
            false
        } else if c == '#' {
            true
        } else {
            in_comment
        };
        (if ic {
            seq![]
        } else {
            seq![c]
        }) + strip_comments(s.skip(1), ic)
    }
}

/// The tokens of `s`, given the token read so far and whether a string
/// literal is open. A double quote toggles the string state and belongs to
/// the token; spaces and newlines outside strings end the current token.
pub open spec fn tokenize(s: Seq<char>, token: Seq<char>, inside: bool) -> Seq<Seq<char>>
    decreases s.len(),
{
    if s.len() == 0 {
        if token.len() > 0 {
            seq![token]
        } else {
            seq![]
        }
    } else {
        let c = s[0];
        let rest = s.skip(1);
        if c == '"' {
            tokenize(rest, token.push(c), !inside)
        } else if inside || (c != ' ' && c != '\n') {
            tokenize(rest, token.push(c), inside)
        } else if token.len() > 0 {
            seq![token] + tokenize(rest, seq![], inside)
        } else {
            tokenize(rest, seq![], inside)
        }
    }
}

/// The tokens of a source file.
pub open spec fn lexed(file: Seq<char>) -> Seq<Seq<char>> {
    tokenize(strip_comments(normalized(file), false), seq![], false)
}

/// The sequence holds no occurrence of `x`.
pub open spec fn lacks(s: Seq<char>, x: char) -> bool {
    forall|i: int| 0 <= i < s.len() ==> #[trigger] s[i] != x
}

proof fn lemma_lacks_concat(a: Seq<char>, b: Seq<char>, x: char)
    ensures
        lacks(a + b, x) <==> (lacks(a, x) && lacks(b, x)),
{
    if lacks(a + b, x) {
        assert forall|i: int| 0 <= i < a.len() implies #[trigger] a[i] != x by {
            assert((a + b)[i] == a[i]);
        }
        assert forall|i: int| 0 <= i < b.len() implies #[trigger] b[i] != x by {
            assert((a + b)[a.len() + i] == b[i]);
        }
    }
    if lacks(a, x) && lacks(b, x) {
        assert forall|i: int| 0 <= i < (a + b).len() implies #[trigger] (a + b)[i] != x by {
            if i >= a.len() {
                assert((a + b)[i] == b[i - a.len()]);
            }
        }
    }
}

proof fn lemma_lacks_skip(s: Seq<char>, n: int, x: char)
    requires
        0 <= n <= s.len(),
        lacks(s, x),
    ensures
        lacks(s.skip(n), x),
{
    assert forall|i: int| 0 <= i < s.skip(n).len() implies #[trigger] s.skip(n)[i] != x by {
        assert(s.skip(n)[i] == s[i + n]);
    }
}

/// Replacement brings in no character that neither the text nor the
/// replacement holds, and a one-character pattern absent from the
/// replacement is gone afterwards.
proof fn lemma_replace_lacks(s: Seq<char>, pat: Seq<char>, rep: Seq<char>, x: char)
    requires
        lacks(rep, x),
        lacks(s, x) || pat == seq![x],
    ensures
        lacks(replace_all(s, pat, rep), x),
    decreases s.len(),
{
    if s.len() > 0 {
        if 0 < pat.len() <= s.len() && s.take(pat.len() as int) == pat {
            if lacks(s, x) {
                lemma_lacks_skip(s, pat.len() as int, x);
            }
            lemma_replace_lacks(s.skip(pat.len() as int), pat, rep, x);
            lemma_lacks_concat(rep, replace_all(s.skip(pat.len() as int), pat, rep), x);
        } else {
            if lacks(s, x) {
                lemma_lacks_skip(s, 1, x);
            } else {
                assert(s[0] != x) by {
                    if s[0] == x {
                        assert(s.take(1) =~= pat);
                    }
                }
            }
            lemma_replace_lacks(s.skip(1), pat, rep, x);
            lemma_lacks_concat(seq![s[0]], replace_all(s.skip(1), pat, rep), x);
        }
    }
}

proof fn lemma_strip_lacks(s: Seq<char>, in_comment: bool, x: char)
    requires
        lacks(s, x) || x == '#',
    ensures
        lacks(strip_comments(s, in_comment), x),
    decreases s.len(),
{
    if s.len() > 0 {
        let c = s[0];
        let ic = if c == '\n' {
            false
        } else if c == '#' {
            true
        } else {
            in_comment
        };
        if lacks(s, x) {
            lemma_lacks_skip(s, 1, x);
        }
        lemma_strip_lacks(s.skip(1), ic, x);
        let head = if ic {
            Seq::<char>::empty()
        } else {
            seq![c]
        };
        lemma_lacks_concat(head, strip_comments(s.skip(1), ic), x);
    }
}

proof fn lemma_tokenize_lacks(s: Seq<char>, token: Seq<char>, inside: bool, x: char)
    requires
        lacks(s, x),
        lacks(token, x),
    ensures
        forall|i: int|
            0 <= i < tokenize(s, token, inside).len() ==> lacks(
                #[trigger] tokenize(s, token, inside)[i],
                x,
            ),
    decreases s.len(),
{
    if s.len() == 0 {
        if token.len() > 0 {
            assert(tokenize(s, token, inside) == seq![token]);
        }
    } else {
        let c = s[0];
        let rest = s.skip(1);
        lemma_lacks_skip(s, 1, x);
        lemma_lacks_concat(token, seq![c], x);
        assert(token.push(c) =~= token + seq![c]);
        if c == '"' {
            lemma_tokenize_lacks(rest, token.push(c), !inside, x);
            assert(tokenize(s, token, inside) == tokenize(rest, token.push(c), !inside));
        } else if inside || (c != ' ' && c != '\n') {
            lemma_tokenize_lacks(rest, token.push(c), inside, x);
            assert(tokenize(s, token, inside) == tokenize(rest, token.push(c), inside));
        } else {
            lemma_tokenize_lacks(rest, seq![], inside, x);
            let tail = tokenize(rest, seq![], inside);
            if token.len() > 0 {
                assert(tokenize(s, token, inside) == seq![token] + tail);
                assert forall|i: int|
                    0 <= i < (seq![token] + tail).len() implies lacks(
                    #[trigger] (seq![token] + tail)[i],
                    x,
                ) by {
                    if i > 0 {
                        assert((seq![token] + tail)[i] == tail[i - 1]);
                    }
                }
            } else {
                assert(tokenize(s, token, inside) == tail);
            }
        }
    }
}

/// No token holds a `#`, a carriage return or a tab: comments are gone and
/// the whitespace is normalized.
pub proof fn law_tokens_have_no_comment_or_control_chars(file: Seq<char>, i: int)
    requires
        0 <= i < lexed(file).len(),
    ensures
        lacks(lexed(file)[i], '#'),
        lacks(lexed(file)[i], '\r'),
        lacks(lexed(file)[i], '\t'),
{
    let a = replace_all(file, seq!['\r'], seq![]);
    let b = replace_all(a, seq!['\t'], seq![' ']);
    let c = replace_all(b, seq!['/', '/'], seq!['#']);
    let d = strip_comments(c, false);
    let empty = Seq::<char>::empty();
    // Carriage returns.
    lemma_replace_lacks(file, seq!['\r'], seq![], '\r');
    lemma_replace_lacks(a, seq!['\t'], seq![' '], '\r');
    lemma_replace_lacks(b, seq!['/', '/'], seq!['#'], '\r');
    lemma_strip_lacks(c, false, '\r');
    lemma_tokenize_lacks(d, empty, false, '\r');
    // Tabs.
    lemma_replace_lacks(a, seq!['\t'], seq![' '], '\t');
    lemma_replace_lacks(b, seq!['/', '/'], seq!['#'], '\t');
    lemma_strip_lacks(c, false, '\t');
    lemma_tokenize_lacks(d, empty, false, '\t');
    // Comment marks.
    lemma_strip_lacks(c, false, '#');
    lemma_tokenize_lacks(d, empty, false, '#');
}

/// The state invariant of the tokenizer: inside a string, the current token
/// holds the opening quote; a token without quotes holds no blank.
pub open spec fn blank_free_unless_quoted(t: Seq<char>) -> bool {
    lacks(t, '"') ==> lacks(t, ' ') && lacks(t, '\n')
}

proof fn lemma_tokenize_blanks(s: Seq<char>, token: Seq<char>, inside: bool)
    requires
        inside ==> !lacks(token, '"'),
        blank_free_unless_quoted(token),
    ensures
        forall|i: int|
            0 <= i < tokenize(s, token, inside).len() ==> blank_free_unless_quoted(
                #[trigger] tokenize(s, token, inside)[i],
            ),
    decreases s.len(),
{
    if s.len() == 0 {
        if token.len() > 0 {
            assert(tokenize(s, token, inside) == seq![token]);
        }
    } else {
        let c = s[0];
        let rest = s.skip(1);
        let t2 = token.push(c);
        assert(t2 =~= token + seq![c]);
        lemma_lacks_concat(token, seq![c], '"');
        lemma_lacks_concat(token, seq![c], ' ');
        lemma_lacks_concat(token, seq![c], '\n');
        if c == '"' {
            assert(seq![c][0] == c);
            assert(!lacks(seq![c], '"'));
            lemma_tokenize_blanks(rest, t2, !inside);
            assert(tokenize(s, token, inside) == tokenize(rest, t2, !inside));
        } else if inside || (c != ' ' && c != '\n') {
            lemma_tokenize_blanks(rest, t2, inside);
            assert(tokenize(s, token, inside) == tokenize(rest, t2, inside));
        } else {
            let empty = Seq::<char>::empty();
            lemma_tokenize_blanks(rest, empty, inside);
            let tail = tokenize(rest, seq![], inside);
            if token.len() > 0 {
                assert(tokenize(s, token, inside) == seq![token] + tail);
                assert forall|i: int|
                    0 <= i < (seq![token] + tail).len() implies blank_free_unless_quoted(
                    #[trigger] (seq![token] + tail)[i],
                ) by {
                    if i > 0 {
                        assert((seq![token] + tail)[i] == tail[i - 1]);
                    }
                }
            } else {
                assert(tokenize(s, token, inside) == tail);
            }
        }
    }
}

/// A token without a double quote holds no space and no newline: outside
/// string literals, blanks only separate tokens.
pub proof fn law_unquoted_tokens_have_no_blanks(file: Seq<char>, i: int)
    requires
        0 <= i < lexed(file).len(),
        lacks(lexed(file)[i], '"'),
    ensures
        lacks(lexed(file)[i], ' '),
        lacks(lexed(file)[i], '\n'),
{
    lemma_tokenize_blanks(strip_comments(normalized(file), false), seq![], false);
    assert(blank_free_unless_quoted(lexed(file)[i]));
}

/// The words of `s` separated by spaces and newlines, empty words dropped;
/// `word` is the word read so far.
pub open spec fn split_on_blanks(s: Seq<char>, word: Seq<char>) -> Seq<Seq<char>>
    decreases s.len(),
{
    if s.len() == 0 {
        if word.len() > 0 {
            seq![word]
        } else {
            seq![]
        }
    } else if s[0] == ' ' || s[0] == '\n' {
        (if word.len() > 0 {
            seq![word]
        } else {
            seq![]
        }) + split_on_blanks(s.skip(1), seq![])
    } else {
        split_on_blanks(s.skip(1), word.push(s[0]))
    }
}

/// `pat` occurs nowhere in `s`.
pub open spec fn never_occurs(s: Seq<char>, pat: Seq<char>) -> bool {
    forall|i: int| 0 <= i && i + pat.len() <= s.len() ==> #[trigger] s.subrange(i, i + pat.len()) != pat
}

proof fn lemma_replace_absent(s: Seq<char>, pat: Seq<char>, rep: Seq<char>)
    requires
        pat.len() > 0,
        never_occurs(s, pat),
    ensures
        replace_all(s, pat, rep) == s,
    decreases s.len(),
{
    if s.len() > 0 {
        if pat.len() <= s.len() {
            let z: int = 0;
            assert(s.subrange(z, z + pat.len()) != pat);
            assert(s.subrange(z, z + pat.len()) =~= s.take(pat.len() as int));
        }
        let rest = s.skip(1);
        assert forall|i: int| 0 <= i && i + pat.len() <= rest.len() implies #[trigger] rest.subrange(
            i,
            i + pat.len(),
        ) != pat by {
            assert(rest.subrange(i, i + pat.len()) =~= s.subrange(i + 1, i + 1 + pat.len()));
        }
        lemma_replace_absent(rest, pat, rep);
        assert(seq![s[0]] + rest =~= s);
    } else {
        assert(s =~= Seq::<char>::empty());
    }
}

proof fn lemma_single_char_absent(s: Seq<char>, x: char)
    requires
        lacks(s, x),
    ensures
        never_occurs(s, seq![x]),
{
    assert forall|i: int| 0 <= i && i + 1 <= s.len() implies #[trigger] s.subrange(i, i + 1)
        != seq![x] by {
        assert(s.subrange(i, i + 1)[0] == s[i]);
    }
}

proof fn lemma_strip_without_hash(s: Seq<char>)
    requires
        lacks(s, '#'),
    ensures
        strip_comments(s, false) == s,
    decreases s.len(),
{
    if s.len() > 0 {
        assert(s[0] != '#');
        lemma_lacks_skip(s, 1, '#');
        lemma_strip_without_hash(s.skip(1));
        assert(seq![s[0]] + s.skip(1) =~= s);
    } else {
        assert(s =~= Seq::<char>::empty());
    }
}

proof fn lemma_tokenize_without_quotes(s: Seq<char>, token: Seq<char>)
    requires
        lacks(s, '"'),
    ensures
        tokenize(s, token, false) == split_on_blanks(s, token),
    decreases s.len(),
{
    if s.len() > 0 {
        assert(s[0] != '"');
        lemma_lacks_skip(s, 1, '"');
        let c = s[0];
        if c != ' ' && c != '\n' {
            lemma_tokenize_without_quotes(s.skip(1), token.push(c));
        } else {
            lemma_tokenize_without_quotes(s.skip(1), seq![]);
            if token.len() == 0 {
                assert(Seq::<Seq<char>>::empty() + split_on_blanks(s.skip(1), seq![])
                    =~= split_on_blanks(s.skip(1), seq![]));
            }
        }
    }
}

/// A file without double quotes, comment marks (`#` or `//`), carriage
/// returns or tabs is split into the words between its spaces and newlines.
pub proof fn law_plain_files_split_on_blanks(file: Seq<char>)
    requires
        lacks(file, '"'),
        lacks(file, '#'),
        lacks(file, '\r'),
        lacks(file, '\t'),
        never_occurs(file, seq!['/', '/']),
    ensures
        lexed(file) == split_on_blanks(file, seq![]),
{
    lemma_single_char_absent(file, '\r');
    lemma_replace_absent(file, seq!['\r'], seq![]);
    lemma_single_char_absent(file, '\t');
    lemma_replace_absent(file, seq!['\t'], seq![' ']);
    lemma_replace_absent(file, seq!['/', '/'], seq!['#']);
    assert(normalized(file) == file);
    lemma_strip_without_hash(file);
    lemma_tokenize_without_quotes(file, seq![]);
}

/// The tokens written one after the other with one space between them.
pub open spec fn join_with_spaces(toks: Seq<Seq<char>>) -> Seq<char>
    decreases toks.len(),
{
    if toks.len() == 0 {
        seq![]
    } else if toks.len() == 1 {
        toks[0]
    } else {
        toks[0] + seq![' '] + join_with_spaces(toks.skip(1))
    }
}

/// A token that reads back as itself: non-empty, and without quotes,
/// comment marks, carriage returns, tabs, spaces or newlines.
pub open spec fn plain_token(t: Seq<char>) -> bool {
    &&& t.len() > 0
    &&& lacks(t, '"')
    &&& lacks(t, '#')
    &&& lacks(t, '\r')
    &&& lacks(t, '\t')
    &&& lacks(t, ' ')
    &&& lacks(t, '\n')
    &&& never_occurs(t, seq!['/', '/'])
}

proof fn lemma_split_word(t: Seq<char>, rest: Seq<char>, word: Seq<char>)
    requires
        lacks(t, ' '),
        lacks(t, '\n'),
    ensures
        split_on_blanks(t + rest, word) == split_on_blanks(rest, word + t),
    decreases t.len(),
{
    if t.len() == 0 {
        assert(t + rest =~= rest);
        assert(word + t =~= word);
    } else {
        let u = t + rest;
        assert(u[0] == t[0]);
        assert(t[0] != ' ' && t[0] != '\n');
        assert(u.skip(1) =~= t.skip(1) + rest);
        lemma_lacks_skip(t, 1, ' ');
        lemma_lacks_skip(t, 1, '\n');
        lemma_split_word(t.skip(1), rest, word.push(t[0]));
        assert(word.push(t[0]) + t.skip(1) =~= word + t);
    }
}

proof fn lemma_join_lacks(toks: Seq<Seq<char>>, x: char)
    requires
        x != ' ',
        forall|i: int| 0 <= i < toks.len() ==> lacks(#[trigger] toks[i], x),
    ensures
        lacks(join_with_spaces(toks), x),
    decreases toks.len(),
{
    if toks.len() > 1 {
        assert forall|i: int| 0 <= i < toks.skip(1).len() implies lacks(#[trigger] toks.skip(1)[i], x) by {
            assert(toks.skip(1)[i] == toks[i + 1]);
        }
        lemma_join_lacks(toks.skip(1), x);
        assert(lacks(toks[0], x));
        assert(seq![' '][0] == ' ');
        lemma_lacks_concat(toks[0], seq![' '], x);
        lemma_lacks_concat(toks[0] + seq![' '], join_with_spaces(toks.skip(1)), x);
    } else if toks.len() == 1 {
        assert(lacks(toks[0], x));
    }
}

proof fn lemma_join_no_double_slash(toks: Seq<Seq<char>>)
    requires
        forall|i: int| 0 <= i < toks.len() ==> plain_token(#[trigger] toks[i]),
    ensures
        never_occurs(join_with_spaces(toks), seq!['/', '/']),
    decreases toks.len(),
{
    let pat = seq!['/', '/'];
    if toks.len() > 1 {
        assert forall|i: int| 0 <= i < toks.skip(1).len() implies plain_token(#[trigger] toks.skip(1)[i]) by {
            assert(toks.skip(1)[i] == toks[i + 1]);
        }
        lemma_join_no_double_slash(toks.skip(1));
        let a = toks[0];
        assert(plain_token(a));
        let r = join_with_spaces(toks.skip(1));
        let j = a + seq![' '] + r;
        assert(join_with_spaces(toks) == j);
        assert forall|i: int| 0 <= i && i + pat.len() <= j.len() implies #[trigger] j.subrange(
            i,
            i + pat.len(),
        ) != pat by {
            let w = j.subrange(i, i + 2);
            if i + 2 <= a.len() {
                assert(w =~= a.subrange(i, i + 2));
            } else if i + 1 == a.len() {
                assert(w[1] == ' ');
            } else if i == a.len() {
                assert(w[0] == ' ');
            } else {
                let k = i - a.len() - 1;
                assert(w =~= r.subrange(k, k + 2));
            }
        }
    } else if toks.len() == 1 {
        assert(plain_token(toks[0]));
    }
}

proof fn lemma_split_join(toks: Seq<Seq<char>>)
    requires
        forall|i: int| 0 <= i < toks.len() ==> plain_token(#[trigger] toks[i]),
    ensures
        split_on_blanks(join_with_spaces(toks), seq![]) == toks,
    decreases toks.len(),
{
    let empty = Seq::<char>::empty();
    if toks.len() == 0 {
        assert(toks =~= Seq::<Seq<char>>::empty());
    } else if toks.len() == 1 {
        let t = toks[0];
        assert(plain_token(t));
        lemma_split_word(t, empty, empty);
        assert(t + empty =~= t);
        assert(empty + t =~= t);
        assert(split_on_blanks(empty, t) == seq![t]);
        assert(toks =~= seq![t]);
    } else {
        let t = toks[0];
        assert(plain_token(t));
        let r = join_with_spaces(toks.skip(1));
        assert forall|i: int| 0 <= i < toks.skip(1).len() implies plain_token(#[trigger] toks.skip(1)[i]) by {
            assert(toks.skip(1)[i] == toks[i + 1]);
        }
        lemma_split_join(toks.skip(1));
        lemma_split_word(t, seq![' '] + r, empty);
        assert(t + seq![' '] + r =~= t + (seq![' '] + r));
        assert(empty + t =~= t);
        let sp = seq![' '] + r;
        assert(sp[0] == ' ');
        assert(sp.skip(1) =~= r);
        assert(split_on_blanks(sp, t) == seq![t] + split_on_blanks(r, seq![]));
        assert(seq![t] + toks.skip(1) =~= toks);
    }
}

/// Plain tokens written with one space between them read back as the same
/// tokens.
pub proof fn law_joined_tokens_read_back(toks: Seq<Seq<char>>)
    requires
        forall|i: int| 0 <= i < toks.len() ==> plain_token(#[trigger] toks[i]),
    ensures
        lexed(join_with_spaces(toks)) == toks,
{
    assert forall|i: int| 0 <= i < toks.len() implies lacks(#[trigger] toks[i], '"') by {
        assert(plain_token(toks[i]));
    }
    lemma_join_lacks(toks, '"');
    assert forall|i: int| 0 <= i < toks.len() implies lacks(#[trigger] toks[i], '#') by {
        assert(plain_token(toks[i]));
    }
    lemma_join_lacks(toks, '#');
    assert forall|i: int| 0 <= i < toks.len() implies lacks(#[trigger] toks[i], '\r') by {
        assert(plain_token(toks[i]));
    }
    lemma_join_lacks(toks, '\r');
    assert forall|i: int| 0 <= i < toks.len() implies lacks(#[trigger] toks[i], '\t') by {
        assert(plain_token(toks[i]));
    }
    lemma_join_lacks(toks, '\t');
    lemma_join_no_double_slash(toks);
    law_plain_files_split_on_blanks(join_with_spaces(toks));
    lemma_split_join(toks);
}

/// No two slashes stand next to each other in `s`.
pub open spec fn no_double_slash(s: Seq<char>) -> bool {
    forall|i: int| 0 <= i < s.len() - 1 ==> !(#[trigger] s[i] == '/' && s[i + 1] == '/')
}

proof fn lemma_replace_slashes(s: Seq<char>)
    ensures
        no_double_slash(replace_all(s, seq!['/', '/'], seq!['#'])),
        replace_all(s, seq!['/', '/'], seq!['#']).len() > 0 ==> (replace_all(
            s,
            seq!['/', '/'],
            seq!['#'],
        )[0] == '#' || (s.len() > 0 && replace_all(s, seq!['/', '/'], seq!['#'])[0] == s[0])),
    decreases s.len(),
{
    let pat = seq!['/', '/'];
    let rep = seq!['#'];
    if s.len() > 0 {
        let out = replace_all(s, pat, rep);
        if 2 <= s.len() && s.take(2) == pat {
            lemma_replace_slashes(s.skip(2));
            let r = replace_all(s.skip(2), pat, rep);
            assert(out == rep + r);
            assert forall|i: int| 0 <= i < out.len() - 1 implies !(#[trigger] out[i] == '/' && out[i
                + 1] == '/') by {
                if i > 0 {
                    assert(out[i] == r[i - 1] && out[i + 1] == r[i]);
                } else {
                    assert(out[0] == '#');
                }
            }
        } else {
            lemma_replace_slashes(s.skip(1));
            let r = replace_all(s.skip(1), pat, rep);
            assert(out == seq![s[0]] + r);
            assert forall|i: int| 0 <= i < out.len() - 1 implies !(#[trigger] out[i] == '/' && out[i
                + 1] == '/') by {
                if i > 0 {
                    assert(out[i] == r[i - 1] && out[i + 1] == r[i]);
                } else if s[0] == '/' && r[0] == '/' {
                    assert(s.skip(1)[0] == s[1]);
                    assert(s.take(2) =~= pat);
                }
            }
        }
    }
}

proof fn lemma_strip_slashes(s: Seq<char>, in_comment: bool)
    requires
        no_double_slash(s),
    ensures
        no_double_slash(strip_comments(s, in_comment)),
        strip_comments(s, in_comment).len() > 0 && strip_comments(s, in_comment)[0] == '/' ==> (
        s.len() > 0 && s[0] == '/' && !in_comment),
    decreases s.len(),
{
    if s.len() > 0 {
        let c = s[0];
        let ic = if c == '\n' {
            false
        } else if c == '#' {
            true
        } else {
            in_comment
        };
        let rest = s.skip(1);
        assert forall|i: int| 0 <= i < rest.len() - 1 implies !(#[trigger] rest[i] == '/' && rest[i
            + 1] == '/') by {
            assert(rest[i] == s[i + 1] && rest[i + 1] == s[i + 2]);
        }
        lemma_strip_slashes(rest, ic);
        let r = strip_comments(rest, ic);
        let head = if ic {
            Seq::<char>::empty()
        } else {
            seq![c]
        };
        let out = strip_comments(s, in_comment);
        assert(out == head + r);
        assert forall|i: int| 0 <= i < out.len() - 1 implies !(#[trigger] out[i] == '/' && out[i
            + 1] == '/') by {
            if head.len() == 1 {
                if i > 0 {
                    assert(out[i] == r[i - 1] && out[i + 1] == r[i]);
                } else if c == '/' && r[0] == '/' {
                    assert(rest[0] == s[1]);
                }
            } else {
                assert(out[i] == r[i] && out[i + 1] == r[i + 1]);
            }
        }
        if head.len() == 0 && out.len() > 0 {
            assert(out[0] == r[0]);
        }
    }
}

proof fn lemma_tokenize_slashes(s: Seq<char>, token: Seq<char>, inside: bool)
    requires
        no_double_slash(s),
        no_double_slash(token),
        token.len() > 0 && token.last() == '/' && s.len() > 0 ==> s[0] != '/',
    ensures
        forall|i: int|
            0 <= i < tokenize(s, token, inside).len() ==> no_double_slash(
                #[trigger] tokenize(s, token, inside)[i],
            ),
    decreases s.len(),
{
    if s.len() == 0 {
        if token.len() > 0 {
            assert(tokenize(s, token, inside) == seq![token]);
        }
    } else {
        let c = s[0];
        let rest = s.skip(1);
        assert forall|i: int| 0 <= i < rest.len() - 1 implies !(#[trigger] rest[i] == '/' && rest[i
            + 1] == '/') by {
            assert(rest[i] == s[i + 1] && rest[i + 1] == s[i + 2]);
        }
        let t2 = token.push(c);
        assert(no_double_slash(t2)) by {
            assert forall|i: int| 0 <= i < t2.len() - 1 implies !(#[trigger] t2[i] == '/' && t2[i
                + 1] == '/') by {
                if i < token.len() - 1 {
                    assert(t2[i] == token[i] && t2[i + 1] == token[i + 1]);
                } else {
                    assert(t2[i] == token.last() && t2[i + 1] == c);
                }
            }
        }
        if rest.len() > 0 && c == '/' {
            assert(rest[0] == s[1]);
        }
        assert(t2.last() == c);
        if c == '"' {
            lemma_tokenize_slashes(rest, t2, !inside);
            assert(tokenize(s, token, inside) == tokenize(rest, t2, !inside));
        } else if inside || (c != ' ' && c != '\n') {
            lemma_tokenize_slashes(rest, t2, inside);
            assert(tokenize(s, token, inside) == tokenize(rest, t2, inside));
        } else {
            lemma_tokenize_slashes(rest, seq![], inside);
            let tail = tokenize(rest, seq![], inside);
            if token.len() > 0 {
                assert(tokenize(s, token, inside) == seq![token] + tail);
                assert forall|i: int|
                    0 <= i < (seq![token] + tail).len() implies no_double_slash(
                    #[trigger] (seq![token] + tail)[i],
                ) by {
                    if i > 0 {
                        assert((seq![token] + tail)[i] == tail[i - 1]);
                    }
                }
            } else {
                assert(tokenize(s, token, inside) == tail);
            }
        }
    }
}

/// No token holds two slashes in a row: `//` always starts a comment.
pub proof fn law_tokens_have_no_double_slash(file: Seq<char>, i: int)
    requires
        0 <= i < lexed(file).len(),
    ensures
        no_double_slash(lexed(file)[i]),
{
    let a = replace_all(file, seq!['\r'], seq![]);
    let b = replace_all(a, seq!['\t'], seq![' ']);
    lemma_replace_slashes(b);
    lemma_strip_slashes(normalized(file), false);
    lemma_tokenize_slashes(strip_comments(normalized(file), false), seq![], false);
}

/// The tokens of a file without double quotes in them, written with one
/// space between them, read back as the same tokens.
pub proof fn law_file_tokens_read_back(file: Seq<char>)
    requires
        forall|i: int| 0 <= i < lexed(file).len() ==> lacks(#[trigger] lexed(file)[i], '"'),
    ensures
        lexed(join_with_spaces(lexed(file))) == lexed(file),
{
    let toks = lexed(file);
    lemma_tokens_nonempty(strip_comments(normalized(file), false), seq![], false);
    assert forall|i: int| 0 <= i < toks.len() implies plain_token(#[trigger] toks[i]) by {
        law_tokens_have_no_comment_or_control_chars(file, i);
        law_unquoted_tokens_have_no_blanks(file, i);
        law_tokens_have_no_double_slash(file, i);
        let t = toks[i];
        assert forall|k: int| 0 <= k && k + 2 <= t.len() implies #[trigger] t.subrange(k, k + 2)
            != seq!['/', '/'] by {
            if t.subrange(k, k + 2) == seq!['/', '/'] {
                assert(t.subrange(k, k + 2)[0] == t[k]);
                assert(t.subrange(k, k + 2)[1] == t[k + 1]);
            }
        }
        let pat = seq!['/', '/'];
        assert(pat.len() == 2);
    }
    law_joined_tokens_read_back(toks);
}

fn remove_comments(s: &Vec<char>) -> (r: Vec<char>)
    ensures
        r@ == strip_comments(s@, false),
{
    let mut r: Vec<char> = Vec::new();
    let mut in_comment = false;
    let mut i: usize = 0;
    assert(s@.skip(0) =~= s@);
    while i < s.len()
        invariant
            i <= s.len(),
            strip_comments(s@, false) == r@ + strip_comments(s@.skip(i as int), in_comment),
        decreases s.len() - i,
    {
        let ghost rest = s@.skip(i as int);
        let c = s[i];
        assert(rest[0] == c);
        if c == '#' {
            in_comment = true;
        }
        if c == '\n' {
            in_comment = false;
        }
        let ghost before = r@;
        if !in_comment {
            r.push(c);
        }
        assert(rest.skip(1) =~= s@.skip(i + 1));
        assert(r@ == before + (if in_comment {
            Seq::<char>::empty()
        } else {
            seq![c]
        }));
        i += 1;
    }
    assert(s@.skip(i as int) =~= Seq::<char>::empty());
    assert(r@ + Seq::<char>::empty() =~= r@);
    r
}

fn split_tokens(s: &Vec<char>) -> (r: Vec<Vec<char>>)
    ensures
        char_views(r@) == tokenize(s@, seq![], false),
{
    let mut r: Vec<Vec<char>> = Vec::new();
    let mut token: Vec<char> = Vec::new();
    let mut inside = false;
    let mut i: usize = 0;
    assert(s@.skip(0) =~= s@);
    while i < s.len()
        invariant
            i <= s.len(),
            tokenize(s@, seq![], false) == char_views(r@) + tokenize(
                s@.skip(i as int),
                token@,
                inside,
            ),
        decreases s.len() - i,
    {
        let ghost rest = s@.skip(i as int);
        let c = s[i];
        assert(rest[0] == c);
        assert(rest.skip(1) =~= s@.skip(i + 1));
        if c == '"' {
            inside = !inside;
            token.push(c);
        } else if inside || (c != ' ' && c != '\n') {
            token.push(c);
        } else if token.len() > 0 {
            let ghost before = char_views(r@);
            let ghost t = token@;
            r.push(token);
            token = Vec::new();
            assert(char_views(r@) =~= before + seq![t]);
            assert(token@ =~= Seq::<char>::empty());
            assert(tokenize(rest, t, inside) == seq![t] + tokenize(rest.skip(1), seq![], inside));
        } else {
            assert(token@ =~= Seq::<char>::empty());
        }
        i += 1;
    }
    let ghost before = char_views(r@);
    assert(s@.skip(i as int) =~= Seq::<char>::empty());
    if token.len() > 0 {
        let ghost t = token@;
        r.push(token);
        assert(char_views(r@) =~= before + seq![t]);
    } else {
        assert(before + Seq::<Seq<char>>::empty() =~= before);
    }
    r
}

/// Splits the text of a source file into tokens; see `lexed`. Every token is
/// non-empty.
pub fn file_to_tok(file: &str) -> (tokens: Vec<String>)
    ensures
        views(tokens@) == lexed(file@),
        forall|i: int| 0 <= i < tokens@.len() ==> (#[trigger] tokens@[i])@.len() > 0,
{
    let chars = chars_of(file);
    let cr: Vec<char> = vec!['\r'];
    let nothing: Vec<char> = Vec::new();
    let tab: Vec<char> = vec!['\t'];
    let space: Vec<char> = vec![' '];
    let slashes: Vec<char> = vec!['/', '/'];
    let hash: Vec<char> = vec!['#'];
    assert(cr@ =~= seq!['\r']);
    assert(nothing@ =~= Seq::<char>::empty());
    assert(tab@ =~= seq!['\t']);
    assert(space@ =~= seq![' ']);
    assert(slashes@ =~= seq!['/', '/']);
    assert(hash@ =~= seq!['#']);
    let a = replace_all_chars(&chars, &cr, &nothing);
    let b = replace_all_chars(&a, &tab, &space);
    let c = replace_all_chars(&b, &slashes, &hash);
    let d = remove_comments(&c);
    let toks = split_tokens(&d);
    let tokens = strings_of(&toks);
    proof {
        lemma_tokens_nonempty(d@, seq![], false);
        assert forall|i: int| 0 <= i < tokens@.len() implies (#[trigger] tokens@[i])@.len() > 0 by {
            assert(views(tokens@)[i] == tokens@[i]@);
        }
    }
    tokens
}

/// Every token produced from a prefix-free state is non-empty.
pub proof fn lemma_tokens_nonempty(s: Seq<char>, token: Seq<char>, inside: bool)
    ensures
        forall|i: int|
            0 <= i < tokenize(s, token, inside).len() ==> (#[trigger] tokenize(
                s,
                token,
                inside,
            )[i]).len() > 0,
    decreases s.len(),
{
    if s.len() == 0 {
        if token.len() > 0 {
            assert(tokenize(s, token, inside) == seq![token]);
        }
    } else {
        let c = s[0];
        let rest = s.skip(1);
        if c == '"' {
            lemma_tokens_nonempty(rest, token.push(c), !inside);
            assert(tokenize(s, token, inside) == tokenize(rest, token.push(c), !inside));
        } else if inside || (c != ' ' && c != '\n') {
            lemma_tokens_nonempty(rest, token.push(c), inside);
            assert(tokenize(s, token, inside) == tokenize(rest, token.push(c), inside));
        } else {
            lemma_tokens_nonempty(rest, seq![], inside);
            if token.len() == 0 {
                assert(tokenize(s, token, inside) == tokenize(rest, seq![], inside));
            }
            if token.len() > 0 {
                let tail = tokenize(rest, seq![], inside);
                assert(tokenize(s, token, inside) == seq![token] + tail);
                assert forall|i: int|
                    0 <= i < (seq![token] + tail).len() implies (#[trigger] (seq![token]
                    + tail)[i]).len() > 0 by {
                    if i > 0 {
                        assert((seq![token] + tail)[i] == tail[i - 1]);
                    }
                }
            }
        }
    }
}

} // verus!
