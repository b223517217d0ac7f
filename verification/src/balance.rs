use vstd::prelude::*;

use crate::preprocessor::{
    find_end, is_command_char, kind, lemma_run_len_props, lex_errors, lex_tokens, parse_spec,
    run_len, scan, token_at, Inst, Token, TokenKind,
};

verus! {

/// The number of loop-start characters among the first `n` of `s`.
pub open spec fn copens(s: Seq<char>, n: int) -> int
    decreases n,
{
    if n <= 0 {
        0
    } else {
        copens(s, n - 1) + if s[n - 1] == '[' {
            1int
        } else {
            0int
        }
    }
}

/// The number of loop-end characters among the first `n` of `s`.
pub open spec fn ccloses(s: Seq<char>, n: int) -> int
    decreases n,
{
    if n <= 0 {
        0
    } else {
        ccloses(s, n - 1) + if s[n - 1] == ']' {
            1int
        } else {
            0int
        }
    }
}

/// The number of loop-start tokens in `t`.
pub open spec fn opens(t: Seq<Token>) -> int
    decreases t.len(),
{
    if t.len() == 0 {
        0
    } else {
        opens(t.drop_last()) + if kind(t.last()) == TokenKind::LoopStart {
            1int
        } else {
            0int
        }
    }
}

/// The number of loop-end tokens in `t`.
pub open spec fn closes(t: Seq<Token>) -> int
    decreases t.len(),
{
    if t.len() == 0 {
        0
    } else {
        closes(t.drop_last()) + if kind(t.last()) == TokenKind::LoopEnd {
            1int
        } else {
            0int
        }
    }
}

/// How many loops are still open after the first `i` tokens.
pub open spec fn depth(t: Seq<Token>, i: int) -> int {
    opens(t.take(i)) - closes(t.take(i))
}

/// No prefix closes more loops than it has opened.
pub open spec fn prefix_ok(t: Seq<Token>) -> bool {
    forall|i: int| 0 <= i <= t.len() ==> #[trigger] depth(t, i) >= 0
}

/// The loop delimiters of `t` balance: no prefix over-closes, and the whole
/// sequence closes every loop it opens.
pub open spec fn balanced(t: Seq<Token>) -> bool {
    prefix_ok(t) && depth(t, t.len() as int) == 0
}

/// The total number of instructions in a tree, loop bodies included.
pub open spec fn count_nodes(instrs: Seq<Inst>) -> int
    decreases instrs,
{
    if instrs.len() == 0 {
        0
    } else {
        (match instrs[0] {
            Inst::Loop(b) => 1 + count_nodes(b),
            _ => 1,
        }) + count_nodes(instrs.skip(1))
    }
}

/// Appending one token adds its bracket weight to the counts.
proof fn lemma_counts_push(t: Seq<Token>, x: Token)
    ensures
        opens(t.push(x)) == opens(t) + (if kind(x) == TokenKind::LoopStart {
            1int
        } else {
            0int
        }),
        closes(t.push(x)) == closes(t) + (if kind(x) == TokenKind::LoopEnd {
            1int
        } else {
            0int
        }),
{
    assert(t.push(x).drop_last() =~= t);
    assert(t.push(x).last() == x);
}

/// Bracket counts distribute over concatenation.
proof fn lemma_counts_concat(a: Seq<Token>, b: Seq<Token>)
    ensures
        opens(a + b) == opens(a) + opens(b),
        closes(a + b) == closes(a) + closes(b),
    decreases b.len(),
{
    if b.len() == 0 {
        assert(a + b =~= a);
    } else {
        lemma_counts_concat(a, b.drop_last());
        assert((a + b).drop_last() =~= a + b.drop_last());
        assert((a + b).last() == b.last());
    }
}

/// Crossing one token moves the depth by that token's bracket weight.
proof fn lemma_depth_step(t: Seq<Token>, i: int)
    requires
        0 <= i < t.len(),
    ensures
        depth(t, i + 1) == depth(t, i) + (if kind(t[i]) == TokenKind::LoopStart {
            1int
        } else if kind(t[i]) == TokenKind::LoopEnd {
            -1int
        } else {
            0int
        }),
{
    assert(t.take(i + 1) =~= t.take(i).push(t[i]));
    lemma_counts_push(t.take(i), t[i]);
}

/// The bracket counts of a slice are the difference of the boundary depths.
proof fn lemma_depth_slice(t: Seq<Token>, a: int, i: int)
    requires
        0 <= a <= i <= t.len(),
    ensures
        opens(t.subrange(a, i)) - closes(t.subrange(a, i)) == depth(t, i) - depth(t, a),
{
    assert(t.take(i) =~= t.take(a) + t.subrange(a, i));
    lemma_counts_concat(t.take(a), t.subrange(a, i));
}

/// Crossing only bracket-free tokens leaves the depth unchanged.
proof fn lemma_depth_flat(t: Seq<Token>, n: int)
    requires
        0 <= n <= t.len(),
        forall|i: int|
            0 <= i < n ==> #[trigger] kind(t[i]) != TokenKind::LoopStart && kind(t[i])
                != TokenKind::LoopEnd,
    ensures
        depth(t, n) == depth(t, 0),
    decreases n,
{
    if n > 0 {
        lemma_depth_flat(t, n - 1);
        lemma_depth_step(t, n - 1);
    }
}

/// A token whose arrival keeps the counts in order keeps every prefix in
/// order.
proof fn lemma_prefix_ok_push(t: Seq<Token>, x: Token)
    requires
        prefix_ok(t),
        closes(t) + (if kind(x) == TokenKind::LoopEnd {
            1int
        } else {
            0int
        }) <= opens(t) + (if kind(x) == TokenKind::LoopStart {
            1int
        } else {
            0int
        }),
    ensures
        prefix_ok(t.push(x)),
{
    lemma_counts_push(t, x);
    assert forall|i: int| 0 <= i <= t.push(x).len() implies #[trigger] depth(t.push(x), i)
        >= 0 by {
        if i <= t.len() {
            assert(t.push(x).take(i) =~= t.take(i));
            assert(depth(t, i) >= 0);
        } else {
            assert(t.push(x).take(i) =~= t.push(x));
            assert(t.push(x).take(t.push(x).len() as int) =~= t.push(x));
        }
    }
}

/// While the loop delimiters of the source stay balanced, the lexer records
/// no error, its token counts mirror the character counts, its open-loop
/// stack holds exactly the yet-unclosed loops, and what it has emitted never
/// over-closes.
pub proof fn lemma_scan_balanced(s: Seq<char>, n: int)
    requires
        0 <= n <= s.len(),
        forall|i: int| 0 <= i <= n ==> #[trigger] ccloses(s, i) <= copens(s, i),
    ensures
        scan(s, n).errors.len() == 0,
        opens(scan(s, n).tokens) == copens(s, n),
        closes(scan(s, n).tokens) == ccloses(s, n),
        scan(s, n).open.len() == copens(s, n) - ccloses(s, n),
        prefix_ok(scan(s, n).tokens),
        scan(s, n).tokens.len() <= n,
    decreases n,
{
    if n == 0 {
        assert forall|i: int| 0 <= i <= scan(s, 0).tokens.len() implies #[trigger] depth(
            scan(s, 0).tokens,
            i,
        ) >= 0 by {
            assert(scan(s, 0).tokens.take(i) =~= Seq::<Token>::empty());
        }
    } else {
        lemma_scan_balanced(s, n - 1);
        let st = scan(s, n - 1);
        let t = st.tokens;
        let i = n - 1;
        let c = s[i];
        if c == ']' {
            assert(ccloses(s, n) <= copens(s, n));
            assert(st.open.len() > 0);
            lemma_counts_push(t, token_at(s, i));
            lemma_prefix_ok_push(t, token_at(s, i));
        } else if c == '[' {
            lemma_counts_push(t, token_at(s, i));
            lemma_prefix_ok_push(t, token_at(s, i));
        } else if is_command_char(c) {
            lemma_counts_push(t, token_at(s, i));
            lemma_prefix_ok_push(t, token_at(s, i));
        }
    }
}

/// Inside a loop whose body has not yet returned to the enclosing depth, the
/// bracket scan finds the first boundary where it does: a loop-end token, in
/// range, with a balanced body before it.
proof fn lemma_find_end_hits(t: Seq<Token>, j: int)
    requires
        1 <= j <= t.len(),
        balanced(t),
        kind(t[0]) == TokenKind::LoopStart,
        forall|i: int| 1 <= i <= j ==> #[trigger] depth(t, i) >= 1,
    ensures
        ({
            let e = find_end(t, j, depth(t, j) - 1);
            j <= e < t.len() && kind(t[e]) == TokenKind::LoopEnd && depth(t, e) == 1 && depth(
                t,
                e + 1,
            ) == 0 && (forall|i: int| 1 <= i <= e ==> #[trigger] depth(t, i) >= 1)
        }),
    decreases t.len() - j,
{
    assert(t.take(t.len() as int) =~= t);
    if j == t.len() {
        assert(depth(t, j) >= 1);
        assert(false);
    } else {
        lemma_depth_step(t, j);
        let d = depth(t, j) - 1;
        if kind(t[j]) == TokenKind::LoopEnd && d == 0 {
            assert(find_end(t, j, d) == j);
        } else if kind(t[j]) == TokenKind::LoopEnd {
            assert(depth(t, j + 1) == depth(t, j) - 1 >= 1);
            lemma_find_end_hits(t, j + 1);
        } else if kind(t[j]) == TokenKind::LoopStart {
            assert(depth(t, j + 1) >= 1);
            lemma_find_end_hits(t, j + 1);
        } else {
            assert(depth(t, j + 1) >= 1);
            lemma_find_end_hits(t, j + 1);
        }
    }
}

/// One instruction and what follows it count up from the pieces.
proof fn lemma_count_nodes_cons(x: Inst, rest: Seq<Inst>)
    ensures
        count_nodes(seq![x] + rest) == (match x {
            Inst::Loop(b) => 1 + count_nodes(b),
            _ => 1int,
        }) + count_nodes(rest),
{
    let s = seq![x] + rest;
    assert(s.len() > 0);
    assert(s[0] == x);
    assert(s.skip(1) =~= rest);
}

/// A balanced token sequence parses, into at most one instruction per token.
pub proof fn lemma_parse_balanced(t: Seq<Token>)
    requires
        balanced(t),
    ensures
        parse_spec(t) matches Ok(instrs) && count_nodes(instrs) <= t.len(),
    decreases t.len(),
{
    assert(t.take(0) =~= Seq::<Token>::empty());
    assert(depth(t, 0) == 0);
    if t.len() == 0 {
    } else {
        let k = kind(t[0]);
        lemma_depth_step(t, 0);
        if k == TokenKind::LoopEnd {
            assert(depth(t, 1) >= 0);
            assert(false);
        } else if k == TokenKind::LoopStart {
            assert(depth(t, 1) == 1);
            lemma_find_end_hits(t, 1);
            let e = find_end(t, 1, 0);
            let body_toks = t.subrange(1, e);
            let rest_toks = t.skip(e + 1);
            assert(t.take(t.len() as int) =~= t);
            assert forall|i: int| 0 <= i <= body_toks.len() implies #[trigger] depth(body_toks, i)
                >= 0 by {
                assert(body_toks.take(i) =~= t.subrange(1, 1 + i));
                lemma_depth_slice(t, 1, 1 + i);
                assert(depth(t, 1 + i) >= 1);
            }
            assert(balanced(body_toks)) by {
                assert(body_toks.take(body_toks.len() as int) =~= t.subrange(1, e));
                lemma_depth_slice(t, 1, e);
            }
            assert forall|i: int| 0 <= i <= rest_toks.len() implies #[trigger] depth(rest_toks, i)
                >= 0 by {
                assert(rest_toks.take(i) =~= t.subrange(e + 1, e + 1 + i));
                lemma_depth_slice(t, e + 1, e + 1 + i);
                assert(depth(t, e + 1 + i) >= 0);
            }
            assert(balanced(rest_toks)) by {
                assert(rest_toks.take(rest_toks.len() as int) =~= t.subrange(
                    e + 1,
                    t.len() as int,
                ));
                lemma_depth_slice(t, e + 1, t.len() as int);
            }
            lemma_parse_balanced(body_toks);
            lemma_parse_balanced(rest_toks);
            match (parse_spec(body_toks), parse_spec(rest_toks)) {
                (Ok(body), Ok(rest)) => {
                    lemma_count_nodes_cons(Inst::Loop(body), rest);
                },
                _ => {
                    assert(false);
                },
            }
        } else {
            lemma_run_len_props(t);
            let n: int = if k == TokenKind::Read {
                1
            } else {
                run_len(t)
            };
            assert forall|i: int|
                0 <= i < n implies #[trigger] kind(t[i]) != TokenKind::LoopStart && kind(t[i])
                != TokenKind::LoopEnd by {
                assert(kind(t[i]) == kind(t[0]));
            }
            lemma_depth_flat(t, n);
            let rest_toks = t.skip(n);
            assert(t.take(t.len() as int) =~= t);
            assert forall|i: int| 0 <= i <= rest_toks.len() implies #[trigger] depth(rest_toks, i)
                >= 0 by {
                assert(rest_toks.take(i) =~= t.subrange(n, n + i));
                lemma_depth_slice(t, n, n + i);
                assert(depth(t, n + i) >= 0);
            }
            assert(balanced(rest_toks)) by {
                assert(rest_toks.take(rest_toks.len() as int) =~= t.subrange(n, t.len() as int));
                lemma_depth_slice(t, n, t.len() as int);
            }
            lemma_parse_balanced(rest_toks);
            match parse_spec(rest_toks) {
                Ok(rest) => {
                    let first: Inst = if k == TokenKind::MoveRight {
                        Inst::MoveRight(n)
                    } else if k == TokenKind::MoveLeft {
                        Inst::MoveLeft(n)
                    } else if k == TokenKind::Increment {
                        Inst::Increment(n)
                    } else if k == TokenKind::Decrement {
                        Inst::Decrement(n)
                    } else if k == TokenKind::Write {
                        Inst::Write(n)
                    } else {
                        Inst::Read
                    };
                    lemma_count_nodes_cons(first, rest);
                },
                _ => {
                    assert(false);
                },
            }
        }
    }
}

/// For every source made only of the eight command characters whose loop
/// delimiters balance, lexing records no error and parsing the emitted
/// tokens succeeds, with at most one instruction per command character.
pub proof fn lemma_balanced_source_parses(s: Seq<char>)
    requires
        forall|i: int| 0 <= i < s.len() ==> is_command_char(#[trigger] s[i]),
        forall|i: int| 0 <= i <= s.len() ==> #[trigger] ccloses(s, i) <= copens(s, i),
        copens(s, s.len() as int) == ccloses(s, s.len() as int),
    ensures
        lex_errors(s).len() == 0,
        parse_spec(lex_tokens(s)) matches Ok(instrs) && count_nodes(instrs) <= s.len(),
{
    lemma_scan_balanced(s, s.len() as int);
    let st = scan(s, s.len() as int);
    assert(st.open.len() == 0);
    assert(balanced(st.tokens)) by {
        assert(st.tokens.take(st.tokens.len() as int) =~= st.tokens);
    }
    lemma_parse_balanced(st.tokens);
}

} // verus!
