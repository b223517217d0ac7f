use vstd::prelude::*;
use vstd::slice::{slice_index_get, slice_subrange, slice_to_vec};

use crate::error::{LoopError, SyntaxError};

verus! {

/// The location of a token in the source code, 1-indexed.
#[derive(Clone, Copy, Debug, PartialEq, Eq, Structural)]
pub struct SourceLocation {
    pub line: u32,
    pub column: u32,
}

/// The options for tokens that are generated from the lexing process.
#[derive(Clone, Copy, Debug, PartialEq, Eq, Structural)]
pub enum Token {
    MoveRight(SourceLocation),
    MoveLeft(SourceLocation),
    Increment(SourceLocation),
    Decrement(SourceLocation),
    Write(SourceLocation),
    Read(SourceLocation),
    LoopStart(SourceLocation),
    LoopEnd(SourceLocation),
}

/// The eight command characters of the language; every other character is a
/// comment and lexes to nothing.
pub open spec fn is_command_char(c: char) -> bool {
    c == '>' || c == '<' || c == '+' || c == '-' || c == '.' || c == ',' || c == '[' || c == ']'
}

/// The 1-indexed line of the character at index `n` of `s`: one more than the
/// number of newlines among the first `n` characters.
pub open spec fn line_at(s: Seq<char>, n: int) -> int
    decreases n,
{
    if n <= 0 {
        1
    } else if s[n - 1] == '\n' {
        line_at(s, n - 1) + 1
    } else {
        line_at(s, n - 1)
    }
}

/// The 1-indexed column of the character at index `n` of `s`: one more than
/// the number of characters since the last newline.
pub open spec fn col_at(s: Seq<char>, n: int) -> int
    decreases n,
{
    if n <= 0 {
        1
    } else if s[n - 1] == '\n' {
        1
    } else {
        col_at(s, n - 1) + 1
    }
}

/// The source location of the character at index `n` of `s`.
pub open spec fn loc_at(s: Seq<char>, n: int) -> SourceLocation {
    SourceLocation { line: line_at(s, n) as u32, column: col_at(s, n) as u32 }
}

/// Line and column are 1-indexed and never run ahead of the scan position.
pub proof fn lemma_loc_bounds(s: Seq<char>, n: int)
    requires
        0 <= n,
    ensures
        1 <= line_at(s, n) <= n + 1,
        1 <= col_at(s, n) <= n + 1,
    decreases n,
{
    if n > 0 {
        lemma_loc_bounds(s, n - 1);
    }
}

/// The first character after a newline is reported on the next line, at
/// column 1: a newline resets the column and advances the line.
pub proof fn lemma_column_after_newline(s: Seq<char>, k: int)
    requires
        0 <= k < s.len(),
        s[k] == '\n',
    ensures
        col_at(s, k + 1) == 1,
        line_at(s, k + 1) == line_at(s, k) + 1,
{
}

/// The token emitted for the command character at index `i` of `s`.
pub open spec fn token_at(s: Seq<char>, i: int) -> Token {
    let loc = loc_at(s, i);
    if s[i] == '>' {
        Token::MoveRight(loc)
    } else if s[i] == '<' {
        Token::MoveLeft(loc)
    } else if s[i] == '+' {
        Token::Increment(loc)
    } else if s[i] == '-' {
        Token::Decrement(loc)
    } else if s[i] == '.' {
        Token::Write(loc)
    } else if s[i] == ',' {
        Token::Read(loc)
    } else if s[i] == '[' {
        Token::LoopStart(loc)
    } else {
        Token::LoopEnd(loc)
    }
}

/// A syntax error of the given kind positioned at `loc`.
pub open spec fn err_at(loc: SourceLocation, error: LoopError) -> SyntaxError {
    SyntaxError { line: loc.line, column: loc.column, error }
}

/// The lexer's state after scanning the first `n` characters: the tokens
/// emitted so far, the errors recorded so far, and the locations of the
/// loop-start characters still waiting for their loop end.
pub struct LexState {
    pub tokens: Seq<Token>,
    pub errors: Seq<SyntaxError>,
    pub open: Seq<SourceLocation>,
}

/// What scanning the first `n` characters of `s` produces. A stray `]` is
/// recorded as a MissingStart error and emits no token; any other command
/// character emits its token, `[` additionally remembering its location on
/// the open-loop stack which the matching `]` pops.
pub open spec fn scan(s: Seq<char>, n: int) -> LexState
    decreases n,
{
    if n <= 0 {
        LexState { tokens: Seq::empty(), errors: Seq::empty(), open: Seq::empty() }
    } else {
        let st = scan(s, n - 1);
        let i = n - 1;
        let c = s[i];
        if c == ']' {
            if st.open.len() == 0 {
                LexState {
                    tokens: st.tokens,
                    errors: st.errors.push(err_at(loc_at(s, i), LoopError::MissingStart)),
                    open: st.open,
                }
            } else {
                LexState {
                    tokens: st.tokens.push(token_at(s, i)),
                    errors: st.errors,
                    open: st.open.drop_last(),
                }
            }
        } else if c == '[' {
            LexState {
                tokens: st.tokens.push(token_at(s, i)),
                errors: st.errors,
                open: st.open.push(loc_at(s, i)),
            }
        } else if is_command_char(c) {
            LexState { tokens: st.tokens.push(token_at(s, i)), errors: st.errors, open: st.open }
        } else {
            st
        }
    }
}

/// The token sequence that lexing all of `s` emits.
pub open spec fn lex_tokens(s: Seq<char>) -> Seq<Token> {
    scan(s, s.len() as int).tokens
}

/// The full error list of lexing `s`: the errors recorded in scan order,
/// followed by one MissingEnd error per loop start never closed, in the order
/// they were opened.
pub open spec fn lex_errors(s: Seq<char>) -> Seq<SyntaxError> {
    let st = scan(s, s.len() as int);
    st.errors + st.open.map_values(|loc: SourceLocation| err_at(loc, LoopError::MissingEnd))
}

/// Generates a vector of tokens from the raw source code, or the list of
/// loop-structure errors when the loop delimiters do not balance.
pub fn lex(source: &str) -> (r: Result<Vec<Token>, Vec<SyntaxError>>)
    requires
        source@.len() < 0xffff_ffff,
    ensures
        match r {
            Ok(tokens) => lex_errors(source@) =~= Seq::<SyntaxError>::empty() && tokens@
                == lex_tokens(source@),
            Err(errors) => errors@ == lex_errors(source@) && errors@.len() > 0,
        },
{
    let len = source.unicode_len();
    let mut tokens: Vec<Token> = Vec::new();
    let mut errors: Vec<SyntaxError> = Vec::new();

    // The current location of the lexer in the source code. Used to map the
    // tokens to source positions for error reporting.
    let mut source_location = SourceLocation { line: 1, column: 1 };
    // The loop starts that are currently open. Used to check for missing
    // opening or closing symbols.
    let mut open_loops: Vec<SourceLocation> = Vec::new();

    let mut i: usize = 0;
    while i < len
        invariant
            len == source@.len(),
            source@.len() < 0xffff_ffff,
            i <= len,
            source_location == loc_at(source@, i as int),
            tokens@ == scan(source@, i as int).tokens,
            errors@ == scan(source@, i as int).errors,
            open_loops@ == scan(source@, i as int).open,
        decreases len - i,
    {
        let symbol = source.get_char(i);
        match symbol {
            '>' => tokens.push(Token::MoveRight(source_location)),
            '<' => tokens.push(Token::MoveLeft(source_location)),
            '+' => tokens.push(Token::Increment(source_location)),
            '-' => tokens.push(Token::Decrement(source_location)),
            '.' => tokens.push(Token::Write(source_location)),
            ',' => tokens.push(Token::Read(source_location)),
            '[' => {
                open_loops.push(source_location);
                tokens.push(Token::LoopStart(source_location));
            },
            ']' => {
                if open_loops.len() == 0 {
                    errors.push(
                        SyntaxError::from_source_location(
                            &source_location,
                            LoopError::MissingStart,
                        ),
                    );
                } else {
                    open_loops.pop();
                    tokens.push(Token::LoopEnd(source_location));
                }
            },
            _ => {},
        }
        proof {
            lemma_loc_bounds(source@, i as int);
        }
        if symbol == '\n' {
            source_location = SourceLocation { line: source_location.line + 1, column: 1 };
        } else {
            source_location =
            SourceLocation { line: source_location.line, column: source_location.column + 1 };
        }
        i += 1;
    }

    let ghost base = scan(source@, source@.len() as int);
    let open_count = open_loops.len();
    let mut j: usize = 0;
    while j < open_count
        invariant
            open_count == open_loops.len(),
            j <= open_count,
            open_loops@ == base.open,
            tokens@ == base.tokens,
            errors@ == base.errors + base.open.subrange(0, j as int).map_values(
                |loc: SourceLocation| err_at(loc, LoopError::MissingEnd),
            ),
        decreases open_count - j,
    {
        let e = SyntaxError::from_source_location(&open_loops[j], LoopError::MissingEnd);
        errors.push(e);
        proof {
            let f = (|loc: SourceLocation| err_at(loc, LoopError::MissingEnd));
            assert(base.open.subrange(0, j as int + 1) =~= base.open.subrange(0, j as int).push(
                base.open[j as int],
            ));
            assert(base.open.subrange(0, j as int + 1).map_values(f) =~= base.open.subrange(
                0,
                j as int,
            ).map_values(f).push(err_at(base.open[j as int], LoopError::MissingEnd)));
        }
        j += 1;
    }
    proof {
        assert(base.open.subrange(0, base.open.len() as int) =~= base.open);
        assert(errors@ =~= lex_errors(source@));
    }

    if errors.len() == 0 {
        Ok(tokens)
    } else {
        Err(errors)
    }
}

/// The tag of a token, independent of the source location it carries. Two
/// tokens form a run exactly when their kinds are equal.
#[derive(Clone, Copy, Debug, PartialEq, Eq, Structural)]
pub enum TokenKind {
    MoveRight,
    MoveLeft,
    Increment,
    Decrement,
    Write,
    Read,
    LoopStart,
    LoopEnd,
}

/// The kind of a token, with the carried location stripped.
pub open spec fn kind(t: Token) -> TokenKind {
    match t {
        Token::MoveRight(_) => TokenKind::MoveRight,
        Token::MoveLeft(_) => TokenKind::MoveLeft,
        Token::Increment(_) => TokenKind::Increment,
        Token::Decrement(_) => TokenKind::Decrement,
        Token::Write(_) => TokenKind::Write,
        Token::Read(_) => TokenKind::Read,
        Token::LoopStart(_) => TokenKind::LoopStart,
        Token::LoopEnd(_) => TokenKind::LoopEnd,
    }
}

/// The source location a token carries.
pub open spec fn token_loc(t: Token) -> SourceLocation {
    match t {
        Token::MoveRight(loc) => loc,
        Token::MoveLeft(loc) => loc,
        Token::Increment(loc) => loc,
        Token::Decrement(loc) => loc,
        Token::Write(loc) => loc,
        Token::Read(loc) => loc,
        Token::LoopStart(loc) => loc,
        Token::LoopEnd(loc) => loc,
    }
}

/// Extracts the kind of a token, so that runs of like tokens can be detected
/// without comparing the locations they carry.
pub fn token_kind(t: &Token) -> (k: TokenKind)
    ensures
        k == kind(*t),
{
    match t {
        Token::MoveRight(_) => TokenKind::MoveRight,
        Token::MoveLeft(_) => TokenKind::MoveLeft,
        Token::Increment(_) => TokenKind::Increment,
        Token::Decrement(_) => TokenKind::Decrement,
        Token::Write(_) => TokenKind::Write,
        Token::Read(_) => TokenKind::Read,
        Token::LoopStart(_) => TokenKind::LoopStart,
        Token::LoopEnd(_) => TokenKind::LoopEnd,
    }
}

/// The length of the run of same-kind tokens at the start of `s`.
pub open spec fn run_len(s: Seq<Token>) -> int
    decreases s.len(),
{
    if s.len() == 0 {
        0
    } else if s.len() >= 2 && kind(s[1]) == kind(s[0]) {
        1 + run_len(s.skip(1))
    } else {
        1
    }
}

/// The run at the start of a non-empty sequence has between 1 and `s.len()`
/// tokens, all of the first token's kind, and ends just before the first
/// token of another kind.
pub proof fn lemma_run_len_props(s: Seq<Token>)
    requires
        s.len() > 0,
    ensures
        1 <= run_len(s) <= s.len(),
        forall|k: int| 0 <= k < run_len(s) ==> #[trigger] kind(s[k]) == kind(s[0]),
        run_len(s) < s.len() ==> kind(s[run_len(s)]) != kind(s[0]),
    decreases s.len(),
{
    if s.len() >= 2 && kind(s[1]) == kind(s[0]) {
        lemma_run_len_props(s.skip(1));
        assert forall|k: int| 0 <= k < run_len(s) implies #[trigger] kind(s[k]) == kind(s[0]) by {
            if k >= 1 {
                assert(s.skip(1)[k - 1] == s[k]);
            }
        }
        if run_len(s) < s.len() {
            assert(s.skip(1)[run_len(s) - 1] == s[run_len(s)]);
        }
    }
}

/// A position that sees only same-kind tokens before it, and a token of
/// another kind (or the end) at it, is exactly the run length.
pub proof fn lemma_run_len_is(s: Seq<Token>, j: int)
    requires
        s.len() > 0,
        1 <= j <= s.len(),
        forall|k: int| 0 <= k < j ==> #[trigger] kind(s[k]) == kind(s[0]),
        j < s.len() ==> kind(s[j]) != kind(s[0]),
    ensures
        run_len(s) == j,
    decreases s.len(),
{
    if j >= 2 {
        assert(kind(s[1]) == kind(s[0]));
        assert forall|k: int| 0 <= k < j - 1 implies #[trigger] kind(s.skip(1)[k]) == kind(s.skip(1)[0]) by {
            assert(s.skip(1)[k] == s[k + 1]);
            assert(s.skip(1)[0] == s[1]);
        }
        if j - 1 < s.len() - 1 {
            assert(s.skip(1)[j - 1] == s[j]);
        }
        lemma_run_len_is(s.skip(1), j - 1);
    } else {
        if s.len() >= 2 {
            assert(kind(s[1]) != kind(s[0]));
        }
    }
}

/// Count the number of consecutive tokens of the same kind from the beginning
/// of the slice.
pub fn count_repeated(tokens: &[Token]) -> (count: usize)
    requires
        tokens@.len() > 0,
    ensures
        count == run_len(tokens@),
{
    let first = token_kind(slice_index_get(tokens, 0));
    let n: usize = tokens.len();
    let mut j: usize = 1;
    while j < n
        invariant
            n == tokens@.len(),
            n > 0,
            1 <= j <= n,
            first == kind(tokens@[0]),
            forall|k: int| 0 <= k < j ==> #[trigger] kind(tokens@[k]) == kind(tokens@[0]),
        ensures
            1 <= j <= n,
            forall|k: int| 0 <= k < j ==> #[trigger] kind(tokens@[k]) == kind(tokens@[0]),
            j < n ==> kind(tokens@[j as int]) != kind(tokens@[0]),
        decreases n - j,
    {
        let kj = token_kind(slice_index_get(tokens, j));
        if kj != first {
            break ;
        }
        j += 1;
    }
    proof {
        lemma_run_len_is(tokens@, j as int);
    }
    j
}

/// The index of the loop end matching an already-open loop, scanning from `j`
/// with `depth` nested loops still to close before ours; -1 when the sequence
/// runs out first.
pub open spec fn find_end(s: Seq<Token>, j: int, depth: int) -> int
    decreases s.len() - j,
{
    if j < 0 || j >= s.len() {
        -1
    } else if kind(s[j]) == TokenKind::LoopStart {
        find_end(s, j + 1, depth + 1)
    } else if kind(s[j]) == TokenKind::LoopEnd {
        if depth == 0 {
            j
        } else {
            find_end(s, j + 1, depth - 1)
        }
    } else {
        find_end(s, j + 1, depth)
    }
}

/// A successful bracket scan lands in range, on a loop-end token.
pub proof fn lemma_find_end_props(s: Seq<Token>, j: int, depth: int)
    requires
        0 <= j,
    ensures
        find_end(s, j, depth) == -1 || (j <= find_end(s, j, depth) < s.len() && kind(
            s[find_end(s, j, depth)],
        ) == TokenKind::LoopEnd),
    decreases s.len() - j,
{
    if j < s.len() {
        lemma_find_end_props(s, j + 1, depth + 1);
        lemma_find_end_props(s, j + 1, depth - 1);
        lemma_find_end_props(s, j + 1, depth);
    }
}

/// Scanning a suffix is the same as scanning the whole sequence from the
/// shifted position.
pub proof fn lemma_find_end_shift(s: Seq<Token>, cut: int, j: int, depth: int)
    requires
        0 <= cut <= s.len(),
        0 <= j,
    ensures
        find_end(s.skip(cut), j, depth) == if find_end(s, cut + j, depth) == -1 {
            -1int
        } else {
            find_end(s, cut + j, depth) - cut
        },
    decreases s.len() - cut - j,
{
    if cut + j < s.len() {
        assert(s.skip(cut)[j] == s[cut + j]);
        lemma_find_end_shift(s, cut, j + 1, depth + 1);
        lemma_find_end_shift(s, cut, j + 1, depth - 1);
        lemma_find_end_shift(s, cut, j + 1, depth);
    }
}

/// Find the corresponding closing end of a given opening end of a loop.
pub fn end_loop_index(tokens: &[Token], start_loop_index: usize) -> (r: Result<usize, LoopError>)
    requires
        start_loop_index < tokens@.len(),
    ensures
        match r {
            Ok(e) => e == find_end(tokens@, start_loop_index + 1, 0) && start_loop_index < e
                < tokens@.len() && kind(tokens@[e as int]) == TokenKind::LoopEnd,
            Err(le) => le == LoopError::MissingEnd && find_end(tokens@, start_loop_index + 1, 0)
                == -1,
        },
{
    let n: usize = tokens.len();
    let mut loop_stack: usize = 0;
    let mut index = start_loop_index + 1;
    while index < n
        invariant
            n == tokens@.len(),
            start_loop_index + 1 <= index <= n,
            loop_stack < index,
            find_end(tokens@, start_loop_index + 1, 0) == find_end(
                tokens@,
                index as int,
                loop_stack as int,
            ),
        decreases n - index,
    {
        let k = token_kind(slice_index_get(tokens, index));
        if k == TokenKind::LoopStart {
            loop_stack += 1;
        } else if k == TokenKind::LoopEnd {
            if loop_stack == 0 {
                return Ok(index);
            }
            loop_stack -= 1;
        }
        index += 1;
    }
    Err(LoopError::MissingEnd)
}

/// The instruction options for the intermediate representation of the source
/// code. A count is a positive number of run-length-collapsed repetitions;
/// Read carries no count because each read consumes exactly one input byte.
#[derive(Debug)]
pub enum Instruction {
    MoveRight(usize),
    MoveLeft(usize),
    Increment(usize),
    Decrement(usize),
    Write(usize),
    Read,
    Loop(Vec<Instruction>),
}

/// The mathematical shape of an instruction tree: counts as unbounded
/// integers and loop bodies as sequences.
pub enum Inst {
    MoveRight(int),
    MoveLeft(int),
    Increment(int),
    Decrement(int),
    Write(int),
    Read,
    Loop(Seq<Inst>),
}

/// The mathematical shape of an instruction, loop bodies included.
pub open spec fn inst_view(i: Instruction) -> Inst
    decreases i,
    via inst_view_decreases
{
    match i {
        Instruction::MoveRight(n) => Inst::MoveRight(n as int),
        Instruction::MoveLeft(n) => Inst::MoveLeft(n as int),
        Instruction::Increment(n) => Inst::Increment(n as int),
        Instruction::Decrement(n) => Inst::Decrement(n as int),
        Instruction::Write(n) => Inst::Write(n as int),
        Instruction::Read => Inst::Read,
        Instruction::Loop(body) => Inst::Loop(
            Seq::new(
                body@.len(),
                |k: int|
                    if 0 <= k < body@.len() {
                        inst_view(body@[k])
                    } else {
                        Inst::Read
                    },
            ),
        ),
    }
}

#[via_fn]
proof fn inst_view_decreases(i: Instruction) {
    broadcast use vstd::std_specs::vec::group_vec_axioms;
    broadcast use vstd::seq::group_seq_axioms;

    match i {
        Instruction::Loop(body) => {
            assert forall|k: int| 0 <= k < body@.len() implies (decreases_to!(i => body@[k])) by {
                assert(decreases_to!(i => body));
                assert(decreases_to!(body => body@));
                assert(decreases_to!(body@ => body@[k]));
            }
        },
        _ => {},
    }
}

impl DeepView for Instruction {
    type V = Inst;

    open spec fn deep_view(&self) -> Inst {
        inst_view(*self)
    }
}

/// The shape of a loop instruction is a loop of the shapes of its body.
pub proof fn lemma_loop_view(body: &Vec<Instruction>)
    ensures
        inst_view(Instruction::Loop(*body)) == Inst::Loop(body.deep_view()),
{
    let shape = inst_view(Instruction::Loop(*body));
    match shape {
        Inst::Loop(sq) => {
            assert(sq =~= body.deep_view());
        },
        _ => {
            assert(false);
        },
    }
}

/// What parsing `s` produces: the instruction sequence, or the first
/// structural error. A loop consumes everything up to and including its
/// matching end; a read consumes one token; any other command consumes its
/// whole run and carries the run length as its count.
pub open spec fn parse_spec(s: Seq<Token>) -> Result<Seq<Inst>, SyntaxError>
    decreases s.len(),
    via parse_spec_decreases
{
    if s.len() == 0 {
        Ok(Seq::empty())
    } else {
        let k = kind(s[0]);
        if k == TokenKind::LoopEnd {
            Err(err_at(token_loc(s[0]), LoopError::MissingStart))
        } else if k == TokenKind::LoopStart {
            let e = find_end(s, 1, 0);
            if e < 0 {
                Err(err_at(token_loc(s[0]), LoopError::MissingEnd))
            } else {
                match parse_spec(s.subrange(1, e)) {
                    Err(er) => Err(er),
                    Ok(body) => match parse_spec(s.skip(e + 1)) {
                        Err(er) => Err(er),
                        Ok(rest) => Ok(seq![Inst::Loop(body)] + rest),
                    },
                }
            }
        } else {
            let n = if k == TokenKind::Read {
                1
            } else {
                run_len(s)
            };
            let first = if k == TokenKind::MoveRight {
                Inst::MoveRight(n)
            } else if k == TokenKind::MoveLeft {
                Inst::MoveLeft(n)
            } else if k == TokenKind::Increment {
                Inst::Increment(n)
            } else if k == TokenKind::Decrement {
                Inst::Decrement(n)
            } else if k == TokenKind::Write {
                Inst::Write(n)
            } else {
                Inst::Read
            };
            match parse_spec(s.skip(n)) {
                Err(er) => Err(er),
                Ok(rest) => Ok(seq![first] + rest),
            }
        }
    }
}

#[via_fn]
proof fn parse_spec_decreases(s: Seq<Token>) {
    if s.len() > 0 {
        if kind(s[0]) == TokenKind::LoopStart {
            lemma_find_end_props(s, 1, 0);
        } else {
            lemma_run_len_props(s);
        }
    }
}

/// One parsing step: after consuming `advance` tokens of `u` and emitting the
/// last instruction of `instrs`, parsing the remaining suffix accounts for
/// parsing the whole of `u`.
spec fn step_fact(u: Seq<Token>, advance: int, instrs: Seq<Instruction>) -> bool {
    instrs.len() > 0 && match parse_spec(u.skip(advance)) {
        Ok(rest) => parse_spec(u) == Ok::<Seq<Inst>, SyntaxError>(
            seq![inst_view(instrs.last())] + rest,
        ),
        Err(er) => parse_spec(u) == Err::<Seq<Inst>, SyntaxError>(er),
    }
}

/// Generates a vector of instructions from the vector of tokens.
#[verifier::rlimit(60)]
pub fn parse(tokens: Vec<Token>) -> (r: Result<Vec<Instruction>, SyntaxError>)
    ensures
        match r {
            Ok(instructions) => parse_spec(tokens@) == Ok::<Seq<Inst>, SyntaxError>(
                instructions.deep_view(),
            ),
            Err(error) => parse_spec(tokens@) == Err::<Seq<Inst>, SyntaxError>(error),
        },
    decreases tokens@.len(),
{
    let mut instructions: Vec<Instruction> = Vec::new();
    let mut index: usize = 0;
    proof {
        assert(tokens@.skip(0) =~= tokens@);
        match parse_spec(tokens@) {
            Ok(rest) => {
                assert(instructions.deep_view() + rest =~= rest);
            },
            Err(_) => {},
        }
    }
    while index < tokens.len()
        invariant
            index <= tokens@.len(),
            match parse_spec(tokens@.skip(index as int)) {
                Ok(rest) => parse_spec(tokens@) == Ok::<Seq<Inst>, SyntaxError>(
                    instructions.deep_view() + rest,
                ),
                Err(er) => parse_spec(tokens@) == Err::<Seq<Inst>, SyntaxError>(er),
            },
        decreases tokens@.len() - index,
    {
        let ghost u = tokens@.skip(index as int);
        let ghost prev_instrs = instructions.deep_view();
        proof {
            lemma_run_len_props(u);
            assert(u[0] == tokens@[index as int]);
        }
        let remainder = slice_subrange(tokens.as_slice(), index, tokens.len());
        proof {
            assert(remainder@ =~= u);
        }
        let count = count_repeated(remainder);
        let token = tokens[index];
        let advance: usize;
        match token {
            Token::MoveRight(_) => {
                instructions.push(Instruction::MoveRight(count));
                advance = count;
                proof {
                    assert(step_fact(u, advance as int, instructions@));
                }
            },
            Token::MoveLeft(_) => {
                instructions.push(Instruction::MoveLeft(count));
                advance = count;
                proof {
                    assert(step_fact(u, advance as int, instructions@));
                }
            },
            Token::Increment(_) => {
                instructions.push(Instruction::Increment(count));
                advance = count;
                proof {
                    assert(step_fact(u, advance as int, instructions@));
                }
            },
            Token::Decrement(_) => {
                instructions.push(Instruction::Decrement(count));
                advance = count;
                proof {
                    assert(step_fact(u, advance as int, instructions@));
                }
            },
            Token::Write(_) => {
                instructions.push(Instruction::Write(count));
                advance = count;
                proof {
                    assert(step_fact(u, advance as int, instructions@));
                }
            },
            Token::Read(_) => {
                instructions.push(Instruction::Read);
                advance = 1;
                proof {
                    assert(step_fact(u, advance as int, instructions@));
                }
            },
            Token::LoopStart(source_location) => {
                proof {
                    lemma_find_end_shift(tokens@, index as int, 1, 0);
                }
                match end_loop_index(tokens.as_slice(), index) {
                    Err(le) => {
                        proof {
                            assert(parse_spec(u) == Err::<Seq<Inst>, SyntaxError>(
                                err_at(source_location, LoopError::MissingEnd),
                            ));
                        }
                        return Err(SyntaxError::from_source_location(&source_location, le));
                    },
                    Ok(end_index) => {
                        let content_slice = slice_subrange(
                            tokens.as_slice(),
                            index + 1,
                            end_index,
                        );
                        let loop_content = slice_to_vec(content_slice);
                        proof {
                            assert(loop_content@ =~= u.subrange(1, end_index - index as int));
                        }
                        match parse(loop_content) {
                            Err(er) => {
                                proof {
                                    assert(parse_spec(u) == Err::<Seq<Inst>, SyntaxError>(er));
                                }
                                return Err(er);
                            },
                            Ok(body) => {
                                proof {
                                    lemma_loop_view(&body);
                                }
                                instructions.push(Instruction::Loop(body));
                                advance = end_index + 1 - index;
                                proof {
                                    let e = end_index - index as int;
                                    assert(find_end(u, 1, 0) == e);
                                    assert(u.skip(advance as int) =~= u.skip(e + 1));
                                    assert(step_fact(u, advance as int, instructions@));
                                }
                            },
                        }
                    },
                }
            },
            Token::LoopEnd(source_location) => {
                proof {
                    assert(parse_spec(u) == Err::<Seq<Inst>, SyntaxError>(
                        err_at(source_location, LoopError::MissingStart),
                    ));
                }
                return Err(
                    SyntaxError::from_source_location(&source_location, LoopError::MissingStart),
                );
            },
        }
        proof {
            let v = tokens@.skip(index as int + advance as int);
            assert(u.skip(advance as int) =~= v);
            let last = inst_view(instructions@.last());
            assert(instructions.deep_view() =~= prev_instrs.push(last));
            match parse_spec(v) {
                Ok(rest) => {
                    assert(prev_instrs + (seq![last] + rest) =~= instructions.deep_view() + rest);
                },
                Err(er) => {},
            }
        }
        index += advance;
    }
    proof {
        assert(tokens@.skip(index as int) =~= Seq::<Token>::empty());
        assert(instructions.deep_view() + Seq::<Inst>::empty() =~= instructions.deep_view());
    }
    Ok(instructions)
}

} // verus!
