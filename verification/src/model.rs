//! Mathematical model of the lexer.
//!
//! The lexer's behavior is defined here as a pure state machine over the
//! input character sequence: `spec_next` gives the result of one pull
//! (one token, end of input, or an error), and `spec_lex_from` runs the
//! machine to completion.  The executable lexer's contracts are stated
//! against these functions, so the token sequence of every input is pinned
//! down exactly.

use crate::token::{LexicalError, TokModel};
use vstd::prelude::*;

verus! {

/// A decimal digit.
pub open spec fn is_digit_char(c: char) -> bool {
    '0' <= c && c <= '9'
}

/// A lowercase ASCII letter, the only identifier characters in scope.
pub open spec fn is_letter_char(c: char) -> bool {
    'a' <= c && c <= 'z'
}

/// Numeric value of a digit character.
pub open spec fn digit_val(c: char) -> int {
    c as int - '0' as int
}

/// Length of the maximal run of characters satisfying `f`, starting at `p`.
pub open spec fn run_len(s: Seq<char>, p: int, f: spec_fn(char) -> bool) -> int
    decreases s.len() - p,
    when 0 <= p <= s.len()
{
    if p < s.len() && f(s[p]) {
        1 + run_len(s, p + 1, f)
    } else {
        0
    }
}

/// The characteristic facts about `run_len`: it is a maximal run.
pub proof fn lemma_run_len(s: Seq<char>, p: int, f: spec_fn(char) -> bool)
    requires
        0 <= p <= s.len(),
    ensures
        0 <= run_len(s, p, f),
        p + run_len(s, p, f) <= s.len(),
        forall|i: int| p <= i < p + run_len(s, p, f) ==> f(s[i]),
        p + run_len(s, p, f) < s.len() ==> !f(s[p + run_len(s, p, f)]),
    decreases s.len() - p,
{
    if p < s.len() && f(s[p]) {
        lemma_run_len(s, p + 1, f);
    }
}

/// A run over characters that all satisfy `f` extends to the end of the
/// input.
pub proof fn lemma_run_len_full(s: Seq<char>, p: int, f: spec_fn(char) -> bool)
    requires
        0 <= p <= s.len(),
        forall|i: int| p <= i < s.len() ==> f(s[i]),
    ensures
        run_len(s, p, f) == s.len() - p,
    decreases s.len() - p,
{
    if p < s.len() {
        lemma_run_len_full(s, p + 1, f);
    }
}

/// Length of the run of spaces starting at `p`.
pub open spec fn space_run(s: Seq<char>, p: int) -> int {
    run_len(s, p, |c: char| c == ' ')
}

pub proof fn lemma_space_run(s: Seq<char>, p: int)
    requires
        0 <= p <= s.len(),
    ensures
        0 <= space_run(s, p),
        p + space_run(s, p) <= s.len(),
        forall|i: int| p <= i < p + space_run(s, p) ==> s[i] == ' ',
        p + space_run(s, p) < s.len() ==> s[p + space_run(s, p)] != ' ',
{
    lemma_run_len(s, p, |c: char| c == ' ');
}

/// Length of the run of digits starting at `p`.
pub open spec fn digit_run(s: Seq<char>, p: int) -> int {
    run_len(s, p, |c: char| is_digit_char(c))
}

pub proof fn lemma_digit_run(s: Seq<char>, p: int)
    requires
        0 <= p <= s.len(),
    ensures
        0 <= digit_run(s, p),
        p + digit_run(s, p) <= s.len(),
        forall|i: int| p <= i < p + digit_run(s, p) ==> is_digit_char(s[i]),
        p + digit_run(s, p) < s.len() ==> !is_digit_char(s[p + digit_run(s, p)]),
        p < s.len() && is_digit_char(s[p]) ==> digit_run(s, p) >= 1,
{
    lemma_run_len(s, p, |c: char| is_digit_char(c));
}

/// Length of the run of lowercase letters starting at `p`.
pub open spec fn letter_run(s: Seq<char>, p: int) -> int {
    run_len(s, p, |c: char| is_letter_char(c))
}

pub proof fn lemma_letter_run(s: Seq<char>, p: int)
    requires
        0 <= p <= s.len(),
    ensures
        0 <= letter_run(s, p),
        p + letter_run(s, p) <= s.len(),
        forall|i: int| p <= i < p + letter_run(s, p) ==> is_letter_char(s[i]),
        p + letter_run(s, p) < s.len() ==> !is_letter_char(s[p + letter_run(s, p)]),
        p < s.len() && is_letter_char(s[p]) ==> letter_run(s, p) >= 1,
{
    lemma_run_len(s, p, |c: char| is_letter_char(c));
}

/// Number of characters a comment consumes after its `#`: everything up to
/// and including the next newline, or to the end of the input.
pub open spec fn line_skip(s: Seq<char>, p: int) -> int
    decreases s.len() - p,
    when 0 <= p <= s.len()
{
    if p == s.len() {
        0
    } else if s[p] == '\n' {
        1
    } else {
        1 + line_skip(s, p + 1)
    }
}

pub proof fn lemma_line_skip(s: Seq<char>, p: int)
    requires
        0 <= p <= s.len(),
    ensures
        0 <= line_skip(s, p),
        p + line_skip(s, p) <= s.len(),
    decreases s.len() - p,
{
    if p < s.len() && s[p] != '\n' {
        lemma_line_skip(s, p + 1);
    }
}

/// Position of the first occurrence of the quote character `q` at or after
/// `p`, if any.
pub open spec fn close_quote(s: Seq<char>, p: int, q: char) -> Option<int>
    decreases s.len() - p,
    when 0 <= p <= s.len()
{
    if p == s.len() {
        Option::None
    } else if s[p] == q {
        Option::Some(p)
    } else {
        close_quote(s, p + 1, q)
    }
}

pub proof fn lemma_close_quote(s: Seq<char>, p: int, q: char)
    requires
        0 <= p <= s.len(),
    ensures
        close_quote(s, p, q) matches Option::Some(j) ==> p <= j < s.len() && s[j] == q,
    decreases s.len() - p,
{
    if p < s.len() && s[p] != q {
        lemma_close_quote(s, p + 1, q);
    }
}

/// A quote found after a quote-free stretch is the close quote.
pub proof fn lemma_close_quote_found(s: Seq<char>, p: int, j: int, q: char)
    requires
        0 <= p <= j < s.len(),
        s[j] == q,
        forall|i: int| p <= i < j ==> s[i] != q,
    ensures
        close_quote(s, p, q) == Option::Some(j),
    decreases j - p,
{
    if s[p] != q {
        lemma_close_quote_found(s, p + 1, j, q);
    }
}

/// Input without the quote character has no close quote.
pub proof fn lemma_close_quote_none(s: Seq<char>, p: int, q: char)
    requires
        0 <= p <= s.len(),
        forall|i: int| p <= i < s.len() ==> s[i] != q,
    ensures
        close_quote(s, p, q) is None,
    decreases s.len() - p,
{
    if p < s.len() {
        lemma_close_quote_none(s, p + 1, q);
    }
}

/// A comment runs exactly through the first newline after it.
pub proof fn lemma_line_skip_found(s: Seq<char>, p: int, j: int)
    requires
        0 <= p <= j < s.len(),
        s[j] == '\n',
        forall|i: int| p <= i < j ==> s[i] != '\n',
    ensures
        line_skip(s, p) == j + 1 - p,
    decreases j - p,
{
    if s[p] != '\n' {
        lemma_line_skip_found(s, p + 1, j);
    }
}

/// A comment on the last line runs to the end of the input.
pub proof fn lemma_line_skip_none(s: Seq<char>, p: int)
    requires
        0 <= p <= s.len(),
        forall|i: int| p <= i < s.len() ==> s[i] != '\n',
    ensures
        line_skip(s, p) == s.len() - p,
    decreases s.len() - p,
{
    if p < s.len() {
        lemma_line_skip_none(s, p + 1);
    }
}

/// Value of a run of digit characters read as a decimal number.
pub open spec fn digits_value(s: Seq<char>) -> int
    decreases s.len(),
{
    if s.len() == 0 {
        0
    } else {
        digits_value(s.drop_last()) * 10 + digit_val(s.last())
    }
}

/// The value of a digit run is nonnegative.
pub proof fn lemma_digits_value_nonneg(s: Seq<char>)
    requires
        forall|i: int| 0 <= i < s.len() ==> is_digit_char(s[i]),
    ensures
        digits_value(s) >= 0,
    decreases s.len(),
{
    if s.len() > 0 {
        assert(forall|i: int| 0 <= i < s.drop_last().len() ==> is_digit_char(
            s.drop_last()[i],
        ));
        lemma_digits_value_nonneg(s.drop_last());
    }
}

/// Extending a digit run never decreases its value.
pub proof fn lemma_digits_value_prefix(s: Seq<char>, k: int)
    requires
        0 <= k <= s.len(),
        forall|i: int| 0 <= i < s.len() ==> is_digit_char(s[i]),
    ensures
        digits_value(s.subrange(0, k)) <= digits_value(s),
    decreases s.len() - k,
{
    if k < s.len() {
        lemma_digits_value_prefix(s, k + 1);
        let a = s.subrange(0, k);
        let b = s.subrange(0, k + 1);
        assert(b.drop_last() =~= a);
        assert(b.last() == s[k]);
        lemma_digits_value_nonneg(a);
        assert(digits_value(b) == digits_value(a) * 10 + digit_val(s[k]));
        assert(digits_value(a) * 10 >= digits_value(a)) by (nonlinear_arith)
            requires digits_value(a) >= 0;
    } else {
        assert(s.subrange(0, k) =~= s);
    }
}

/// The reserved words of the language, as a pure mapping from identifier
/// text to its keyword token.
pub open spec fn keyword_of(s: Seq<char>) -> Option<TokModel> {
    if s.len() == 3 && s[0] == 'f' && s[1] == 'o' && s[2] == 'r' {
        Option::Some(TokModel::For)
    } else if s.len() == 2 && s[0] == 'i' && s[1] == 'n' {
        Option::Some(TokModel::In)
    } else if s.len() == 2 && s[0] == 'i' && s[1] == 'f' {
        Option::Some(TokModel::If)
    } else {
        Option::None
    }
}

/// Number of entries kept when the indentation stack is unwound to width
/// `w`: entries greater than `w` are popped from the top.
pub open spec fn keep_count(stack: Seq<int>, w: int) -> int
    decreases stack.len(),
{
    if stack.len() == 0 {
        0
    } else if stack.last() <= w {
        stack.len() as int
    } else {
        keep_count(stack.drop_last(), w)
    }
}

pub proof fn lemma_keep_count(stack: Seq<int>, w: int)
    ensures
        0 <= keep_count(stack, w) <= stack.len(),
        forall|i: int| keep_count(stack, w) <= i < stack.len() ==> stack[i] > w,
        keep_count(stack, w) > 0 ==> stack[keep_count(stack, w) - 1] <= w,
        stack.len() > 0 && stack[0] <= w ==> keep_count(stack, w) >= 1,
        stack.len() > 0 && stack.last() > w ==> keep_count(stack, w) < stack.len(),
    decreases stack.len(),
{
    if stack.len() > 0 && stack.last() > w {
        lemma_keep_count(stack.drop_last(), w);
        assert(forall|i: int| 0 <= i < stack.len() - 1 ==> stack[i] == stack.drop_last()[i]);
    }
}

/// `keep_count` is determined by a witness index: everything above it
/// popped, everything up to it kept.
pub proof fn lemma_keep_count_eq(stack: Seq<int>, w: int, m: int)
    requires
        1 <= m <= stack.len(),
        stack[m - 1] <= w,
        forall|i: int| m <= i < stack.len() ==> stack[i] > w,
    ensures
        keep_count(stack, w) == m,
    decreases stack.len(),
{
    if m < stack.len() {
        assert(stack.last() > w);
        assert(forall|i: int| 0 <= i < stack.len() - 1 ==> stack.drop_last()[i] == stack[i]);
        lemma_keep_count_eq(stack.drop_last(), w, m);
    }
}

/// The full state of the lexer, as a mathematical value.
#[verifier::ext_equal]
pub struct LexState {
    /// The source text.
    pub input: Seq<char>,
    /// Offset of the next unconsumed character; `input.len()` at end of
    /// input.
    pub pos: int,
    /// Whether the machine stands at the beginning of a logical line.
    pub bol: bool,
    /// Number of currently open bracket groups.
    pub nesting: int,
    /// The indentation stack: widths of currently open blocks, strictly
    /// increasing from bottom to top, with 0 at the bottom.
    pub stack: Seq<int>,
    /// Dedent tokens still owed from the last indentation comparison.
    pub pending: int,
}

/// Well-formedness of a lexer state.
pub open spec fn wf(st: LexState) -> bool {
    &&& 0 <= st.pos <= st.input.len()
    &&& 0 <= st.nesting <= st.pos
    &&& 0 <= st.pending
    &&& st.stack.len() >= 1
    &&& st.stack[0] == 0
    &&& forall|i: int, j: int| 0 <= i < j < st.stack.len() ==> st.stack[i] < st.stack[j]
    &&& forall|i: int| 0 <= i < st.stack.len() ==> st.stack[i] <= st.pos
}

/// The state a freshly constructed lexer starts in.
pub open spec fn init_state(s: Seq<char>) -> LexState {
    LexState { input: s, pos: 0, bol: true, nesting: 0, stack: seq![0int], pending: 0 }
}

/// The result of one pull on the lexer.
pub enum Step {
    /// A token with its span, and the state the machine is left in.
    Emit { next: LexState, start: int, tok: TokModel, end: int },
    /// End of input, with the machine's final state.
    End { at: LexState },
    /// A lexical error; the sequence is terminated at this position.
    Fail { err: LexicalError },
}

/// One pull on the lexer: produce the next token, the end-of-input signal,
/// or an error.  Mirrors the executable `Lexer::next_token` exactly.
pub open spec fn spec_next(st: LexState) -> Step
    decreases 2 * (st.input.len() - st.pos) + (if st.bol { 1int } else { 0int }),
    when 0 <= st.pos <= st.input.len()
{
    let s = st.input;
    if st.pending > 0 {
        // A dedent still owed from the last indentation comparison.
        Step::Emit {
            next: LexState { pending: st.pending - 1, ..st },
            start: st.pos,
            tok: TokModel::Dedent,
            end: st.pos,
        }
    } else if st.bol {
        // Count the indentation of this logical line.
        let col = space_run(s, st.pos);
        proof {
            lemma_space_run(s, st.pos);
        }
        let st1 = LexState { pos: st.pos + col, bol: false, ..st };
        if st.nesting == 0 {
            let top = st.stack.last();
            if col == top {
                spec_next(st1)
            } else if col > top {
                Step::Emit {
                    next: LexState { stack: st.stack.push(col), ..st1 },
                    start: st.pos,
                    tok: TokModel::Indent,
                    end: st.pos + col,
                }
            } else {
                let keep = keep_count(st.stack, col);
                if keep > 0 && st.stack[keep - 1] == col {
                    Step::Emit {
                        next: LexState {
                            stack: st.stack.subrange(0, keep),
                            pending: st.stack.len() - keep - 1,
                            ..st1
                        },
                        start: st.pos + col,
                        tok: TokModel::Dedent,
                        end: st.pos + col,
                    }
                } else {
                    Step::Fail {
                        err: LexicalError::InvalidIndentation {
                            offset: st.pos as usize,
                            width: col as usize,
                        },
                    }
                }
            }
        } else {
            spec_next(st1)
        }
    } else if st.pos == s.len() {
        if st.nesting == 0 {
            Step::End { at: st }
        } else {
            Step::Fail { err: LexicalError::UnclosedBracket { offset: st.pos as usize } }
        }
    } else {
        let c = s[st.pos];
        if is_digit_char(c) {
            let n = digit_run(s, st.pos);
            let v = digits_value(s.subrange(st.pos, st.pos + n));
            proof {
                lemma_digit_run(s, st.pos);
            }
            if v > i32::MAX as int {
                Step::Fail { err: LexicalError::NumericOverflow { offset: st.pos as usize } }
            } else {
                Step::Emit {
                    next: LexState { pos: st.pos + n, ..st },
                    start: st.pos,
                    tok: TokModel::Number { value: v },
                    end: st.pos + n,
                }
            }
        } else if is_letter_char(c) {
            let n = letter_run(s, st.pos);
            let text = s.subrange(st.pos, st.pos + n);
            let tok = match keyword_of(text) {
                Option::Some(k) => k,
                Option::None => TokModel::Name { name: text },
            };
            proof {
                lemma_letter_run(s, st.pos);
            }
            Step::Emit {
                next: LexState { pos: st.pos + n, ..st },
                start: st.pos,
                tok,
                end: st.pos + n,
            }
        } else if c == '#' {
            // A comment: discard through the end of the line.
            let skip = 1 + line_skip(s, st.pos + 1);
            proof {
                lemma_line_skip(s, st.pos + 1);
            }
            spec_next(LexState { pos: st.pos + skip, ..st })
        } else if c == '"' || c == '\'' {
            match close_quote(s, st.pos + 1, c) {
                Option::Some(q) => {
                    proof {
                        lemma_close_quote(s, st.pos + 1, c);
                    }
                    Step::Emit {
                        next: LexState { pos: q + 1, ..st },
                        start: st.pos,
                        tok: TokModel::String { value: s.subrange(st.pos + 1, q) },
                        end: q + 1,
                    }
                },
                Option::None => Step::Fail {
                    err: LexicalError::UnterminatedString { offset: st.pos as usize },
                },
            }
        } else if c == '=' {
            single_char_step(st, TokModel::Equal)
        } else if c == '+' {
            single_char_step(st, TokModel::Plus)
        } else if c == '-' {
            single_char_step(st, TokModel::Minus)
        } else if c == '*' {
            single_char_step(st, TokModel::Star)
        } else if c == '/' {
            single_char_step(st, TokModel::Slash)
        } else if c == ':' {
            single_char_step(st, TokModel::Colon)
        } else if c == ',' {
            single_char_step(st, TokModel::Comma)
        } else if c == '(' {
            Step::Emit {
                next: LexState { pos: st.pos + 1, nesting: st.nesting + 1, ..st },
                start: st.pos,
                tok: TokModel::Lpar,
                end: st.pos + 1,
            }
        } else if c == '[' {
            Step::Emit {
                next: LexState { pos: st.pos + 1, nesting: st.nesting + 1, ..st },
                start: st.pos,
                tok: TokModel::Lsqb,
                end: st.pos + 1,
            }
        } else if c == ')' {
            if st.nesting == 0 {
                Step::Fail { err: LexicalError::UnmatchedBracket { offset: st.pos as usize } }
            } else {
                Step::Emit {
                    next: LexState { pos: st.pos + 1, nesting: st.nesting - 1, ..st },
                    start: st.pos,
                    tok: TokModel::Rpar,
                    end: st.pos + 1,
                }
            }
        } else if c == ']' {
            if st.nesting == 0 {
                Step::Fail { err: LexicalError::UnmatchedBracket { offset: st.pos as usize } }
            } else {
                Step::Emit {
                    next: LexState { pos: st.pos + 1, nesting: st.nesting - 1, ..st },
                    start: st.pos,
                    tok: TokModel::Rsqb,
                    end: st.pos + 1,
                }
            }
        } else if c == '\n' {
            if st.nesting == 0 {
                Step::Emit {
                    next: LexState { pos: st.pos + 1, bol: true, ..st },
                    start: st.pos,
                    tok: TokModel::Newline,
                    end: st.pos + 1,
                }
            } else {
                // Newlines inside a bracket group are absorbed.
                spec_next(LexState { pos: st.pos + 1, ..st })
            }
        } else if c == ' ' {
            spec_next(LexState { pos: st.pos + 1, ..st })
        } else {
            Step::Fail {
                err: LexicalError::UnrecognizedCharacter { character: c, offset: st.pos as usize },
            }
        }
    }
}

/// The step a one-character operator or punctuation token takes.
pub open spec fn single_char_step(st: LexState, tok: TokModel) -> Step {
    Step::Emit {
        next: LexState { pos: st.pos + 1, ..st },
        start: st.pos,
        tok,
        end: st.pos + 1,
    }
}

/// How a token changes the nesting depth: opening brackets add one,
/// closing brackets remove one.
pub open spec fn bracket_delta(t: TokModel) -> int {
    match t {
        TokModel::Lpar => 1,
        TokModel::Lsqb => 1,
        TokModel::Rpar => -1,
        TokModel::Rsqb => -1,
        _ => 0,
    }
}

/// How a token changes the number of open blocks: `Indent` opens one,
/// `Dedent` closes one.
pub open spec fn struct_delta(t: TokModel) -> int {
    match t {
        TokModel::Indent => 1,
        TokModel::Dedent => -1,
        _ => 0,
    }
}

/// Termination measure for a full run of the machine: every emitted token
/// strictly decreases it.
pub open spec fn lex_measure(st: LexState) -> int {
    2 * (st.input.len() - st.pos) + (if st.bol {
        1int
    } else {
        0int
    }) + st.stack.len() + st.pending
}

/// The facts every single step preserves: a step keeps the state well
/// formed, never rewinds, strictly decreases the measure, moves the nesting
/// depth by the emitted token's bracket delta and the count of open blocks
/// by its structural delta, and attaches a valid span.
pub proof fn lemma_step(st: LexState)
    requires
        wf(st),
    ensures
        spec_next(st) matches Step::Emit { next, start, tok, end } ==> {
            &&& wf(next)
            &&& next.input == st.input
            &&& st.pos <= next.pos
            &&& lex_measure(next) < lex_measure(st)
            &&& next.nesting == st.nesting + bracket_delta(tok)
            &&& next.stack.len() + next.pending == st.stack.len() + st.pending + struct_delta(
                tok,
            )
            &&& 0 <= start <= end <= st.input.len()
        },
        spec_next(st) matches Step::End { at } ==> {
            &&& wf(at)
            &&& at.input == st.input
            &&& at.pos == st.input.len()
            &&& at.nesting == 0 && st.nesting == 0
            &&& at.stack == st.stack
            &&& at.pending == 0 && st.pending == 0
            &&& !at.bol
        },
    decreases 2 * (st.input.len() - st.pos) + (if st.bol {
        1int
    } else {
        0int
    }),
{
    let s = st.input;
    if st.pending > 0 {
    } else if st.bol {
        lemma_space_run(s, st.pos);
        let col = space_run(s, st.pos);
        let st1 = LexState { pos: st.pos + col, bol: false, ..st };
        assert(wf(st1));
        if st.nesting == 0 {
            let top = st.stack.last();
            if col == top {
                lemma_step(st1);
            } else if col > top {
                let next = LexState { stack: st.stack.push(col), ..st1 };
                assert forall|i: int| 0 <= i < st.stack.len() implies st.stack[i] <= top by {
                    if i < st.stack.len() - 1 {
                        assert(st.stack[i] < st.stack[st.stack.len() - 1]);
                    }
                }
                assert forall|i: int, j: int| 0 <= i < j < next.stack.len() implies next.stack[i]
                    < next.stack[j] by {
                    if j < st.stack.len() {
                        assert(st.stack[i] < st.stack[j]);
                    } else {
                        assert(next.stack[j] == col);
                        assert(st.stack[i] <= top);
                    }
                }
                assert(wf(next));
            } else {
                lemma_keep_count(st.stack, col);
                let keep = keep_count(st.stack, col);
                if keep > 0 && st.stack[keep - 1] == col {
                    let next = LexState {
                        stack: st.stack.subrange(0, keep),
                        pending: st.stack.len() - keep - 1,
                        ..st1
                    };
                    assert(st.stack.last() > col);
                    assert(keep < st.stack.len());
                    assert(wf(next));
                }
            }
        } else {
            lemma_step(st1);
        }
    } else if st.pos == s.len() {
    } else {
        let c = s[st.pos];
        if is_digit_char(c) {
            lemma_digit_run(s, st.pos);
        } else if is_letter_char(c) {
            lemma_letter_run(s, st.pos);
        } else if c == '#' {
            lemma_line_skip(s, st.pos + 1);
            let skip = 1 + line_skip(s, st.pos + 1);
            let st1 = LexState { pos: st.pos + skip, ..st };
            assert(wf(st1));
            lemma_step(st1);
        } else if c == '"' || c == '\'' {
            lemma_close_quote(s, st.pos + 1, c);
        } else if c == '\n' && st.nesting != 0 {
            lemma_step(LexState { pos: st.pos + 1, ..st });
        } else if c == ' ' {
            lemma_step(LexState { pos: st.pos + 1, ..st });
        }
    }
}

/// A spanned token: start offset, token, end offset.
pub type SpannedModel = (int, TokModel, int);

/// Run the machine from `st` to completion: the sequence of spanned tokens
/// it emits and its final state, or the error that terminates the sequence.
pub open spec fn spec_lex_from(st: LexState) -> Result<(Seq<SpannedModel>, LexState), LexicalError>
    decreases lex_measure(st),
    when wf(st)
{
    match spec_next(st) {
        Step::End { at } => Ok((Seq::empty(), at)),
        Step::Fail { err } => Err(err),
        Step::Emit { next, start, tok, end } => {
            proof {
                lemma_step(st);
            }
            match spec_lex_from(next) {
                Ok(pr) => Ok((seq![(start, tok, end)] + pr.0, pr.1)),
                Err(e) => Err(e),
            }
        },
    }
}

/// The tokens of a spanned sequence, spans dropped.
pub open spec fn toks_of(sp: Seq<SpannedModel>) -> Seq<TokModel> {
    sp.map(|i: int, t: SpannedModel| t.1)
}

/// The token sequence of a source text, spans dropped: what `lex_source`
/// returns.
pub open spec fn spec_tokens(s: Seq<char>) -> Result<Seq<TokModel>, LexicalError> {
    match spec_lex_from(init_state(s)) {
        Ok(pr) => Ok(toks_of(pr.0)),
        Err(e) => Err(e),
    }
}

} // verus!
