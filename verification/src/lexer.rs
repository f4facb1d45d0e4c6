//! The executable lexer.
//!
//! Each function's contract is stated against the state machine in the
//! `model` module: `next_token` performs exactly one `spec_next` step, and
//! `lex_source` returns exactly `spec_tokens` of the input.

use crate::model::{
    close_quote, digit_run, digit_val, digits_value, init_state, is_digit_char, is_letter_char,
    keyword_of, lemma_close_quote_found, lemma_close_quote_none, lemma_digit_run,
    lemma_digits_value_prefix, lemma_keep_count, lemma_keep_count_eq, lemma_letter_run,
    lemma_line_skip, lemma_line_skip_found, lemma_line_skip_none, lemma_space_run, lemma_step,
    letter_run, lex_measure, line_skip, space_run, spec_lex_from, spec_next, spec_tokens, toks_of,
    wf, LexState, SpannedModel, Step,
};
pub use crate::token::LexicalError;
use crate::token::{Tok, TokModel};
use vstd::prelude::*;
use vstd::string::StrSliceExecFns;

verus! {

/// A result in the token sequence: a token with its span, or a lexical
/// error.  Spans are pairs of character offsets `(start, end)` into the
/// source with `start <= end`; the synthetic `Dedent` token carries the
/// zero-width span at the position where the dedent was detected.
pub type Spanned = Result<(usize, Tok, usize), LexicalError>;

/// The lexer: a pull-based producer of tokens over one immutable source
/// text.  Construct it once per text with [`Lexer::new`] and drive it with
/// [`Lexer::next_token`] until it reports end of input.
///
/// A line holding only the end of the input counts as a line of
/// indentation width zero, so a text that ends with a newline closes its
/// open blocks with `Dedent` tokens; after a text that ends mid-line no
/// further synthetic dedents are emitted.
pub struct Lexer<'input> {
    /// The source text.
    chars: &'input str,
    /// Number of characters in the source text.
    length: usize,
    /// Offset of the next unconsumed character; stays at `length` once the
    /// input is exhausted.
    location: usize,
    /// Whether the next pull stands at the beginning of a logical line.
    at_begin_of_line: bool,
    /// Number of currently open bracket groups.
    nesting: usize,
    /// Widths of the currently open indentation levels.
    indentation_stack: Vec<usize>,
    /// Dedent tokens still owed from the last indentation comparison.
    pending_dedents: usize,
}

impl<'input> View for Lexer<'input> {
    type V = LexState;

    closed spec fn view(&self) -> LexState {
        LexState {
            input: self.chars@,
            pos: self.location as int,
            bol: self.at_begin_of_line,
            nesting: self.nesting as int,
            stack: self.indentation_stack@.map(|i: int, v: usize| v as int),
            pending: self.pending_dedents as int,
        }
    }
}

impl<'input> Lexer<'input> {
    /// The lexer's invariant: its abstract state is well formed and the
    /// cached length is the input's length.
    pub closed spec fn inv(&self) -> bool {
        &&& wf(self@)
        &&& self.length == self.chars@.len()
    }

    /// Construct a lexer over `input`, standing at the beginning of the
    /// first line with an empty nesting and the indentation stack `[0]`.
    pub fn new(input: &'input str) -> (lxr: Lexer<'input>)
        ensures
            lxr.inv(),
            lxr@ == init_state(input@),
    {
        let length = input.unicode_len();
        let mut stack: Vec<usize> = Vec::new();
        stack.push(0);
        let lxr = Lexer {
            chars: input,
            length,
            location: 0,
            at_begin_of_line: true,
            nesting: 0,
            indentation_stack: stack,
            pending_dedents: 0,
        };
        proof {
            assert(lxr@.stack =~= seq![0int]);
            assert(lxr@ =~= init_state(input@));
        }
        lxr
    }

    /// Whether the upcoming character is a lowercase letter.
    fn is_char(&self) -> (r: bool)
        requires
            self.inv(),
        ensures
            r == (self@.pos < self@.input.len() && is_letter_char(self@.input[self@.pos])),
    {
        if self.location < self.length {
            let c = self.chars.get_char(self.location);
            'a' <= c && c <= 'z'
        } else {
            false
        }
    }

    /// Whether the upcoming character is a decimal digit.
    fn is_number(&self) -> (r: bool)
        requires
            self.inv(),
        ensures
            r == (self@.pos < self@.input.len() && is_digit_char(self@.input[self@.pos])),
    {
        if self.location < self.length {
            let c = self.chars.get_char(self.location);
            '0' <= c && c <= '9'
        } else {
            false
        }
    }

    /// Whether the input is exhausted.
    fn is_end(&self) -> (r: bool)
        requires
            self.inv(),
        ensures
            r == (self@.pos == self@.input.len()),
    {
        self.location >= self.length
    }

    /// Return the upcoming character and move past it, or report end of
    /// input.  Only the cursor position changes; at end of input the
    /// position stays put.
    fn next_char(&mut self) -> (c: Option<char>)
        requires
            old(self).inv(),
        ensures
            final(self).inv(),
            final(self).chars == old(self).chars,
            final(self).length == old(self).length,
            old(self)@.pos < old(self)@.input.len() ==> c == Some(
                old(self)@.input[old(self)@.pos],
            ) && final(self)@ == (LexState { pos: old(self)@.pos + 1, ..old(self)@ }),
            old(self)@.pos == old(self)@.input.len() ==> c is None && final(self)@ == old(
                self,
            )@,
    {
        if self.location < self.length {
            let c = self.chars.get_char(self.location);
            self.location = self.location + 1;
            Some(c)
        } else {
            None
        }
    }

    /// Whether the upcoming character is a space.
    fn is_space(&self) -> (r: bool)
        requires
            self.inv(),
        ensures
            r == (self@.pos < self@.input.len() && self@.input[self@.pos] == ' '),
    {
        if self.location < self.length {
            let c = self.chars.get_char(self.location);
            c == ' '
        } else {
            false
        }
    }

    /// Consume a maximal run of decimal digits and parse it as an integer.
    /// A run whose value exceeds the representable range is a lexical
    /// error, not a crash.
    #[verifier::loop_isolation(false)]
    fn lex_number(&mut self) -> (r: Spanned)
        requires
            old(self).inv(),
            old(self)@.pos < old(self)@.input.len(),
            is_digit_char(old(self)@.input[old(self)@.pos]),
        ensures
            final(self).inv(),
            final(self)@.input == old(self)@.input,
            ({
                let s = old(self)@.input;
                let p = old(self)@.pos;
                let n = digit_run(s, p);
                let v = digits_value(s.subrange(p, p + n));
                if v > i32::MAX as int {
                    r matches Err(e) && e == (LexicalError::NumericOverflow { offset: p as usize })
                } else {
                    r matches Ok(t) && t.0 as int == p && t.2 as int == p + n && t.1@
                        == (TokModel::Number { value: v }) && final(self)@ == (LexState {
                        pos: p + n,
                        ..old(self)@
                    })
                }
            }),
    {
        let ghost s = self.chars@;
        let ghost st0 = self@;
        let ghost p0 = self@.pos;
        let ghost n = digit_run(s, p0);
        proof {
            lemma_digit_run(s, p0);
        }
        let start_pos = self.location;
        let mut value: u64 = 0;
        while self.is_number()
            invariant
                self.inv(),
                self@ == (LexState { pos: self@.pos, ..st0 }),
                p0 <= self@.pos <= p0 + n,
                n == digit_run(s, p0),
                value <= i32::MAX as u64,
                value as int == digits_value(s.subrange(p0, self@.pos)),
            decreases p0 + n - self@.pos,
        {
            proof {
                lemma_digit_run(s, p0);
                if self@.pos == p0 + n {
                    assert(!is_digit_char(s[p0 + n]));
                }
            }
            let ghost pos_b = self@.pos;
            let c = self.next_char().unwrap();
            let d: u32 = (c as u32) - ('0' as u32);
            let next_value: u64 = value * 10 + (d as u64);
            proof {
                assert(c == s[pos_b]);
                assert(d == digit_val(c));
                let a = s.subrange(p0, pos_b);
                let b = s.subrange(p0, pos_b + 1);
                assert(b.drop_last() =~= a);
                assert(b.last() == s[pos_b]);
                assert(next_value as int == digits_value(b));
            }
            if next_value > i32::MAX as u64 {
                proof {
                    let run = s.subrange(p0, p0 + n);
                    assert(forall|i: int| 0 <= i < run.len() ==> is_digit_char(run[i]));
                    assert(s.subrange(p0, pos_b + 1) =~= run.subrange(0, pos_b + 1 - p0));
                    lemma_digits_value_prefix(run, pos_b + 1 - p0);
                }
                return Err(LexicalError::NumericOverflow { offset: start_pos });
            }
            value = next_value;
        }
        proof {
            lemma_digit_run(s, p0);
            if self@.pos < p0 + n {
                assert(is_digit_char(s[self@.pos]));
            }
            assert(self@.pos == p0 + n);
        }
        Ok((start_pos, Tok::Number { value: value as i32 }, self.location))
    }

    /// Consume a maximal run of lowercase letters and resolve it to a
    /// reserved-word token or a `Name` token.
    #[verifier::loop_isolation(false)]
    fn lex_identifier(&mut self) -> (r: Spanned)
        requires
            old(self).inv(),
            old(self)@.pos < old(self)@.input.len(),
            is_letter_char(old(self)@.input[old(self)@.pos]),
        ensures
            final(self).inv(),
            final(self)@.input == old(self)@.input,
            ({
                let s = old(self)@.input;
                let p = old(self)@.pos;
                let n = letter_run(s, p);
                let text = s.subrange(p, p + n);
                &&& final(self)@ == (LexState { pos: p + n, ..old(self)@ })
                &&& r matches Ok(t) && t.0 as int == p && t.2 as int == p + n && t.1@ == (match
                    keyword_of(text) {
                    Option::Some(k) => k,
                    Option::None => TokModel::Name { name: text },
                })
            }),
    {
        let ghost s = self.chars@;
        let ghost st0 = self@;
        let ghost p0 = self@.pos;
        let ghost n = letter_run(s, p0);
        proof {
            lemma_letter_run(s, p0);
        }
        let start_pos = self.location;
        while self.is_char()
            invariant
                self.inv(),
                self@ == (LexState { pos: self@.pos, ..st0 }),
                p0 <= self@.pos <= p0 + n,
                n == letter_run(s, p0),
            decreases p0 + n - self@.pos,
        {
            proof {
                lemma_letter_run(s, p0);
                if self@.pos == p0 + n {
                    assert(!is_letter_char(s[p0 + n]));
                }
            }
            self.next_char();
        }
        proof {
            lemma_letter_run(s, p0);
            if self@.pos < p0 + n {
                assert(is_letter_char(s[self@.pos]));
            }
            assert(self@.pos == p0 + n);
        }
        let end_pos = self.location;
        let text = self.chars.substring_char(start_pos, end_pos);
        let tok = match keyword_token(text) {
            Some(t) => t,
            None => Tok::Name { name: text.to_owned() },
        };
        Ok((start_pos, tok, end_pos))
    }

    /// Skip a comment: everything from the `#` through the end of the line
    /// (the newline included) or the end of the input.  No token is
    /// produced.
    fn lex_comment(&mut self)
        requires
            old(self).inv(),
            old(self)@.pos < old(self)@.input.len(),
            old(self)@.input[old(self)@.pos] == '#',
        ensures
            final(self).inv(),
            final(self)@ == (LexState {
                pos: old(self)@.pos + 1 + line_skip(old(self)@.input, old(self)@.pos + 1),
                ..old(self)@
            }),
    {
        let ghost s = self.chars@;
        let ghost st0 = self@;
        let ghost p0 = self@.pos;
        self.next_char();
        loop
            invariant_except_break
                self.inv(),
                s == st0.input,
                0 <= p0 < s.len(),
                self@ == (LexState { pos: self@.pos, ..st0 }),
                p0 + 1 <= self@.pos <= s.len(),
                forall|i: int| p0 + 1 <= i < self@.pos ==> s[i] != '\n',
            ensures
                self.inv(),
                self@ == (LexState { pos: p0 + 1 + line_skip(s, p0 + 1), ..st0 }),
            decreases s.len() - self@.pos,
        {
            let ghost pos_b = self@.pos;
            match self.next_char() {
                Some(c) => {
                    if c == '\n' {
                        proof {
                            lemma_line_skip_found(s, p0 + 1, pos_b);
                        }
                        break;
                    }
                },
                None => {
                    proof {
                        lemma_line_skip_none(s, p0 + 1);
                    }
                    break;
                },
            }
        }
    }

    /// Consume a string literal between a matching pair of quotes, with no
    /// escape processing.  Reaching the end of the input before the close
    /// quote is a lexical error.
    fn lex_string(&mut self) -> (r: Spanned)
        requires
            old(self).inv(),
            old(self)@.pos < old(self)@.input.len(),
            old(self)@.input[old(self)@.pos] == '"' || old(self)@.input[old(self)@.pos] == '\'',
        ensures
            final(self).inv(),
            final(self)@.input == old(self)@.input,
            ({
                let s = old(self)@.input;
                let p = old(self)@.pos;
                match close_quote(s, p + 1, s[p]) {
                    Option::Some(j) => r matches Ok(t) && t.0 as int == p && t.2 as int == j + 1
                        && t.1@ == (TokModel::String { value: s.subrange(p + 1, j) })
                        && final(self)@ == (LexState { pos: j + 1, ..old(self)@ }),
                    Option::None => r matches Err(e) && e == (LexicalError::UnterminatedString {
                        offset: p as usize,
                    }),
                }
            }),
    {
        let ghost s = self.chars@;
        let ghost st0 = self@;
        let ghost p0 = self@.pos;
        let start_pos = self.location;
        let quote = self.next_char().unwrap();
        loop
            invariant_except_break
                self.inv(),
                st0 == old(self)@,
                s == st0.input,
                0 <= p0 < s.len(),
                p0 == st0.pos,
                start_pos as int == p0,
                self@ == (LexState { pos: self@.pos, ..st0 }),
                p0 + 1 <= self@.pos <= s.len(),
                quote == s[p0],
                forall|i: int| p0 + 1 <= i < self@.pos ==> s[i] != quote,
            ensures
                self.inv(),
                self@ == (LexState { pos: self@.pos, ..st0 }),
                p0 + 1 < self@.pos <= s.len(),
                s[self@.pos - 1] == quote,
                close_quote(s, p0 + 1, quote) == Option::Some(self@.pos - 1),
            decreases s.len() - self@.pos,
        {
            let ghost pos_b = self@.pos;
            match self.next_char() {
                Some(c) => {
                    if c == quote {
                        proof {
                            lemma_close_quote_found(s, p0 + 1, pos_b, quote);
                        }
                        break;
                    }
                },
                None => {
                    proof {
                        lemma_close_quote_none(s, p0 + 1, quote);
                    }
                    return Err(LexicalError::UnterminatedString { offset: start_pos });
                },
            }
        }
        let end_pos = self.location;
        let content = self.chars.substring_char(start_pos + 1, end_pos - 1).to_owned();
        Ok((start_pos, Tok::String { value: content }, end_pos))
    }
}

impl<'input> Lexer<'input> {
    /// Produce the next result of the token sequence: one token with its
    /// span, the end-of-input signal (`None`), or a lexical error.  The
    /// call performs exactly one step of the machine in the `model` module.
    #[verifier::loop_isolation(false)]
    #[verifier::rlimit(100)]
    pub fn next_token(&mut self) -> (r: Option<Spanned>)
        requires
            old(self).inv(),
        ensures
            final(self).inv(),
            final(self)@.input == old(self)@.input,
            match spec_next(old(self)@) {
                Step::Emit { next, start, tok, end } => r matches Some(Ok(t)) && t.0 as int
                    == start && t.1@ == tok && t.2 as int == end && final(self)@ == next,
                Step::End { at } => r is None && final(self)@ == at,
                Step::Fail { err } => r matches Some(Err(e)) && e == err,
            },
    {
        loop
            invariant
                self.inv(),
                self@.input == old(self)@.input,
                spec_next(self@) == spec_next(old(self)@),
            decreases 2 * (self@.input.len() - self@.pos) + (if self@.bol {
                1int
            } else {
                0int
            }),
        {
            let ghost st_b = self@;
            if self.pending_dedents > 0 {
                let start = self.location;
                self.pending_dedents = self.pending_dedents - 1;
                proof {
                    assert(self@ =~= (LexState { pending: st_b.pending - 1, ..st_b }));
                }
                return Some(Ok((start, Tok::Dedent, start)));
            }
            if self.at_begin_of_line {
                let line_start = self.location;
                self.at_begin_of_line = false;
                let ghost nsp = space_run(st_b.input, st_b.pos);
                proof {
                    lemma_space_run(st_b.input, st_b.pos);
                }
                while self.is_space()
                    invariant
                        self.inv(),
                        self@ == (LexState { pos: self@.pos, bol: false, ..st_b }),
                        st_b.pos <= self@.pos <= st_b.pos + nsp,
                    decreases st_b.pos + nsp - self@.pos,
                {
                    proof {
                        if self@.pos == st_b.pos + nsp {
                            assert(st_b.input[self@.pos] != ' ');
                        }
                    }
                    self.next_char();
                }
                proof {
                    if self@.pos < st_b.pos + nsp {
                        assert(st_b.input[self@.pos] == ' ');
                    }
                    assert(self@.pos == st_b.pos + nsp);
                }
                let col = self.location - line_start;
                let ghost st1 = LexState { pos: st_b.pos + nsp, bol: false, ..st_b };
                proof {
                    assert(self@ =~= st1);
                }
                if self.nesting == 0 {
                    let depth = self.indentation_stack.len();
                    let top = self.indentation_stack[depth - 1];
                    if col == top {
                        // Same indentation: no structural token; dispatch on
                        // the next iteration.
                        proof {
                            assert(spec_next(st_b) == spec_next(st1));
                        }
                    } else if col > top {
                        self.indentation_stack.push(col);
                        proof {
                            assert(self@.stack =~= st_b.stack.push(col as int));
                            assert(self@ =~= (LexState { stack: st_b.stack.push(col as int), ..st1 }));
                        }
                        return Some(Ok((line_start, Tok::Indent, self.location)));
                    } else {
                        // One or more dedentations: unwind the stack to the
                        // new width, one owed Dedent per popped level.
                        while self.indentation_stack[self.indentation_stack.len() - 1] > col
                            invariant
                                self.inv(),
                                self@.input == st_b.input,
                                self@.pos == st1.pos,
                                self@.bol == false,
                                self@.nesting == st_b.nesting,
                                self@.pending == st_b.pending,
                                1 <= self@.stack.len() <= st_b.stack.len(),
                                self@.stack =~= st_b.stack.subrange(0, self@.stack.len() as int),
                                forall|i: int| self@.stack.len() <= i < st_b.stack.len()
                                    ==> st_b.stack[i] > col,
                            decreases self@.stack.len(),
                        {
                            proof {
                                let ln = self@.stack.len() as int;
                                assert(self@.stack[ln - 1] == self.indentation_stack@[ln - 1] as int);
                                assert(st_b.stack[ln - 1] == self@.stack[ln - 1]);
                                assert(st_b.stack[ln - 1] > col);
                                assert(self@.stack[0] == 0);
                                assert(self@.stack.len() >= 2);
                            }
                            self.indentation_stack.pop();
                            proof {
                                assert(self@.stack =~= st_b.stack.subrange(
                                    0,
                                    self@.stack.len() as int,
                                ));
                            }
                        }
                        let m = self.indentation_stack.len();
                        proof {
                            assert(self@.stack.len() == m);
                            assert(self@.stack[m - 1] == self.indentation_stack@[m - 1] as int);
                            assert(st_b.stack[m - 1] == self@.stack[m - 1]);
                            assert(st_b.stack[m - 1] <= col);
                            lemma_keep_count(st_b.stack, col as int);
                            lemma_keep_count_eq(st_b.stack, col as int, m as int);
                        }
                        let top2 = self.indentation_stack[m - 1];
                        if top2 == col {
                            self.pending_dedents = depth - m - 1;
                            proof {
                                assert(self@ =~= (LexState {
                                    stack: st_b.stack.subrange(0, m as int),
                                    pending: st_b.stack.len() - m - 1,
                                    ..st1
                                }));
                            }
                            return Some(Ok((self.location, Tok::Dedent, self.location)));
                        } else {
                            return Some(
                                Err(
                                    LexicalError::InvalidIndentation {
                                        offset: line_start,
                                        width: col,
                                    },
                                ),
                            );
                        }
                    }
                } else {
                    proof {
                        assert(spec_next(st_b) == spec_next(st1));
                    }
                }
                continue;
            }
            // Not at the beginning of a line, no dedents owed: classify the
            // upcoming character.
            if self.is_end() {
                if self.nesting > 0 {
                    return Some(Err(LexicalError::UnclosedBracket { offset: self.location }));
                }
                return None;
            }
            let c = self.chars.get_char(self.location);
            if '0' <= c && c <= '9' {
                return Some(self.lex_number());
            } else if 'a' <= c && c <= 'z' {
                return Some(self.lex_identifier());
            } else if c == '#' {
                self.lex_comment();
                proof {
                    lemma_line_skip(st_b.input, st_b.pos + 1);
                    assert(spec_next(st_b) == spec_next(self@));
                }
            } else if c == '"' || c == '\'' {
                return Some(self.lex_string());
            } else if c == '=' {
                let start = self.location;
                self.next_char();
                return Some(Ok((start, Tok::Equal, self.location)));
            } else if c == '+' {
                let start = self.location;
                self.next_char();
                return Some(Ok((start, Tok::Plus, self.location)));
            } else if c == '-' {
                let start = self.location;
                self.next_char();
                return Some(Ok((start, Tok::Minus, self.location)));
            } else if c == '*' {
                let start = self.location;
                self.next_char();
                return Some(Ok((start, Tok::Star, self.location)));
            } else if c == '/' {
                let start = self.location;
                self.next_char();
                return Some(Ok((start, Tok::Slash, self.location)));
            } else if c == ':' {
                let start = self.location;
                self.next_char();
                return Some(Ok((start, Tok::Colon, self.location)));
            } else if c == ',' {
                let start = self.location;
                self.next_char();
                return Some(Ok((start, Tok::Comma, self.location)));
            } else if c == '(' {
                let start = self.location;
                self.next_char();
                self.nesting = self.nesting + 1;
                proof {
                    assert(self@ =~= (LexState {
                        pos: st_b.pos + 1,
                        nesting: st_b.nesting + 1,
                        ..st_b
                    }));
                }
                return Some(Ok((start, Tok::Lpar, self.location)));
            } else if c == '[' {
                let start = self.location;
                self.next_char();
                self.nesting = self.nesting + 1;
                proof {
                    assert(self@ =~= (LexState {
                        pos: st_b.pos + 1,
                        nesting: st_b.nesting + 1,
                        ..st_b
                    }));
                }
                return Some(Ok((start, Tok::Lsqb, self.location)));
            } else if c == ')' {
                if self.nesting == 0 {
                    return Some(Err(LexicalError::UnmatchedBracket { offset: self.location }));
                }
                let start = self.location;
                self.next_char();
                self.nesting = self.nesting - 1;
                proof {
                    assert(self@ =~= (LexState {
                        pos: st_b.pos + 1,
                        nesting: st_b.nesting - 1,
                        ..st_b
                    }));
                }
                return Some(Ok((start, Tok::Rpar, self.location)));
            } else if c == ']' {
                if self.nesting == 0 {
                    return Some(Err(LexicalError::UnmatchedBracket { offset: self.location }));
                }
                let start = self.location;
                self.next_char();
                self.nesting = self.nesting - 1;
                proof {
                    assert(self@ =~= (LexState {
                        pos: st_b.pos + 1,
                        nesting: st_b.nesting - 1,
                        ..st_b
                    }));
                }
                return Some(Ok((start, Tok::Rsqb, self.location)));
            } else if c == '\n' {
                let start = self.location;
                self.next_char();
                if self.nesting == 0 {
                    self.at_begin_of_line = true;
                    proof {
                        assert(self@ =~= (LexState { pos: st_b.pos + 1, bol: true, ..st_b }));
                    }
                    return Some(Ok((start, Tok::Newline, self.location)));
                }
                // A newline inside a bracket group is absorbed.
                proof {
                    assert(spec_next(st_b) == spec_next(self@));
                }
            } else if c == ' ' {
                self.next_char();
                proof {
                    assert(spec_next(st_b) == spec_next(self@));
                }
            } else {
                return Some(
                    Err(LexicalError::UnrecognizedCharacter { character: c, offset: self.location }),
                );
            }
        }
    }
}

/// Lex a whole source text: the token sequence of the input, or the error
/// that terminates it.  Exactly `spec_tokens` of the input.
#[verifier::loop_isolation(false)]
pub fn lex_source(source: &String) -> (r: Result<Vec<Tok>, LexicalError>)
    ensures
        match spec_tokens(source@) {
            Ok(toks) => r matches Ok(v) && v@.map_values(|t: Tok| t@) == toks,
            Err(e) => r matches Err(e2) && e2 == e,
        },
{
    let mut lexer = Lexer::new(source.as_str());
    let mut tokens: Vec<Tok> = Vec::new();
    proof {
        assert(tokens@.map_values(|t: Tok| t@) =~= Seq::<TokModel>::empty());
    }
    loop
        invariant
            lexer.inv(),
            lexer@.input == source@,
            match spec_lex_from(lexer@) {
                Ok(pr) => spec_lex_from(init_state(source@)) matches Ok(pr0) && toks_of(pr0.0)
                    == tokens@.map_values(|t: Tok| t@) + toks_of(pr.0),
                Err(e) => spec_lex_from(init_state(source@)) matches Err(e0) && e0 == e,
            },
        decreases lex_measure(lexer@),
    {
        let ghost st_c = lexer@;
        proof {
            lemma_step(st_c);
        }
        match lexer.next_token() {
            Some(res) => match res {
                Ok(t) => {
                    let ghost old_tokens = tokens@;
                    let (ghost_start, tok, ghost_end) = t;
                    tokens.push(tok);
                    proof {
                        let step = spec_next(st_c);
                        match step {
                            Step::Emit { next, start, tok: tk, end } => {
                                match spec_lex_from(next) {
                                    Ok(pr) => {
                                        assert(toks_of(seq![(start, tk, end)] + pr.0) =~= seq![tk]
                                            + toks_of(pr.0));
                                        assert(tokens@.map_values(|t: Tok| t@) =~= old_tokens
                                            .map_values(|t: Tok| t@) + seq![tk]);
                                        assert(old_tokens.map_values(|t: Tok| t@) + (seq![tk]
                                            + toks_of(pr.0)) =~= (old_tokens.map_values(
                                            |t: Tok| t@,
                                        ) + seq![tk]) + toks_of(pr.0));
                                    },
                                    Err(e) => {},
                                }
                            },
                            _ => {},
                        }
                    }
                },
                Err(e) => {
                    return Err(e);
                },
            },
            None => {
                proof {
                    assert(toks_of(Seq::<SpannedModel>::empty())
                        =~= Seq::<TokModel>::empty());
                    match spec_lex_from(init_state(source@)) {
                        Ok(pr0) => {
                            assert(tokens@.map_values(|t: Tok| t@) + Seq::<TokModel>::empty()
                                =~= tokens@.map_values(|t: Tok| t@));
                        },
                        Err(e0) => {},
                    }
                }
                return Ok(tokens);
            },
        }
    }
}

/// The keyword resolver: map recognized identifier text to its reserved-word
/// token, if it is one.  The mapping is fixed and immutable; absence of a
/// match means the caller falls back to a `Name` token.
pub fn keyword_token(name: &str) -> (r: Option<Tok>)
    ensures
        match keyword_of(name@) {
            Option::Some(k) => r matches Some(t) && t@ == k,
            Option::None => r is None,
        },
{
    let n = name.unicode_len();
    if n == 3 && name.get_char(0) == 'f' && name.get_char(1) == 'o' && name.get_char(2) == 'r' {
        Some(Tok::For)
    } else if n == 2 && name.get_char(0) == 'i' && name.get_char(1) == 'n' {
        Some(Tok::In)
    } else if n == 2 && name.get_char(0) == 'i' && name.get_char(1) == 'f' {
        Some(Tok::If)
    } else {
        None
    }
}

} // verus!
