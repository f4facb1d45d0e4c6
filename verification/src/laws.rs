//! Laws of the lexer, proved once and for all against the model in the
//! `model` module.  Because `lex_source` and `Lexer::next_token` are
//! specified exactly against that model, each law carries over to the
//! executable lexer.

use crate::model::{
    digits_value, init_state, is_digit_char, lemma_digit_run, lemma_run_len_full,
    lemma_space_run, lemma_step, lex_measure, space_run, spec_lex_from, spec_next, spec_tokens,
    toks_of, wf, LexState, SpannedModel, Step,
};
use crate::token::{LexicalError, TokModel};
use vstd::prelude::*;

verus! {

/// Number of tokens in a spanned sequence satisfying `f`.
pub open spec fn count_toks(sp: Seq<SpannedModel>, f: spec_fn(TokModel) -> bool) -> int
    decreases sp.len(),
{
    if sp.len() == 0 {
        0
    } else {
        (if f(sp.first().1) {
            1int
        } else {
            0int
        }) + count_toks(sp.drop_first(), f)
    }
}

/// An opening bracket token.
pub open spec fn is_open_bracket(t: TokModel) -> bool {
    match t {
        TokModel::Lpar => true,
        TokModel::Lsqb => true,
        _ => false,
    }
}

/// A closing bracket token.
pub open spec fn is_close_bracket(t: TokModel) -> bool {
    match t {
        TokModel::Rpar => true,
        TokModel::Rsqb => true,
        _ => false,
    }
}

pub open spec fn open_bracket_count(sp: Seq<SpannedModel>) -> int {
    count_toks(sp, |t: TokModel| is_open_bracket(t))
}

pub open spec fn close_bracket_count(sp: Seq<SpannedModel>) -> int {
    count_toks(sp, |t: TokModel| is_close_bracket(t))
}

pub open spec fn indent_count(sp: Seq<SpannedModel>) -> int {
    count_toks(sp, |t: TokModel| t is Indent)
}

pub open spec fn dedent_count(sp: Seq<SpannedModel>) -> int {
    count_toks(sp, |t: TokModel| t is Dedent)
}

/// Prepending one token to a sequence adds its own contribution to a count.
pub proof fn lemma_count_cons(x: SpannedModel, rest: Seq<SpannedModel>, f: spec_fn(TokModel) -> bool)
    ensures
        count_toks(seq![x] + rest, f) == (if f(x.1) {
            1int
        } else {
            0int
        }) + count_toks(rest, f),
{
    let s = seq![x] + rest;
    assert(s.first() == x);
    assert(s.drop_first() =~= rest);
}

/// The books a completed run balances: when the machine reaches end of
/// input, it stands at the end with no dedents owed and nesting depth zero,
/// the number of opening brackets emitted equals the number of closing
/// brackets plus the initial depth, and the final indentation stack's
/// height is the initial height plus the surplus of `Indent` over `Dedent`
/// tokens.
pub proof fn lemma_run_accounting(st: LexState)
    requires
        wf(st),
    ensures
        spec_lex_from(st) matches Ok(pr) ==> {
            &&& wf(pr.1)
            &&& pr.1.input == st.input
            &&& pr.1.pos == st.input.len()
            &&& pr.1.pending == 0
            &&& pr.1.nesting == 0
            &&& st.nesting + open_bracket_count(pr.0) - close_bracket_count(pr.0) == 0
            &&& pr.1.stack.len() == st.stack.len() + st.pending + indent_count(pr.0)
                - dedent_count(pr.0)
        },
    decreases lex_measure(st),
{
    lemma_step(st);
    match spec_next(st) {
        Step::Emit { next, start, tok, end } => {
            lemma_run_accounting(next);
            match spec_lex_from(next) {
                Ok(pr) => {
                    let x = (start, tok, end);
                    lemma_count_cons(x, pr.0, |t: TokModel| is_open_bracket(t));
                    lemma_count_cons(x, pr.0, |t: TokModel| is_close_bracket(t));
                    lemma_count_cons(x, pr.0, |t: TokModel| t is Indent);
                    lemma_count_cons(x, pr.0, |t: TokModel| t is Dedent);
                },
                Err(_) => {},
            }
        },
        Step::End { at } => {},
        Step::Fail { err } => {},
    }
}

/// Bracket balance: when an input lexes successfully to the end, every
/// opened bracket was closed — the nesting depth has returned to zero.
/// Contrapositively, an input with an unclosed bracket never terminates
/// with a clean token sequence: the machine reports an error for it
/// instead.
pub proof fn lemma_brackets_balanced(s: Seq<char>)
    ensures
        spec_lex_from(init_state(s)) matches Ok(pr) ==> open_bracket_count(pr.0)
            == close_bracket_count(pr.0),
{
    lemma_run_accounting(init_state(s));
}

/// After lexing an input whose blocks are balanced — as many `Dedent`
/// tokens came out as `Indent` tokens — the indentation stack has returned
/// to `[0]`.
pub proof fn lemma_indentation_stack_restored(s: Seq<char>)
    ensures
        spec_lex_from(init_state(s)) matches Ok(pr) ==> (indent_count(pr.0) == dedent_count(pr.0)
            ==> pr.1.stack == seq![0int]),
{
    lemma_run_accounting(init_state(s));
    match spec_lex_from(init_state(s)) {
        Ok(pr) => {
            if indent_count(pr.0) == dedent_count(pr.0) {
                assert(pr.1.stack.len() == 1);
                assert(pr.1.stack[0] == 0);
                assert(pr.1.stack =~= seq![0int]);
            }
        },
        Err(_) => {},
    }
}

/// Lexing is deterministic: the token sequence is a pure function of the
/// source text alone, so re-lexing the same immutable input — two separate
/// lexer instances — yields an identical token sequence.
pub proof fn lemma_lex_deterministic(
    s: Seq<char>,
    first: Result<Seq<TokModel>, LexicalError>,
    second: Result<Seq<TokModel>, LexicalError>,
)
    requires
        first == spec_tokens(s),
        second == spec_tokens(s),
    ensures
        first == second,
{
}

/// An input consisting solely of digits lexes to exactly one `Number`
/// token whose value is the run read as a decimal integer.
pub proof fn lemma_all_digits_single_number(s: Seq<char>)
    requires
        s.len() > 0,
        forall|i: int| 0 <= i < s.len() ==> is_digit_char(s[i]),
        digits_value(s) <= i32::MAX as int,
    ensures
        spec_tokens(s) == Ok::<Seq<TokModel>, LexicalError>(
            seq![TokModel::Number { value: digits_value(s) }],
        ),
{
    let st0 = init_state(s);
    assert(wf(st0));
    lemma_space_run(s, 0);
    assert(is_digit_char(s[0]));
    assert(s[0] != ' ');
    assert(space_run(s, 0) == 0);
    let st1 = LexState { pos: 0, bol: false, ..st0 };
    assert(st0.stack.last() == 0);
    assert(spec_next(st0) == spec_next(st1));
    lemma_digit_run(s, 0);
    lemma_run_len_full(s, 0, |c: char| is_digit_char(c));
    assert(s.subrange(0, s.len() as int) =~= s);
    let next = LexState { pos: s.len() as int, ..st1 };
    assert(wf(next));
    let tok = TokModel::Number { value: digits_value(s) };
    assert(spec_next(st1) == Step::Emit {
        next,
        start: 0,
        tok,
        end: s.len() as int,
    });
    assert(spec_next(next) == Step::End { at: next });
    assert(spec_lex_from(next) == Ok::<_, LexicalError>((
        Seq::<SpannedModel>::empty(),
        next,
    )));
    let x = (0int, tok, s.len() as int);
    assert(spec_lex_from(st0) == Ok::<_, LexicalError>((seq![x] + Seq::<SpannedModel>::empty(), next)));
    assert(seq![x] + Seq::<SpannedModel>::empty() =~= seq![x]);
    assert(toks_of(seq![x]) =~= seq![tok]);
}

} // verus!
