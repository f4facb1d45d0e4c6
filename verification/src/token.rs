//! The token taxonomy the lexer emits into, together with its mathematical
//! model.

use vstd::prelude::*;

verus! {

/// Mathematical model of a token.  Text payloads are sequences of characters
/// and numeric payloads are unbounded integers, so contracts can be stated
/// without reference to machine types.
pub enum TokModel {
    Indent,
    Dedent,
    Newline,
    Lpar,
    Rpar,
    Lsqb,
    Rsqb,
    Colon,
    Comma,
    Equal,
    Plus,
    Minus,
    Star,
    Slash,
    For,
    In,
    If,
    Name { name: Seq<char> },
    Number { value: int },
    String { value: Seq<char> },
}

/// A lexical token.  Structural tokens (`Indent`, `Dedent`, `Newline`) are
/// synthesized from layout; the rest correspond to explicit source text.
/// `Name`, `Number` and `String` carry their payload; ownership of the text
/// transfers to the consumer.
#[derive(Debug)]
pub enum Tok {
    Indent,
    Dedent,
    Newline,
    Lpar,
    Rpar,
    Lsqb,
    Rsqb,
    Colon,
    Comma,
    Equal,
    Plus,
    Minus,
    Star,
    Slash,
    For,
    In,
    If,
    Name { name: String },
    Number { value: i32 },
    String { value: String },
}

/// A lexical error, returned through the same channel as tokens at the point
/// of detection.  Every variant records the character offset at which the
/// error was found.
#[derive(Debug, Clone, Copy, PartialEq, Eq, Structural)]
pub enum LexicalError {
    /// A quote was opened at `offset` but no matching close quote was found
    /// before the input ended.
    UnterminatedString { offset: usize },
    /// A dedent at `offset` reached the width `width`, which matches no
    /// previously pushed indentation width.
    InvalidIndentation { offset: usize, width: usize },
    /// The digit run starting at `offset` exceeds the representable integer
    /// range.
    NumericOverflow { offset: usize },
    /// The character `character` at `offset` matches no classification rule.
    UnrecognizedCharacter { character: char, offset: usize },
    /// A closing bracket at `offset` has no matching opening bracket.
    UnmatchedBracket { offset: usize },
    /// The input ended at `offset` with a bracket group still open.
    UnclosedBracket { offset: usize },
}

impl View for Tok {
    type V = TokModel;

    open spec fn view(&self) -> TokModel {
        match self {
            Tok::Indent => TokModel::Indent,
            Tok::Dedent => TokModel::Dedent,
            Tok::Newline => TokModel::Newline,
            Tok::Lpar => TokModel::Lpar,
            Tok::Rpar => TokModel::Rpar,
            Tok::Lsqb => TokModel::Lsqb,
            Tok::Rsqb => TokModel::Rsqb,
            Tok::Colon => TokModel::Colon,
            Tok::Comma => TokModel::Comma,
            Tok::Equal => TokModel::Equal,
            Tok::Plus => TokModel::Plus,
            Tok::Minus => TokModel::Minus,
            Tok::Star => TokModel::Star,
            Tok::Slash => TokModel::Slash,
            Tok::For => TokModel::For,
            Tok::In => TokModel::In,
            Tok::If => TokModel::If,
            Tok::Name { name } => TokModel::Name { name: name@ },
            Tok::Number { value } => TokModel::Number { value: *value as int },
            Tok::String { value } => TokModel::String { value: value@ },
        }
    }
}

impl PartialEq for Tok {
    fn eq(&self, other: &Tok) -> (r: bool) {
        match (self, other) {
            (Tok::Indent, Tok::Indent) => true,
            (Tok::Dedent, Tok::Dedent) => true,
            (Tok::Newline, Tok::Newline) => true,
            (Tok::Lpar, Tok::Lpar) => true,
            (Tok::Rpar, Tok::Rpar) => true,
            (Tok::Lsqb, Tok::Lsqb) => true,
            (Tok::Rsqb, Tok::Rsqb) => true,
            (Tok::Colon, Tok::Colon) => true,
            (Tok::Comma, Tok::Comma) => true,
            (Tok::Equal, Tok::Equal) => true,
            (Tok::Plus, Tok::Plus) => true,
            (Tok::Minus, Tok::Minus) => true,
            (Tok::Star, Tok::Star) => true,
            (Tok::Slash, Tok::Slash) => true,
            (Tok::For, Tok::For) => true,
            (Tok::In, Tok::In) => true,
            (Tok::If, Tok::If) => true,
            (Tok::Name { name: a }, Tok::Name { name: b }) => *a == *b,
            (Tok::Number { value: a }, Tok::Number { value: b }) => *a == *b,
            (Tok::String { value: a }, Tok::String { value: b }) => *a == *b,
            _ => false,
        }
    }
}

impl vstd::std_specs::cmp::PartialEqSpecImpl for Tok {
    open spec fn obeys_eq_spec() -> bool {
        true
    }

    open spec fn eq_spec(&self, other: &Tok) -> bool {
        self@ == other@
    }
}

} // verus!
