//! The lexical vocabulary: source locations, number literals, keywords,
//! operators, tokens, and the error values produced by the lexer and parser.

use vstd::prelude::*;

verus! {

/// A `(line, column)` pair attached to every token and AST node.
/// Lines are counted from 1, columns from 0; a location is never
/// mutated after creation.
#[derive(Debug, Copy, Clone, PartialEq, Eq, Structural)]
pub struct Loc {
    pub line_num: i32,
    pub column_num: i32,
}

impl Loc {
    pub fn new(line: i32, column: i32) -> (r: Self)
        ensures
            r == (Loc { line_num: line, column_num: column }),
    {
        Self { line_num: line, column_num: column }
    }
}

/// The closed set of keywords of the language.
#[derive(Debug, Clone, Copy, PartialEq, Eq, Structural)]
pub enum Keyword {
    If,
    ElseIf,
    EndIf,
    For,
    EndFor,
    While,
    EndWhile,
    Function,
    EndFunction,
    Return,
    Do,
    To,
    Then,
}

/// The closed set of operators. `Empty` exists only as the base marker of
/// the expression parser's operator stack and never appears in a token
/// stream or in an AST.
#[derive(Debug, Clone, Copy, PartialEq, Eq, Structural)]
pub enum Operator {
    Plus,
    Minus,
    Times,
    Divide,
    IntegerDivide,
    Modulo,
    And,
    Or,
    Not,
    Equals,
    In,
    NotEquals,
    Empty,
}

/// A number literal kept as digit strings: the integer part in `base`,
/// the fractional digits in `decimal` (present iff a `.` was seen) and
/// the exponent digits in `exponent` (present iff an `e` was seen), so
/// that the three fragments round-trip exactly.
#[derive(Debug, PartialEq, Clone)]
pub struct Number {
    pub exponent: Option<String>,
    pub decimal: Option<String>,
    pub base: String,
}

/// The mathematical value of a `Number`: its three fragments as
/// character sequences.
pub struct NumberView {
    pub exponent: Option<Seq<char>>,
    pub decimal: Option<Seq<char>>,
    pub base: Seq<char>,
}

/// The view of an optional digit string.
pub open spec fn opt_str_view(o: Option<String>) -> Option<Seq<char>> {
    match o {
        Some(s) => Some(s@),
        None => None,
    }
}

impl View for Number {
    type V = NumberView;

    open spec fn view(&self) -> NumberView {
        NumberView {
            exponent: opt_str_view(self.exponent),
            decimal: opt_str_view(self.decimal),
            base: self.base@,
        }
    }
}

impl Number {
    /// An empty literal: no fragment seen yet.
    pub fn new() -> (r: Self)
        ensures
            r@.exponent is None,
            r@.decimal is None,
            r@.base == Seq::<char>::empty(),
    {
        Self { exponent: None, decimal: None, base: String::new() }
    }

    /// Copies three fragments into a fresh literal.
    pub fn from_values(exponent: &Option<String>, decimal: &Option<String>, base: &String) -> (r:
        Self)
        ensures
            r@.exponent == opt_str_view(*exponent),
            r@.decimal == opt_str_view(*decimal),
            r@.base == base@,
    {
        Self {
            exponent: match exponent {
                Some(t) => Some(t.clone()),
                None => None,
            },
            decimal: match decimal {
                Some(t) => Some(t.clone()),
                None => None,
            },
            base: base.clone(),
        }
    }
}

/// A literal value carried by a token.
#[derive(Debug, PartialEq, Clone)]
pub enum LiteralValue {
    Number(Number),
    Bool(bool),
    Str(String),
}

/// The view of a `LiteralValue`.
pub enum LiteralView {
    Number(NumberView),
    Bool(bool),
    Str(Seq<char>),
}

impl View for LiteralValue {
    type V = LiteralView;

    open spec fn view(&self) -> LiteralView {
        match self {
            LiteralValue::Number(n) => LiteralView::Number(n@),
            LiteralValue::Bool(b) => LiteralView::Bool(*b),
            LiteralValue::Str(s) => LiteralView::Str(s@),
        }
    }
}

/// A classified lexical unit.
#[derive(Debug, PartialEq, Clone)]
pub enum Token {
    Identifier(String),
    Keyword(Keyword),
    Operator(Operator),
    Literal(LiteralValue),
    OpenBracket,
    CloseBracket,
    OpenSquareBracket,
    CloseSquareBracket,
    Comma,
    Dot,
    NewLine,
    EndOfSequence,
}

/// The view of a `Token`.
pub enum TokenView {
    Identifier(Seq<char>),
    Keyword(Keyword),
    Operator(Operator),
    Literal(LiteralView),
    OpenBracket,
    CloseBracket,
    OpenSquareBracket,
    CloseSquareBracket,
    Comma,
    Dot,
    NewLine,
    EndOfSequence,
}

impl View for Token {
    type V = TokenView;

    open spec fn view(&self) -> TokenView {
        match self {
            Token::Identifier(s) => TokenView::Identifier(s@),
            Token::Keyword(k) => TokenView::Keyword(*k),
            Token::Operator(o) => TokenView::Operator(*o),
            Token::Literal(l) => TokenView::Literal(l@),
            Token::OpenBracket => TokenView::OpenBracket,
            Token::CloseBracket => TokenView::CloseBracket,
            Token::OpenSquareBracket => TokenView::OpenSquareBracket,
            Token::CloseSquareBracket => TokenView::CloseSquareBracket,
            Token::Comma => TokenView::Comma,
            Token::Dot => TokenView::Dot,
            Token::NewLine => TokenView::NewLine,
            Token::EndOfSequence => TokenView::EndOfSequence,
        }
    }
}

/// A token together with its source location.
#[derive(Debug, PartialEq, Clone)]
pub struct TokenValue {
    pub token: Token,
    pub loc: Loc,
}

/// The view of a `TokenValue`.
pub struct TokenValueView {
    pub token: TokenView,
    pub loc: Loc,
}

impl View for TokenValue {
    type V = TokenValueView;

    open spec fn view(&self) -> TokenValueView {
        TokenValueView { token: self.token@, loc: self.loc }
    }
}

impl TokenValue {
    pub fn new(token: Token, line: i32, col: i32) -> (r: Self)
        ensures
            r@.token == token@,
            r@.loc == (Loc { line_num: line, column_num: col }),
    {
        Self { token, loc: Loc::new(line, col) }
    }
}

/// The view of a token sequence.
pub open spec fn tokens_view(v: Seq<TokenValue>) -> Seq<TokenValueView> {
    v.map(|k: int, t: TokenValue| t@)
}

/// A copy of a token with the same view.
pub fn clone_token(t: &Token) -> (r: Token)
    ensures
        r@ == t@,
{
    match t {
        Token::Identifier(s) => Token::Identifier(s.clone()),
        Token::Keyword(k) => Token::Keyword(*k),
        Token::Operator(o) => Token::Operator(*o),
        Token::Literal(LiteralValue::Number(n)) => Token::Literal(
            LiteralValue::Number(Number::from_values(&n.exponent, &n.decimal, &n.base)),
        ),
        Token::Literal(LiteralValue::Bool(b)) => Token::Literal(LiteralValue::Bool(*b)),
        Token::Literal(LiteralValue::Str(s)) => Token::Literal(LiteralValue::Str(s.clone())),
        Token::OpenBracket => Token::OpenBracket,
        Token::CloseBracket => Token::CloseBracket,
        Token::OpenSquareBracket => Token::OpenSquareBracket,
        Token::CloseSquareBracket => Token::CloseSquareBracket,
        Token::Comma => Token::Comma,
        Token::Dot => Token::Dot,
        Token::NewLine => Token::NewLine,
        Token::EndOfSequence => Token::EndOfSequence,
    }
}

/// A copy of a located token with the same view.
pub fn clone_token_value(t: &TokenValue) -> (r: TokenValue)
    ensures
        r@ == t@,
{
    TokenValue { token: clone_token(&t.token), loc: t.loc }
}

/// Why lexing failed.
#[derive(Debug, Clone, Copy, PartialEq, Eq)]
pub enum LexErrorKind {
    /// A character that matches no lexical rule.
    UnexpectedCharacter(char),
    /// A `.` or `e` inside a number literal not immediately followed by a
    /// digit.
    MalformedNumber,
    /// A `!` not followed by `=`.
    UnterminatedOperator,
}

/// A lexical error, carrying the location of the offending character.
#[derive(Debug, Clone, Copy, PartialEq, Eq)]
pub struct LexError {
    pub kind: LexErrorKind,
    pub loc: Loc,
}

/// Why parsing failed.
#[derive(Debug, Clone, Copy, PartialEq, Eq)]
pub enum ParseErrorKind {
    /// A required keyword (`then`, `do`, `endif`, `endwhile`, `endfor`,
    /// `endfunction`) was not found where the grammar demands it.
    ExpectedKeyword(Keyword),
    /// A new line was required after `then`, after a function's parameter
    /// list, or after `do`.
    ExpectedNewLine,
    /// An identifier was required (after `for` or `function`).
    ExpectedIdentifier,
    /// An opening bracket was required (after a function's name).
    ExpectedOpenBracket,
    /// A token that no statement form can begin with, or that cannot stand
    /// where it does.
    UnexpectedToken,
    /// A closing bracket was required before the expression ended.
    UnterminatedBracket,
    /// A call's argument list reached the end of the expression before its
    /// closing bracket.
    UnterminatedCall,
    /// The expression's operators and operands do not form a tree.
    MalformedExpression,
    /// A token other than an identifier or a comma inside a parameter list.
    MalformedParameterList,
}

/// A syntactic error, carrying the location of the offending token.
#[derive(Debug, Clone, Copy, PartialEq, Eq)]
pub struct ParseError {
    pub kind: ParseErrorKind,
    pub loc: Loc,
}

} // verus!
