//! Lexical analysis: a single left-to-right scan over the source text with
//! one character of lookahead, producing a located token sequence that ends
//! with an `EndOfSequence` sentinel.
//!
//! The whole scan is modelled by the spec function [`lex_spec`]; the
//! executable [`lexer`] returns exactly what the model says, so every
//! property of the token stream can be read off the model.
//!
//! Conventions settled here (the grammar leaves them open):
//! - A block is delimited by its terminating keyword alone; indentation is
//!   not significant, and a tab is consumed silently like a space.
//! - A newline always yields a `NewLine` token, also when it ends an
//!   identifier or a number literal; the line counter then advances and the
//!   column counter resets to 0.
//! - An identifier or number literal ends at the first character that
//!   cannot belong to it; a space is consumed silently, while any other
//!   terminating character is scanned again as the start of the next token.
//! - A string literal is not part of the implemented grammar, so `"` is
//!   reported as an unexpected character.

use crate::helpers::NumberState;
use crate::token::{
    Keyword,
    LexError,
    LexErrorKind,
    LiteralValue,
    LiteralView,
    Loc,
    Number,
    NumberView,
    Operator,
    Token,
    TokenValue,
    TokenValueView,
    TokenView,
    opt_str_view,
    tokens_view,
};
use vstd::prelude::*;
use vstd::string::StrSliceExecFns;

verus! {

/// The longest source text the lexer accepts; keeps the `i32` line and
/// column counters away from overflow.
pub const MAX_SOURCE_LEN: usize = 0x7fff0000;

/// A latin letter.
pub open spec fn is_letter(c: char) -> bool {
    (('a' as u32) <= (c as u32) && (c as u32) <= ('z' as u32)) || (('A' as u32) <= (c as u32) && (c
        as u32) <= ('Z' as u32))
}

/// A decimal digit.
pub open spec fn is_digit(c: char) -> bool {
    ('0' as u32) <= (c as u32) && (c as u32) <= ('9' as u32)
}

/// A character that may continue an identifier.
pub open spec fn is_ident_char(c: char) -> bool {
    is_letter(c) || is_digit(c)
}

/// The first position at or after `i` whose character cannot continue an
/// identifier (or the end of the text).
pub open spec fn ident_end(s: Seq<char>, i: nat) -> nat
    decreases s.len() - i,
{
    if i < s.len() && is_ident_char(s[i as int]) {
        ident_end(s, i + 1)
    } else {
        i
    }
}

pub proof fn lemma_ident_end_ge(s: Seq<char>, i: nat)
    ensures
        ident_end(s, i) >= i,
        ident_end(s, i) <= s.len() || i > s.len(),
    decreases s.len() - i,
{
    if i < s.len() && is_ident_char(s[i as int]) {
        lemma_ident_end_ge(s, i + 1);
    }
}

/// Classification of a completed identifier run against the keyword table,
/// the word operators and the boolean literals; anything unmatched is an
/// identifier.
pub open spec fn classify_word(w: Seq<char>) -> TokenView {
    if w == "true"@ {
        TokenView::Literal(LiteralView::Bool(true))
    } else if w == "false"@ {
        TokenView::Literal(LiteralView::Bool(false))
    } else if w == "and"@ {
        TokenView::Operator(Operator::And)
    } else if w == "or"@ {
        TokenView::Operator(Operator::Or)
    } else if w == "not"@ {
        TokenView::Operator(Operator::Not)
    } else if w == "in"@ {
        TokenView::Operator(Operator::In)
    } else if w == "if"@ {
        TokenView::Keyword(Keyword::If)
    } else if w == "elseif"@ {
        TokenView::Keyword(Keyword::ElseIf)
    } else if w == "endif"@ {
        TokenView::Keyword(Keyword::EndIf)
    } else if w == "for"@ {
        TokenView::Keyword(Keyword::For)
    } else if w == "endfor"@ {
        TokenView::Keyword(Keyword::EndFor)
    } else if w == "while"@ {
        TokenView::Keyword(Keyword::While)
    } else if w == "endwhile"@ {
        TokenView::Keyword(Keyword::EndWhile)
    } else if w == "function"@ {
        TokenView::Keyword(Keyword::Function)
    } else if w == "endfunction"@ {
        TokenView::Keyword(Keyword::EndFunction)
    } else if w == "return"@ {
        TokenView::Keyword(Keyword::Return)
    } else if w == "do"@ {
        TokenView::Keyword(Keyword::Do)
    } else if w == "to"@ {
        TokenView::Keyword(Keyword::To)
    } else if w == "then"@ {
        TokenView::Keyword(Keyword::Then)
    } else {
        TokenView::Identifier(w)
    }
}

/// A number literal with no fragment collected yet.
pub open spec fn empty_number() -> NumberView {
    NumberView { exponent: None, decimal: None, base: Seq::empty() }
}

/// Appends one digit to an optional fragment.
pub open spec fn opt_push(o: Option<Seq<char>>, c: char) -> Option<Seq<char>> {
    match o {
        Some(f) => Some(f.push(c)),
        None => Some(seq![c]),
    }
}

/// Appends one digit to the fragment selected by the scanning mode.
pub open spec fn num_push(num: NumberView, st: NumberState, c: char) -> NumberView {
    if st.decimal {
        NumberView { exponent: num.exponent, decimal: opt_push(num.decimal, c), base: num.base }
    } else if st.exponent {
        NumberView { exponent: opt_push(num.exponent, c), decimal: num.decimal, base: num.base }
    } else {
        NumberView { exponent: num.exponent, decimal: num.decimal, base: num.base.push(c) }
    }
}

/// The mode after a `.`: decimal, unless the scan is already in the
/// exponent, from which there is no way back.
pub open spec fn dec_mode(st: NumberState) -> NumberState {
    if st.exponent {
        st
    } else {
        NumberState { exponent: false, decimal: true }
    }
}

/// The mode after an `e`: exponent, leaving decimal mode for good.
pub open spec fn exp_mode(st: NumberState) -> NumberState {
    NumberState { exponent: true, decimal: false }
}

/// Scans the body of a number literal from position `i`. Digits join the
/// fragment chosen by the mode; `.` and `e` switch modes and must be
/// followed by a digit, else the scan fails at their position (the `Err`
/// value). Any other character (or the end of the text) ends the literal,
/// which is returned with the first position not consumed.
pub open spec fn scan_number(s: Seq<char>, i: nat, num: NumberView, st: NumberState) -> Result<
    (NumberView, nat),
    nat,
>
    decreases s.len() - i,
{
    if i >= s.len() {
        Ok((num, i))
    } else {
        let c = s[i as int];
        if is_digit(c) {
            scan_number(s, i + 1, num_push(num, st, c), st)
        } else if c == '.' {
            if i + 1 < s.len() && is_digit(s[i as int + 1]) {
                scan_number(s, i + 1, num, dec_mode(st))
            } else {
                Err(i)
            }
        } else if c == 'e' {
            if i + 1 < s.len() && is_digit(s[i as int + 1]) {
                scan_number(s, i + 1, num, exp_mode(st))
            } else {
                Err(i)
            }
        } else {
            Ok((num, i))
        }
    }
}

pub proof fn lemma_scan_number_ge(s: Seq<char>, i: nat, num: NumberView, st: NumberState)
    ensures
        match scan_number(s, i, num, st) {
            Ok((n, j)) => j >= i && (i <= s.len() ==> j <= s.len()),
            Err(j) => j >= i && (i <= s.len() ==> j <= s.len()),
        },
    decreases s.len() - i,
{
    if i < s.len() {
        let c = s[i as int];
        if is_digit(c) {
            lemma_scan_number_ge(s, i + 1, num_push(num, st, c), st);
        } else if c == '.' || c == 'e' {
            if i + 1 < s.len() && is_digit(s[i as int + 1]) {
                if c == '.' {
                    lemma_scan_number_ge(s, i + 1, num, dec_mode(st));
                } else {
                    lemma_scan_number_ge(s, i + 1, num, exp_mode(st));
                }
            }
        }
    }
}

/// The token of a single punctuation or operator character, if it has one.
pub open spec fn single_char_token(c: char) -> Option<TokenView> {
    if c == '+' {
        Some(TokenView::Operator(Operator::Plus))
    } else if c == '-' {
        Some(TokenView::Operator(Operator::Minus))
    } else if c == '*' {
        Some(TokenView::Operator(Operator::Times))
    } else if c == '%' {
        Some(TokenView::Operator(Operator::Modulo))
    } else if c == '=' {
        Some(TokenView::Operator(Operator::Equals))
    } else if c == '(' {
        Some(TokenView::OpenBracket)
    } else if c == ')' {
        Some(TokenView::CloseBracket)
    } else if c == '[' {
        Some(TokenView::OpenSquareBracket)
    } else if c == ']' {
        Some(TokenView::CloseSquareBracket)
    } else if c == ',' {
        Some(TokenView::Comma)
    } else if c == '.' {
        Some(TokenView::Dot)
    } else {
        None
    }
}

/// A location as the spec model computes it.
pub open spec fn loc_at(line: int, col: int) -> Loc {
    Loc { line_num: line as i32, column_num: col as i32 }
}

/// A token placed at a location.
pub open spec fn at_loc(t: TokenView, line: int, col: int) -> TokenValueView {
    TokenValueView { token: t, loc: loc_at(line, col) }
}

/// Prepends one token to the result of lexing the rest of the text.
pub open spec fn lex_cons(t: TokenValueView, rest: Result<Seq<TokenValueView>, LexError>) -> Result<
    Seq<TokenValueView>,
    LexError,
> {
    match rest {
        Ok(v) => Ok(seq![t] + v),
        Err(e) => Err(e),
    }
}

/// The lexing model from position `i` on, at the given line and column.
/// Every token's location is the line and column of its first character.
pub open spec fn lex_from(s: Seq<char>, i: nat, line: int, col: int) -> Result<
    Seq<TokenValueView>,
    LexError,
>
    decreases s.len() - i,
    via lex_from_dec
{
    if i >= s.len() {
        Ok(seq![at_loc(TokenView::EndOfSequence, line, col)])
    } else {
        let c = s[i as int];
        if is_letter(c) {
            let j = ident_end(s, i);
            let word = s.subrange(i as int, j as int);
            lex_cons(at_loc(classify_word(word), line, col), lex_from(s, j, line, col + (j - i)))
        } else if is_digit(c) {
            match scan_number(s, i, empty_number(), NumberState { exponent: false, decimal: false }) {
                Ok((num, j)) => lex_cons(
                    at_loc(TokenView::Literal(LiteralView::Number(num)), line, col),
                    lex_from(s, j, line, col + (j - i)),
                ),
                Err(j) => Err(
                    LexError { kind: LexErrorKind::MalformedNumber, loc: loc_at(line, col + (j - i)) },
                ),
            }
        } else if c == '\n' {
            lex_cons(at_loc(TokenView::NewLine, line, col), lex_from(s, i + 1, line + 1, 0))
        } else if c == ' ' || c == '\t' {
            lex_from(s, i + 1, line, col + 1)
        } else if c == '/' {
            if i + 1 < s.len() && s[i as int + 1] == '/' {
                lex_cons(
                    at_loc(TokenView::Operator(Operator::IntegerDivide), line, col),
                    lex_from(s, i + 2, line, col + 2),
                )
            } else {
                lex_cons(
                    at_loc(TokenView::Operator(Operator::Divide), line, col),
                    lex_from(s, i + 1, line, col + 1),
                )
            }
        } else if c == '!' {
            if i + 1 < s.len() && s[i as int + 1] == '=' {
                lex_cons(
                    at_loc(TokenView::Operator(Operator::NotEquals), line, col),
                    lex_from(s, i + 2, line, col + 2),
                )
            } else {
                Err(LexError { kind: LexErrorKind::UnterminatedOperator, loc: loc_at(line, col) })
            }
        } else {
            match single_char_token(c) {
                Some(t) => lex_cons(at_loc(t, line, col), lex_from(s, i + 1, line, col + 1)),
                None => Err(
                    LexError { kind: LexErrorKind::UnexpectedCharacter(c), loc: loc_at(line, col) },
                ),
            }
        }
    }
}

#[via_fn]
proof fn lex_from_dec(s: Seq<char>, i: nat, line: int, col: int) {
    if i < s.len() {
        let c = s[i as int];
        if is_letter(c) {
            lemma_ident_end_ge(s, i + 1);
            assert(ident_end(s, i) == ident_end(s, i + 1));
        } else if is_digit(c) {
            let st = NumberState { exponent: false, decimal: false };
            lemma_scan_number_ge(s, i + 1, num_push(empty_number(), st, c), st);
            assert(scan_number(s, i, empty_number(), st) == scan_number(
                s,
                i + 1,
                num_push(empty_number(), st, c),
                st,
            ));
        }
    }
}

/// The model of lexing a whole text: scan from the start, at line 1,
/// column 0.
pub open spec fn lex_spec(s: Seq<char>) -> Result<Seq<TokenValueView>, LexError> {
    lex_from(s, 0, 1, 0)
}

/// Glues a sequence of already-produced tokens onto the result of lexing
/// the rest of the text.
pub open spec fn lex_compose(
    pre: Seq<TokenValueView>,
    rest: Result<Seq<TokenValueView>, LexError>,
) -> Result<Seq<TokenValueView>, LexError> {
    match rest {
        Ok(v) => Ok(pre + v),
        Err(e) => Err(e),
    }
}

proof fn lemma_compose_cons(
    pre: Seq<TokenValueView>,
    t: TokenValueView,
    rest: Result<Seq<TokenValueView>, LexError>,
)
    ensures
        lex_compose(pre, lex_cons(t, rest)) == lex_compose(pre.push(t), rest),
{
    match rest {
        Ok(v) => {
            assert(pre + (seq![t] + v) =~= pre.push(t) + v);
        },
        Err(e) => {},
    }
}

proof fn lemma_tokens_view_push(v: Seq<TokenValue>, t: TokenValue)
    ensures
        tokens_view(v.push(t)) == tokens_view(v).push(t@),
{
    assert(tokens_view(v.push(t)) =~= tokens_view(v).push(t@));
}

fn letter(c: char) -> (b: bool)
    ensures
        b == is_letter(c),
{
    let u = c as u32;
    (97 <= u && u <= 122) || (65 <= u && u <= 90)
}

fn digit(c: char) -> (b: bool)
    ensures
        b == is_digit(c),
{
    let u = c as u32;
    48 <= u && u <= 57
}

fn ident_char_at(s: &str, j: usize) -> (b: bool)
    requires
        j < s@.len(),
    ensures
        b == is_ident_char(s@[j as int]),
{
    let c = s.get_char(j);
    letter(c) || digit(c)
}

fn digit_at(s: &str, j: usize) -> (b: bool)
    requires
        j < s@.len(),
    ensures
        b == is_digit(s@[j as int]),
{
    digit(s.get_char(j))
}

fn str_eq(w: &String, lit: &str) -> (b: bool)
    ensures
        b == (w@ == lit@),
{
    let l: String = lit.to_owned();
    *w == l
}

/// Turns a completed identifier run into its token, consulting the keyword
/// table, the word operators and the boolean literals.
fn word_token(word: String) -> (t: Token)
    ensures
        t@ == classify_word(word@),
{
    if str_eq(&word, "true") {
        Token::Literal(LiteralValue::Bool(true))
    } else if str_eq(&word, "false") {
        Token::Literal(LiteralValue::Bool(false))
    } else if str_eq(&word, "and") {
        Token::Operator(Operator::And)
    } else if str_eq(&word, "or") {
        Token::Operator(Operator::Or)
    } else if str_eq(&word, "not") {
        Token::Operator(Operator::Not)
    } else if str_eq(&word, "in") {
        Token::Operator(Operator::In)
    } else if str_eq(&word, "if") {
        Token::Keyword(Keyword::If)
    } else if str_eq(&word, "elseif") {
        Token::Keyword(Keyword::ElseIf)
    } else if str_eq(&word, "endif") {
        Token::Keyword(Keyword::EndIf)
    } else if str_eq(&word, "for") {
        Token::Keyword(Keyword::For)
    } else if str_eq(&word, "endfor") {
        Token::Keyword(Keyword::EndFor)
    } else if str_eq(&word, "while") {
        Token::Keyword(Keyword::While)
    } else if str_eq(&word, "endwhile") {
        Token::Keyword(Keyword::EndWhile)
    } else if str_eq(&word, "function") {
        Token::Keyword(Keyword::Function)
    } else if str_eq(&word, "endfunction") {
        Token::Keyword(Keyword::EndFunction)
    } else if str_eq(&word, "return") {
        Token::Keyword(Keyword::Return)
    } else if str_eq(&word, "do") {
        Token::Keyword(Keyword::Do)
    } else if str_eq(&word, "to") {
        Token::Keyword(Keyword::To)
    } else if str_eq(&word, "then") {
        Token::Keyword(Keyword::Then)
    } else {
        Token::Identifier(word)
    }
}

fn single_token(c: char) -> (t: Option<Token>)
    ensures
        match t {
            Some(tok) => single_char_token(c) == Some(tok@),
            None => single_char_token(c) is None,
        },
{
    if c == '+' {
        Some(Token::Operator(Operator::Plus))
    } else if c == '-' {
        Some(Token::Operator(Operator::Minus))
    } else if c == '*' {
        Some(Token::Operator(Operator::Times))
    } else if c == '%' {
        Some(Token::Operator(Operator::Modulo))
    } else if c == '=' {
        Some(Token::Operator(Operator::Equals))
    } else if c == '(' {
        Some(Token::OpenBracket)
    } else if c == ')' {
        Some(Token::CloseBracket)
    } else if c == '[' {
        Some(Token::OpenSquareBracket)
    } else if c == ']' {
        Some(Token::CloseSquareBracket)
    } else if c == ',' {
        Some(Token::Comma)
    } else if c == '.' {
        Some(Token::Dot)
    } else {
        None
    }
}

/// Runs the lexical analysis, returning the located token sequence that
/// [`lex_spec`] assigns to the text, or the lexical error that the model
/// assigns to it.
pub fn lexer(input: &String) -> (r: Result<Vec<TokenValue>, LexError>)
    requires
        input@.len() <= MAX_SOURCE_LEN,
    ensures
        match r {
            Ok(v) => lex_spec(input@) == Ok::<Seq<TokenValueView>, LexError>(tokens_view(v@)),
            Err(e) => lex_spec(input@) == Err::<Seq<TokenValueView>, LexError>(e),
        },
{
    let s = input.as_str();
    let n = s.unicode_len();
    let mut out: Vec<TokenValue> = Vec::new();
    let mut i: usize = 0;
    let mut line: i32 = 1;
    let mut col: i32 = 0;
    while i < n
        invariant
            s@ == input@,
            n == s@.len(),
            n <= MAX_SOURCE_LEN,
            i <= n,
            1 <= line as int <= i as int + 1,
            0 <= col as int <= i as int,
            lex_spec(input@) == lex_compose(
                tokens_view(out@),
                lex_from(s@, i as nat, line as int, col as int),
            ),
        decreases n - i,
    {
        let c = s.get_char(i);
        if letter(c) {
            proof {
                assert(ident_end(s@, i as nat) == ident_end(s@, (i + 1) as nat));
            }
            let mut j = i + 1;
            while j < n && ident_char_at(s, j)
                invariant
                    i < j <= n,
                    n == s@.len(),
                    ident_end(s@, i as nat) == ident_end(s@, j as nat),
                decreases n - j,
            {
                proof {
                    assert(ident_end(s@, j as nat) == ident_end(s@, (j + 1) as nat));
                }
                j += 1;
            }
            proof {
                assert(ident_end(s@, j as nat) == j as nat);
            }
            let word: String = s.substring_char(i, j).to_owned();
            let tok = TokenValue::new(word_token(word), line, col);
            proof {
                lemma_tokens_view_push(out@, tok);
                lemma_compose_cons(
                    tokens_view(out@),
                    tok@,
                    lex_from(s@, j as nat, line as int, col as int + (j as int - i as int)),
                );
            }
            out.push(tok);
            col = col + ((j - i) as i32);
            i = j;
        } else if digit(c) {
            let mut j = i;
            let mut base = String::new();
            let mut dec: Option<String> = None;
            let mut exp: Option<String> = None;
            let mut st = NumberState::new();
            loop
                invariant
                    i <= j <= n,
                    n == s@.len(),
                    n <= MAX_SOURCE_LEN,
                    s@ == input@,
                    i < n,
                    is_digit(s@[i as int]),
                    0 <= col as int <= i as int,
                    1 <= line as int <= i as int + 1,
                    scan_number(
                        s@,
                        i as nat,
                        empty_number(),
                        NumberState { exponent: false, decimal: false },
                    ) == scan_number(
                        s@,
                        j as nat,
                        NumberView {
                            exponent: opt_str_view(exp),
                            decimal: opt_str_view(dec),
                            base: base@,
                        },
                        st,
                    ),
                    lex_spec(input@) == lex_compose(
                        tokens_view(out@),
                        lex_from(s@, i as nat, line as int, col as int),
                    ),
                ensures
                    i < j <= n,
                    scan_number(
                        s@,
                        i as nat,
                        empty_number(),
                        NumberState { exponent: false, decimal: false },
                    ) == Ok::<(NumberView, nat), nat>(
                        (
                            NumberView {
                                exponent: opt_str_view(exp),
                                decimal: opt_str_view(dec),
                                base: base@,
                            },
                            j as nat,
                        ),
                    ),
                decreases n - j,
            {
                if j >= n {
                    break ;
                }
                let cj = s.get_char(j);
                let ghost pre = NumberView {
                    exponent: opt_str_view(exp),
                    decimal: opt_str_view(dec),
                    base: base@,
                };
                if digit(cj) {
                    let cs: &str = s.substring_char(j, j + 1);
                    proof {
                        assert(cs@ =~= seq![s@[j as int]]);
                    }
                    if st.decimal {
                        dec = Some(
                            match dec {
                                Some(d) => {
                                    let mut d2 = d;
                                    d2.append(cs);
                                    d2
                                },
                                None => cs.to_owned(),
                            },
                        );
                        proof {
                            match pre.decimal {
                                Some(f) => {
                                    assert(f + seq![cj] =~= f.push(cj));
                                },
                                None => {},
                            }
                        }
                    } else if st.exponent {
                        exp = Some(
                            match exp {
                                Some(x) => {
                                    let mut x2 = x;
                                    x2.append(cs);
                                    x2
                                },
                                None => cs.to_owned(),
                            },
                        );
                        proof {
                            match pre.exponent {
                                Some(f) => {
                                    assert(f + seq![cj] =~= f.push(cj));
                                },
                                None => {},
                            }
                        }
                    } else {
                        base.append(cs);
                        proof {
                            assert(pre.base + seq![cj] =~= pre.base.push(cj));
                        }
                    }
                    proof {
                        let post = NumberView {
                            exponent: opt_str_view(exp),
                            decimal: opt_str_view(dec),
                            base: base@,
                        };
                        assert(post == num_push(pre, st, cj));
                    }
                    j += 1;
                } else if cj == '.' {
                    if j + 1 < n && digit_at(s, j + 1) {
                        let ghost st_pre = st;
                        if !st.exponent {
                            st.set_dec(true);
                        }
                        proof {
                            assert(st == dec_mode(st_pre));
                        }
                        j += 1;
                    } else {
                        let e = LexError {
                            kind: LexErrorKind::MalformedNumber,
                            loc: Loc::new(line, col + ((j - i) as i32)),
                        };
                        proof {
                            assert(scan_number(s@, j as nat, pre, st) == Err::<
                                (NumberView, nat),
                                nat,
                            >(j as nat));
                            assert(scan_number(
                                s@,
                                i as nat,
                                empty_number(),
                                NumberState { exponent: false, decimal: false },
                            ) == Err::<(NumberView, nat), nat>(j as nat));
                            assert(!is_letter(s@[i as int]));
                            assert((line as int) as i32 == line);
                            assert((col as int + (j as nat - i as nat)) as i32 == col + ((j - i)
                                as i32));
                            assert(lex_from(s@, i as nat, line as int, col as int) == Err::<
                                Seq<TokenValueView>,
                                LexError,
                            >(e));
                        }
                        return Err(e);
                    }
                } else if cj == 'e' {
                    if j + 1 < n && digit_at(s, j + 1) {
                        st.set_exp(true);
                        j += 1;
                    } else {
                        let e = LexError {
                            kind: LexErrorKind::MalformedNumber,
                            loc: Loc::new(line, col + ((j - i) as i32)),
                        };
                        proof {
                            assert(scan_number(s@, j as nat, pre, st) == Err::<
                                (NumberView, nat),
                                nat,
                            >(j as nat));
                            assert(scan_number(
                                s@,
                                i as nat,
                                empty_number(),
                                NumberState { exponent: false, decimal: false },
                            ) == Err::<(NumberView, nat), nat>(j as nat));
                            assert(!is_letter(s@[i as int]));
                            assert((line as int) as i32 == line);
                            assert((col as int + (j as nat - i as nat)) as i32 == col + ((j - i)
                                as i32));
                            assert(lex_from(s@, i as nat, line as int, col as int) == Err::<
                                Seq<TokenValueView>,
                                LexError,
                            >(e));
                        }
                        return Err(e);
                    }
                } else {
                    break ;
                }
            }
            let num = Number::from_values(&exp, &dec, &base);
            let tok = TokenValue::new(Token::Literal(LiteralValue::Number(num)), line, col);
            proof {
                lemma_tokens_view_push(out@, tok);
                lemma_compose_cons(
                    tokens_view(out@),
                    tok@,
                    lex_from(s@, j as nat, line as int, col as int + (j as int - i as int)),
                );
            }
            out.push(tok);
            col = col + ((j - i) as i32);
            i = j;
        } else if c == '\n' {
            let tok = TokenValue::new(Token::NewLine, line, col);
            proof {
                lemma_tokens_view_push(out@, tok);
                lemma_compose_cons(
                    tokens_view(out@),
                    tok@,
                    lex_from(s@, (i + 1) as nat, line as int + 1, 0),
                );
            }
            out.push(tok);
            line = line + 1;
            col = 0;
            i = i + 1;
        } else if c == ' ' || c == '\t' {
            col = col + 1;
            i = i + 1;
        } else if c == '/' {
            if i + 1 < n && s.get_char(i + 1) == '/' {
                let tok = TokenValue::new(Token::Operator(Operator::IntegerDivide), line, col);
                proof {
                    lemma_tokens_view_push(out@, tok);
                    lemma_compose_cons(
                        tokens_view(out@),
                        tok@,
                        lex_from(s@, (i + 2) as nat, line as int, col as int + 2),
                    );
                }
                out.push(tok);
                col = col + 2;
                i = i + 2;
            } else {
                let tok = TokenValue::new(Token::Operator(Operator::Divide), line, col);
                proof {
                    lemma_tokens_view_push(out@, tok);
                    lemma_compose_cons(
                        tokens_view(out@),
                        tok@,
                        lex_from(s@, (i + 1) as nat, line as int, col as int + 1),
                    );
                }
                out.push(tok);
                col = col + 1;
                i = i + 1;
            }
        } else if c == '!' {
            if i + 1 < n && s.get_char(i + 1) == '=' {
                let tok = TokenValue::new(Token::Operator(Operator::NotEquals), line, col);
                proof {
                    lemma_tokens_view_push(out@, tok);
                    lemma_compose_cons(
                        tokens_view(out@),
                        tok@,
                        lex_from(s@, (i + 2) as nat, line as int, col as int + 2),
                    );
                }
                out.push(tok);
                col = col + 2;
                i = i + 2;
            } else {
                return Err(
                    LexError { kind: LexErrorKind::UnterminatedOperator, loc: Loc::new(line, col) },
                );
            }
        } else {
            match single_token(c) {
                Some(tok0) => {
                    let tok = TokenValue::new(tok0, line, col);
                    proof {
                        lemma_tokens_view_push(out@, tok);
                        lemma_compose_cons(
                            tokens_view(out@),
                            tok@,
                            lex_from(s@, (i + 1) as nat, line as int, col as int + 1),
                        );
                    }
                    out.push(tok);
                    col = col + 1;
                    i = i + 1;
                },
                None => {
                    return Err(
                        LexError {
                            kind: LexErrorKind::UnexpectedCharacter(c),
                            loc: Loc::new(line, col),
                        },
                    );
                },
            }
        }
    }
    let eos = TokenValue::new(Token::EndOfSequence, line, col);
    proof {
        lemma_tokens_view_push(out@, eos);
        assert(tokens_view(out@) + seq![eos@] =~= tokens_view(out@).push(eos@));
    }
    out.push(eos);
    Ok(out)
}

/// Law: a successful scan always appends a single `EndOfSequence`
/// sentinel — the token sequence is never empty, its last token is the
/// sentinel, and no earlier token is.
pub proof fn lemma_single_sentinel(s: Seq<char>, i: nat, line: int, col: int)
    ensures
        match lex_from(s, i, line, col) {
            Ok(v) => v.len() > 0 && v.last().token is EndOfSequence && (forall|k: int|
                0 <= k < v.len() - 1 ==> !((#[trigger] v[k]).token is EndOfSequence)),
            Err(_) => true,
        },
    decreases s.len() - i,
{
    if i < s.len() {
        let c = s[i as int];
        if is_letter(c) {
            lemma_ident_end_ge(s, i + 1);
            assert(ident_end(s, i) == ident_end(s, i + 1));
            let j = ident_end(s, i);
            lemma_single_sentinel(s, j, line, col + (j - i));
            assert(!(classify_word(s.subrange(i as int, j as int)) is EndOfSequence));
        } else if is_digit(c) {
            let st = NumberState { exponent: false, decimal: false };
            lemma_scan_number_ge(s, i + 1, num_push(empty_number(), st, c), st);
            assert(scan_number(s, i, empty_number(), st) == scan_number(
                s,
                i + 1,
                num_push(empty_number(), st, c),
                st,
            ));
            match scan_number(s, i, empty_number(), st) {
                Ok((num, j)) => {
                    lemma_single_sentinel(s, j, line, col + (j - i));
                },
                Err(_) => {},
            }
        } else if c == '\n' {
            lemma_single_sentinel(s, i + 1, line + 1, 0);
        } else if c == ' ' || c == '\t' {
            lemma_single_sentinel(s, i + 1, line, col + 1);
        } else if c == '/' {
            if i + 1 < s.len() && s[i as int + 1] == '/' {
                lemma_single_sentinel(s, i + 2, line, col + 2);
            } else {
                lemma_single_sentinel(s, i + 1, line, col + 1);
            }
        } else if c == '!' {
            if i + 1 < s.len() && s[i as int + 1] == '=' {
                lemma_single_sentinel(s, i + 2, line, col + 2);
            }
        } else {
            match single_char_token(c) {
                Some(t) => {
                    lemma_single_sentinel(s, i + 1, line, col + 1);
                    assert(!(t is EndOfSequence));
                },
                None => {},
            }
        }
    }
}

/// Every character is a decimal digit.
pub open spec fn all_digits(w: Seq<char>) -> bool {
    forall|k: int| 0 <= k < w.len() ==> is_digit(w[k])
}

/// A decimal-looking text assembled from its three fragments:
/// `digits ['.' digits] ['e' digits]`.
pub open spec fn number_text(b: Seq<char>, d: Option<Seq<char>>, e: Option<Seq<char>>) -> Seq<
    char,
> {
    b + (match d {
        Some(f) => seq!['.'] + f,
        None => Seq::<char>::empty(),
    }) + (match e {
        Some(f) => seq!['e'] + f,
        None => Seq::<char>::empty(),
    })
}

/// Appends a whole digit run to an optional fragment.
spec fn frag_extend(o: Option<Seq<char>>, w: Seq<char>) -> Option<Seq<char>> {
    if w.len() == 0 {
        o
    } else {
        match o {
            Some(f) => Some(f + w),
            None => Some(w),
        }
    }
}

/// Appends a whole digit run to the fragment selected by the mode.
spec fn num_extend(num: NumberView, st: NumberState, w: Seq<char>) -> NumberView {
    if st.decimal {
        NumberView { exponent: num.exponent, decimal: frag_extend(num.decimal, w), base: num.base }
    } else if st.exponent {
        NumberView { exponent: frag_extend(num.exponent, w), decimal: num.decimal, base: num.base }
    } else {
        NumberView { exponent: num.exponent, decimal: num.decimal, base: num.base + w }
    }
}

proof fn lemma_scan_digit_run(s: Seq<char>, i: nat, j: nat, num: NumberView, st: NumberState)
    requires
        i <= j <= s.len(),
        forall|k: int| i <= k < j ==> is_digit(s[k]),
    ensures
        scan_number(s, i, num, st) == scan_number(
            s,
            j,
            num_extend(num, st, s.subrange(i as int, j as int)),
            st,
        ),
    decreases j - i,
{
    let w = s.subrange(i as int, j as int);
    if i == j {
        assert(w =~= Seq::<char>::empty());
        assert(num.base + w =~= num.base);
        assert(num_extend(num, st, w) == num);
    } else {
        let c = s[i as int];
        assert(is_digit(c));
        let w2 = s.subrange(i as int + 1, j as int);
        assert(w =~= seq![c] + w2);
        lemma_scan_digit_run(s, i + 1, j, num_push(num, st, c), st);
        assert(num_extend(num_push(num, st, c), st, w2) == num_extend(num, st, w)) by {
            if st.decimal {
                match num.decimal {
                    Some(f) => {
                        if w2.len() == 0 {
                            assert(f + w =~= f.push(c));
                        } else {
                            assert(f.push(c) + w2 =~= f + w);
                        }
                    },
                    None => {
                        if w2.len() == 0 {
                            assert(w =~= seq![c]);
                        } else {
                            assert(seq![c] + w2 =~= w);
                        }
                    },
                }
            } else if st.exponent {
                match num.exponent {
                    Some(f) => {
                        if w2.len() == 0 {
                            assert(f + w =~= f.push(c));
                        } else {
                            assert(f.push(c) + w2 =~= f + w);
                        }
                    },
                    None => {
                        if w2.len() == 0 {
                            assert(w =~= seq![c]);
                        } else {
                            assert(seq![c] + w2 =~= w);
                        }
                    },
                }
            } else {
                assert(num.base.push(c) + w2 =~= num.base + w);
                if w2.len() == 0 {
                    assert(num.base + w =~= num.base.push(c));
                }
            }
        }
    }
}

/// Law: lexing any decimal-looking text `digits ['.' digits] ['e' digits]`
/// yields exactly one number-literal token, at line 1 column 0, whose
/// `base`, `decimal` and `exponent` fragments are precisely the
/// corresponding substrings of the text — so reassembling the fragments
/// with [`number_text`] reproduces the text — followed by the sentinel.
pub proof fn lemma_number_round_trip(b: Seq<char>, d: Option<Seq<char>>, e: Option<Seq<char>>)
    requires
        b.len() > 0,
        all_digits(b),
        match d {
            Some(f) => f.len() > 0 && all_digits(f),
            None => true,
        },
        match e {
            Some(f) => f.len() > 0 && all_digits(f),
            None => true,
        },
    ensures
        lex_spec(number_text(b, d, e)) == Ok::<Seq<TokenValueView>, LexError>(
            seq![
                at_loc(
                    TokenView::Literal(
                        LiteralView::Number(NumberView { exponent: e, decimal: d, base: b }),
                    ),
                    1,
                    0,
                ),
                at_loc(TokenView::EndOfSequence, 1, number_text(b, d, e).len() as int),
            ],
        ),
{
    let s = number_text(b, d, e);
    let st0 = NumberState { exponent: false, decimal: false };
    let lb = b.len();
    let ld: nat = match d {
        Some(f) => 1 + f.len(),
        None => 0,
    };
    let le: nat = match e {
        Some(f) => 1 + f.len(),
        None => 0,
    };
    assert(s.len() == lb + ld + le);
    // the integer digits
    assert(forall|k: int| 0 <= k < lb ==> s[k] == b[k]);
    assert(s.subrange(0, lb as int) =~= b);
    lemma_scan_digit_run(s, 0, lb, empty_number(), st0);
    let num1 = NumberView { exponent: None, decimal: None, base: b };
    assert(Seq::<char>::empty() + b =~= b);
    assert(num_extend(empty_number(), st0, s.subrange(0, lb as int)) == num1);
    // the fractional part
    let st1 = dec_mode(st0);
    let num2 = NumberView { exponent: None, decimal: d, base: b };
    match d {
        Some(f) => {
            assert(s[lb as int] == '.');
            assert(forall|k: int| 0 <= k < f.len() ==> s[lb + 1 + k] == f[k]);
            assert(s[lb as int + 1] == f[0]);
            assert(s.subrange(lb as int + 1, (lb + ld) as int) =~= f);
            lemma_scan_digit_run(s, lb + 1, lb + ld, num1, st1);
            assert(num_extend(num1, st1, f) == num2);
            assert(scan_number(s, lb, num1, st0) == scan_number(s, lb + ld, num2, st1));
        },
        None => {
            assert(num2 == num1);
        },
    }
    let std = if d is Some {
        st1
    } else {
        st0
    };
    assert(scan_number(s, 0, empty_number(), st0) == scan_number(s, lb + ld, num2, std));
    // the exponent
    let st2 = exp_mode(std);
    let num3 = NumberView { exponent: e, decimal: d, base: b };
    match e {
        Some(f) => {
            assert(s[(lb + ld) as int] == 'e');
            assert(!is_digit('e'));
            assert(forall|k: int| 0 <= k < f.len() ==> s[lb + ld + 1 + k] == f[k]);
            assert(s[(lb + ld) as int + 1] == f[0]);
            assert(s.subrange((lb + ld) as int + 1, s.len() as int) =~= f);
            lemma_scan_digit_run(s, lb + ld + 1, s.len(), num2, st2);
            assert(num_extend(num2, st2, f) == num3);
            assert(scan_number(s, lb + ld, num2, std) == scan_number(s, s.len(), num3, st2));
        },
        None => {
            assert(num3 == num2);
            assert(lb + ld == s.len());
        },
    }
    assert(scan_number(s, 0, empty_number(), st0) == Ok::<(NumberView, nat), nat>(
        (num3, s.len()),
    ));
    // the whole scan
    assert(is_digit(s[0]));
    assert(!is_letter(s[0]));
    let tok = at_loc(TokenView::Literal(LiteralView::Number(num3)), 1, 0);
    assert(lex_from(s, s.len(), 1, s.len() as int) == Ok::<Seq<TokenValueView>, LexError>(
        seq![at_loc(TokenView::EndOfSequence, 1, s.len() as int)],
    ));
    assert(lex_spec(s) == lex_cons(
        tok,
        Ok::<Seq<TokenValueView>, LexError>(seq![at_loc(TokenView::EndOfSequence, 1, s.len() as int)]),
    ));
    assert(seq![tok] + seq![at_loc(TokenView::EndOfSequence, 1, s.len() as int)] =~= seq![
        tok,
        at_loc(TokenView::EndOfSequence, 1, s.len() as int),
    ]);
}

/// Removes and returns the first character of a non-empty string.
pub fn get_next(input: &mut String) -> (c: char)
    requires
        old(input)@.len() > 0,
    ensures
        c == old(input)@[0],
        final(input)@ == old(input)@.subrange(1, old(input)@.len() as int),
{
    let n = input.as_str().unicode_len();
    let c = input.as_str().get_char(0);
    let rest: String = input.as_str().substring_char(1, n).to_owned();
    *input = rest;
    c
}

} // verus!
