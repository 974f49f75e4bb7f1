//! Statement parsing: the full token stream is consumed left to right,
//! dispatching on the leading token of each statement and recursively
//! building statement subtrees in the arena, with expressions handed to
//! the operator-precedence parser.
//!
//! The whole parse is modelled by [`parser_spec`]. Conventions settled
//! here (the grammar leaves them open):
//! - Blocks are delimited by their terminating keywords alone (`endif`,
//!   `endwhile`, `endfor`, `endfunction`, and `elseif` between branches);
//!   indentation carries no meaning. Blank lines between statements are
//!   skipped.
//! - An `If` node's children are, in order: the condition `Expression`,
//!   the then-`Block`, and zero or more `ElseIf` nodes, each with its own
//!   condition `Expression` and `Block`.
//! - A `While` node's children: condition `Expression`, body `Block`.
//! - A `For` node's children: the loop variable `Identifier`, then either
//!   two `Expression`s (first bounded by `to`, second by `do`) for the
//!   counting form or one (bounded by `do`) for the `in` form, then the
//!   body `Block`.
//! - A `Function` node's children: name `Identifier`, `ParameterList`,
//!   body `Block`.
//! - An `Assign` node's children: target `Identifier`, then an
//!   `Expression` whose single child is the assigned expression's root.

use crate::arena::{
    Arena,
    Item,
    ItemView,
    Node,
    Tree,
    lemma_reps_frame,
    lemma_reps_widen,
    reps,
};
use crate::expr::{expr_spec, parse_expression};
use crate::token::{
    Keyword,
    clone_token_value,
    Loc,
    Operator,
    ParseError,
    ParseErrorKind,
    Token,
    TokenValue,
    TokenValueView,
    TokenView,
    tokens_view,
};
use vstd::prelude::*;

verus! {

/// The location of the token at `pos`, or `fb` if the stream is shorter.
pub open spec fn loc_of(toks: Seq<TokenValueView>, pos: nat, fb: Loc) -> Loc {
    if pos < toks.len() {
        toks[pos as int].loc
    } else {
        fb
    }
}

/// Collects the tokens from `pos` up to the first occurrence of the
/// keyword `kw`, which is consumed and not collected; its location is
/// returned with the collected tokens and the position after it. Hitting
/// a line break or the end of the stream first means the keyword is
/// missing.
pub open spec fn collect_kw_spec(toks: Seq<TokenValueView>, pos: nat, kw: Keyword, fb: Loc) -> Result<
    (Seq<TokenValueView>, nat, Loc),
    ParseError,
>
    decreases toks.len() - pos,
{
    if pos >= toks.len() {
        Err(ParseError { kind: ParseErrorKind::ExpectedKeyword(kw), loc: fb })
    } else {
        let t = toks[pos as int];
        if t.token == TokenView::Keyword(kw) {
            Ok((Seq::empty(), pos + 1, t.loc))
        } else if t.token is NewLine || t.token is EndOfSequence {
            Err(ParseError { kind: ParseErrorKind::ExpectedKeyword(kw), loc: t.loc })
        } else {
            match collect_kw_spec(toks, pos + 1, kw, fb) {
                Ok((rest, p2, l)) => Ok((seq![t] + rest, p2, l)),
                Err(e) => Err(e),
            }
        }
    }
}

/// Collects the tokens of an assigned expression, up to its terminating
/// line break (consumed) or the end-of-sequence sentinel (left in place);
/// the terminator's location is returned with the collected tokens.
pub open spec fn collect_line_spec(toks: Seq<TokenValueView>, pos: nat, fb: Loc) -> (
    Seq<TokenValueView>,
    nat,
    Loc,
)
    decreases toks.len() - pos,
{
    if pos >= toks.len() {
        (Seq::empty(), pos, fb)
    } else {
        let t = toks[pos as int];
        if t.token is NewLine {
            (Seq::empty(), pos + 1, t.loc)
        } else if t.token is EndOfSequence {
            (Seq::empty(), pos, t.loc)
        } else {
            let r = collect_line_spec(toks, pos + 1, fb);
            (seq![t] + r.0, r.1, r.2)
        }
    }
}

/// Collects a function's parameter names from `pos` up to the closing
/// bracket (consumed). A comma separates and contributes nothing; any
/// token other than an identifier or a comma is a malformed parameter
/// list.
pub open spec fn params_spec(toks: Seq<TokenValueView>, pos: nat, fb: Loc) -> Result<
    (Seq<Seq<char>>, nat),
    ParseError,
>
    decreases toks.len() - pos,
{
    if pos >= toks.len() {
        Err(ParseError { kind: ParseErrorKind::MalformedParameterList, loc: fb })
    } else {
        let t = toks[pos as int];
        match t.token {
            TokenView::CloseBracket => Ok((Seq::empty(), pos + 1)),
            TokenView::Comma => params_spec(toks, pos + 1, fb),
            TokenView::Identifier(name) => match params_spec(toks, pos + 1, fb) {
                Ok((rest, p2)) => Ok((seq![name] + rest, p2)),
                Err(e) => Err(e),
            },
            _ => Err(ParseError { kind: ParseErrorKind::MalformedParameterList, loc: t.loc }),
        }
    }
}

/// The `Expression` wrapper node around a parsed expression subtree,
/// located at the expression's first token (or at the terminator, if the
/// expression is empty).
pub open spec fn expr_wrap(cond: Seq<TokenValueView>, et: Tree, term_loc: Loc) -> Tree {
    Tree {
        item: ItemView::Expression,
        loc: if cond.len() > 0 {
            cond[0].loc
        } else {
            term_loc
        },
        children: seq![et],
    }
}

/// A leaf tree.
pub open spec fn leaf(item: ItemView, loc: Loc) -> Tree {
    Tree { item, loc, children: Seq::empty() }
}

/// Forces a returned position to make progress and stay inside the
/// stream, so that the mutual recursion below visibly terminates; every
/// parsing step does consume at least one token and never runs past the
/// end, so the adjustment never actually fires.
pub open spec fn bump(limit: nat, pos: nat, p2: nat) -> nat {
    if pos < p2 && p2 <= limit {
        p2
    } else if pos + 1 <= limit {
        pos + 1
    } else {
        limit
    }
}

/// Whether a token ends a block without being consumed by it.
pub open spec fn is_block_end(t: TokenView) -> bool {
    ||| t == TokenView::Keyword(Keyword::EndIf)
    ||| t == TokenView::Keyword(Keyword::EndWhile)
    ||| t == TokenView::Keyword(Keyword::EndFor)
    ||| t == TokenView::Keyword(Keyword::EndFunction)
    ||| t == TokenView::Keyword(Keyword::ElseIf)
    ||| t is EndOfSequence
}

/// One statement from `pos`: the subtree it builds and the position after
/// it.
pub open spec fn stmt_spec(toks: Seq<TokenValueView>, pos: nat) -> Result<(Tree, nat), ParseError>
    decreases toks.len() - pos, 0int,
{
    if pos >= toks.len() {
        Err(
            ParseError {
                kind: ParseErrorKind::UnexpectedToken,
                loc: Loc { line_num: 0, column_num: 0 },
            },
        )
    } else {
        let t = toks[pos as int];
        match t.token {
            TokenView::Keyword(Keyword::If) => if_spec(toks, pos + 1, t.loc),
            TokenView::Keyword(Keyword::While) => while_spec(toks, pos + 1, t.loc),
            TokenView::Keyword(Keyword::For) => for_spec(toks, pos + 1, t.loc),
            TokenView::Keyword(Keyword::Function) => function_spec(toks, pos + 1, t.loc),
            TokenView::Identifier(name) => {
                if pos + 1 < toks.len() && toks[pos as int + 1].token == TokenView::Operator(
                    Operator::Equals,
                ) {
                    let col = collect_line_spec(toks, pos + 2, toks[pos as int + 1].loc);
                    match expr_spec(col.0, col.2) {
                        Ok(et) => Ok(
                            (
                                Tree {
                                    item: ItemView::Assign,
                                    loc: t.loc,
                                    children: seq![
                                        leaf(ItemView::Identifier(name), t.loc),
                                        expr_wrap(col.0, et, col.2),
                                    ],
                                },
                                col.1,
                            ),
                        ),
                        Err(e) => Err(e),
                    }
                } else if pos + 1 < toks.len() {
                    Err(
                        ParseError {
                            kind: ParseErrorKind::UnexpectedToken,
                            loc: toks[pos as int + 1].loc,
                        },
                    )
                } else {
                    Err(ParseError { kind: ParseErrorKind::UnexpectedToken, loc: t.loc })
                }
            },
            _ => Err(ParseError { kind: ParseErrorKind::UnexpectedToken, loc: t.loc }),
        }
    }
}

/// An `if` statement, from the position after its keyword: condition
/// tokens up to `then`, a line break, the then-block, any `elseif`
/// branches, and the closing `endif`.
pub open spec fn if_spec(toks: Seq<TokenValueView>, pos: nat, kwloc: Loc) -> Result<
    (Tree, nat),
    ParseError,
>
    decreases toks.len() - pos, 0int,
{
    match collect_kw_spec(toks, pos, Keyword::Then, kwloc) {
        Err(e) => Err(e),
        Ok((cond, p2, thenloc)) => {
            if p2 < toks.len() && toks[p2 as int].token is NewLine {
                match expr_spec(cond, thenloc) {
                    Err(e) => Err(e),
                    Ok(ct) => match block_spec(toks, bump(toks.len(), pos, p2 + 1)) {
                        Err(e) => Err(e),
                        Ok((body, p3)) => match elseifs_spec(toks, bump(toks.len(), pos, p3)) {
                            Err(e) => Err(e),
                            Ok((elifs, p4)) => {
                                if p4 < toks.len() && toks[p4 as int].token == TokenView::Keyword(
                                    Keyword::EndIf,
                                ) {
                                    Ok(
                                        (
                                            Tree {
                                                item: ItemView::If,
                                                loc: kwloc,
                                                children: seq![
                                                    expr_wrap(cond, ct, thenloc),
                                                    Tree {
                                                        item: ItemView::Block,
                                                        loc: kwloc,
                                                        children: body,
                                                    },
                                                ] + elifs,
                                            },
                                            p4 + 1,
                                        ),
                                    )
                                } else {
                                    Err(
                                        ParseError {
                                            kind: ParseErrorKind::ExpectedKeyword(Keyword::EndIf),
                                            loc: loc_of(toks, p4, kwloc),
                                        },
                                    )
                                }
                            },
                        },
                    },
                }
            } else {
                Err(
                    ParseError {
                        kind: ParseErrorKind::ExpectedNewLine,
                        loc: loc_of(toks, p2, thenloc),
                    },
                )
            }
        },
    }
}

/// The chain of `elseif` branches after a then-block: each contributes an
/// `ElseIf` node with its condition `Expression` and its `Block`.
pub open spec fn elseifs_spec(toks: Seq<TokenValueView>, pos: nat) -> Result<
    (Seq<Tree>, nat),
    ParseError,
>
    decreases toks.len() - pos, 0int,
{
    if pos < toks.len() && toks[pos as int].token == TokenView::Keyword(Keyword::ElseIf) {
        let kwloc = toks[pos as int].loc;
        match collect_kw_spec(toks, pos + 1, Keyword::Then, kwloc) {
            Err(e) => Err(e),
            Ok((cond, p2, thenloc)) => {
                if p2 < toks.len() && toks[p2 as int].token is NewLine {
                    match expr_spec(cond, thenloc) {
                        Err(e) => Err(e),
                        Ok(ct) => match block_spec(toks, bump(toks.len(), pos, p2 + 1)) {
                            Err(e) => Err(e),
                            Ok((body, p3)) => match elseifs_spec(toks, bump(toks.len(), pos, p3)) {
                                Err(e) => Err(e),
                                Ok((rest, p4)) => Ok(
                                    (
                                        seq![
                                            Tree {
                                                item: ItemView::ElseIf,
                                                loc: kwloc,
                                                children: seq![
                                                    expr_wrap(cond, ct, thenloc),
                                                    Tree {
                                                        item: ItemView::Block,
                                                        loc: kwloc,
                                                        children: body,
                                                    },
                                                ],
                                            },
                                        ] + rest,
                                        p4,
                                    ),
                                ),
                            },
                        },
                    }
                } else {
                    Err(
                        ParseError {
                            kind: ParseErrorKind::ExpectedNewLine,
                            loc: loc_of(toks, p2, thenloc),
                        },
                    )
                }
            },
        }
    } else {
        Ok((Seq::empty(), pos))
    }
}

/// A `while` statement, from the position after its keyword: condition
/// tokens up to `do`, the body, and the closing `endwhile`.
pub open spec fn while_spec(toks: Seq<TokenValueView>, pos: nat, kwloc: Loc) -> Result<
    (Tree, nat),
    ParseError,
>
    decreases toks.len() - pos, 0int,
{
    match collect_kw_spec(toks, pos, Keyword::Do, kwloc) {
        Err(e) => Err(e),
        Ok((cond, p2, doloc)) => match expr_spec(cond, doloc) {
            Err(e) => Err(e),
            Ok(ct) => match block_spec(toks, bump(toks.len(), pos, p2)) {
                Err(e) => Err(e),
                Ok((body, p3)) => {
                    if p3 < toks.len() && toks[p3 as int].token == TokenView::Keyword(
                        Keyword::EndWhile,
                    ) {
                        Ok(
                            (
                                Tree {
                                    item: ItemView::While,
                                    loc: kwloc,
                                    children: seq![
                                        expr_wrap(cond, ct, doloc),
                                        Tree { item: ItemView::Block, loc: kwloc, children: body },
                                    ],
                                },
                                p3 + 1,
                            ),
                        )
                    } else {
                        Err(
                            ParseError {
                                kind: ParseErrorKind::ExpectedKeyword(Keyword::EndWhile),
                                loc: loc_of(toks, p3, kwloc),
                            },
                        )
                    }
                },
            },
        },
    }
}

/// A `for` statement, from the position after its keyword: the loop
/// variable, then either `= <expr> to <expr> do` (counting form) or
/// `in <expr> do` (iteration form), the body, and the closing `endfor`.
pub open spec fn for_spec(toks: Seq<TokenValueView>, pos: nat, kwloc: Loc) -> Result<
    (Tree, nat),
    ParseError,
>
    decreases toks.len() - pos, 0int,
{
    if pos >= toks.len() {
        Err(ParseError { kind: ParseErrorKind::ExpectedIdentifier, loc: kwloc })
    } else {
        let vt = toks[pos as int];
        match vt.token {
            TokenView::Identifier(var) => {
                if pos + 1 >= toks.len() {
                    Err(ParseError { kind: ParseErrorKind::UnexpectedToken, loc: vt.loc })
                } else if toks[pos as int + 1].token == TokenView::Operator(Operator::Equals) {
                    match collect_kw_spec(toks, pos + 2, Keyword::To, kwloc) {
                        Err(e) => Err(e),
                        Ok((e1, p2, toloc)) => match collect_kw_spec(toks, p2, Keyword::Do, kwloc) {
                            Err(e) => Err(e),
                            Ok((e2, p3, doloc)) => match expr_spec(e1, toloc) {
                                Err(e) => Err(e),
                                Ok(t1) => match expr_spec(e2, doloc) {
                                    Err(e) => Err(e),
                                    Ok(t2) => match block_spec(toks, bump(toks.len(), pos, p3)) {
                                        Err(e) => Err(e),
                                        Ok((body, p4)) => {
                                            if p4 < toks.len() && toks[p4 as int].token
                                                == TokenView::Keyword(Keyword::EndFor) {
                                                Ok(
                                                    (
                                                        Tree {
                                                            item: ItemView::For,
                                                            loc: kwloc,
                                                            children: seq![
                                                                leaf(
                                                                    ItemView::Identifier(var),
                                                                    vt.loc,
                                                                ),
                                                                expr_wrap(e1, t1, toloc),
                                                                expr_wrap(e2, t2, doloc),
                                                                Tree {
                                                                    item: ItemView::Block,
                                                                    loc: kwloc,
                                                                    children: body,
                                                                },
                                                            ],
                                                        },
                                                        p4 + 1,
                                                    ),
                                                )
                                            } else {
                                                Err(
                                                    ParseError {
                                                        kind: ParseErrorKind::ExpectedKeyword(
                                                            Keyword::EndFor,
                                                        ),
                                                        loc: loc_of(toks, p4, kwloc),
                                                    },
                                                )
                                            }
                                        },
                                    },
                                },
                            },
                        },
                    }
                } else if toks[pos as int + 1].token == TokenView::Operator(Operator::In) {
                    match collect_kw_spec(toks, pos + 2, Keyword::Do, kwloc) {
                        Err(e) => Err(e),
                        Ok((e1, p2, doloc)) => match expr_spec(e1, doloc) {
                            Err(e) => Err(e),
                            Ok(t1) => match block_spec(toks, bump(toks.len(), pos, p2)) {
                                Err(e) => Err(e),
                                Ok((body, p3)) => {
                                    if p3 < toks.len() && toks[p3 as int].token
                                        == TokenView::Keyword(Keyword::EndFor) {
                                        Ok(
                                            (
                                                Tree {
                                                    item: ItemView::For,
                                                    loc: kwloc,
                                                    children: seq![
                                                        leaf(ItemView::Identifier(var), vt.loc),
                                                        expr_wrap(e1, t1, doloc),
                                                        Tree {
                                                            item: ItemView::Block,
                                                            loc: kwloc,
                                                            children: body,
                                                        },
                                                    ],
                                                },
                                                p3 + 1,
                                            ),
                                        )
                                    } else {
                                        Err(
                                            ParseError {
                                                kind: ParseErrorKind::ExpectedKeyword(
                                                    Keyword::EndFor,
                                                ),
                                                loc: loc_of(toks, p3, kwloc),
                                            },
                                        )
                                    }
                                },
                            },
                        },
                    }
                } else {
                    Err(
                        ParseError {
                            kind: ParseErrorKind::UnexpectedToken,
                            loc: toks[pos as int + 1].loc,
                        },
                    )
                }
            },
            _ => Err(ParseError { kind: ParseErrorKind::ExpectedIdentifier, loc: vt.loc }),
        }
    }
}

/// A `function` definition, from the position after its keyword: the
/// name, the bracketed parameter list, a line break, the body, and the
/// closing `endfunction`.
pub open spec fn function_spec(toks: Seq<TokenValueView>, pos: nat, kwloc: Loc) -> Result<
    (Tree, nat),
    ParseError,
>
    decreases toks.len() - pos, 0int,
{
    if pos >= toks.len() {
        Err(ParseError { kind: ParseErrorKind::ExpectedIdentifier, loc: kwloc })
    } else {
        let nt = toks[pos as int];
        match nt.token {
            TokenView::Identifier(name) => {
                if pos + 1 < toks.len() && toks[pos as int + 1].token is OpenBracket {
                    let obloc = toks[pos as int + 1].loc;
                    match params_spec(toks, pos + 2, obloc) {
                        Err(e) => Err(e),
                        Ok((params, p2)) => {
                            if p2 < toks.len() && toks[p2 as int].token is NewLine {
                                match block_spec(toks, bump(toks.len(), pos, p2 + 1)) {
                                    Err(e) => Err(e),
                                    Ok((body, p3)) => {
                                        if p3 < toks.len() && toks[p3 as int].token
                                            == TokenView::Keyword(Keyword::EndFunction) {
                                            Ok(
                                                (
                                                    Tree {
                                                        item: ItemView::Function,
                                                        loc: kwloc,
                                                        children: seq![
                                                            leaf(
                                                                ItemView::Identifier(name),
                                                                nt.loc,
                                                            ),
                                                            leaf(
                                                                ItemView::ParameterList(params),
                                                                obloc,
                                                            ),
                                                            Tree {
                                                                item: ItemView::Block,
                                                                loc: kwloc,
                                                                children: body,
                                                            },
                                                        ],
                                                    },
                                                    p3 + 1,
                                                ),
                                            )
                                        } else {
                                            Err(
                                                ParseError {
                                                    kind: ParseErrorKind::ExpectedKeyword(
                                                        Keyword::EndFunction,
                                                    ),
                                                    loc: loc_of(toks, p3, kwloc),
                                                },
                                            )
                                        }
                                    },
                                }
                            } else {
                                Err(
                                    ParseError {
                                        kind: ParseErrorKind::ExpectedNewLine,
                                        loc: loc_of(toks, p2, kwloc),
                                    },
                                )
                            }
                        },
                    }
                } else {
                    Err(
                        ParseError {
                            kind: ParseErrorKind::ExpectedOpenBracket,
                            loc: loc_of(toks, pos + 1, nt.loc),
                        },
                    )
                }
            },
            _ => Err(ParseError { kind: ParseErrorKind::ExpectedIdentifier, loc: nt.loc }),
        }
    }
}

/// A block: statements separated by line breaks, ending (without
/// consuming the terminator) at a block-ending keyword or at the end of
/// the stream.
pub open spec fn block_spec(toks: Seq<TokenValueView>, pos: nat) -> Result<
    (Seq<Tree>, nat),
    ParseError,
>
    decreases toks.len() - pos, 1int,
{
    if pos >= toks.len() {
        Ok((Seq::empty(), pos))
    } else if toks[pos as int].token is NewLine {
        block_spec(toks, pos + 1)
    } else if is_block_end(toks[pos as int].token) {
        Ok((Seq::empty(), pos))
    } else {
        match stmt_spec(toks, pos) {
            Err(e) => Err(e),
            Ok((st, p2)) => match block_spec(toks, bump(toks.len(), pos, p2)) {
                Err(e) => Err(e),
                Ok((rest, p3)) => Ok((seq![st] + rest, p3)),
            },
        }
    }
}

/// The program: statements until the end-of-sequence sentinel (or the end
/// of the stream); a block-terminating keyword here is an error, raised
/// by the statement dispatch.
pub open spec fn program_spec(toks: Seq<TokenValueView>, pos: nat) -> Result<
    (Seq<Tree>, nat),
    ParseError,
>
    decreases toks.len() - pos, 1int,
{
    if pos >= toks.len() {
        Ok((Seq::empty(), pos))
    } else if toks[pos as int].token is NewLine {
        program_spec(toks, pos + 1)
    } else if toks[pos as int].token is EndOfSequence {
        Ok((Seq::empty(), pos))
    } else {
        match stmt_spec(toks, pos) {
            Err(e) => Err(e),
            Ok((st, p2)) => match program_spec(toks, bump(toks.len(), pos, p2)) {
                Err(e) => Err(e),
                Ok((rest, p3)) => Ok((seq![st] + rest, p3)),
            },
        }
    }
}

/// Glues already-collected tokens onto the result of collecting the rest.
spec fn kw_cons(
    pre: Seq<TokenValueView>,
    r: Result<(Seq<TokenValueView>, nat, Loc), ParseError>,
) -> Result<(Seq<TokenValueView>, nat, Loc), ParseError> {
    match r {
        Ok((s, p, l)) => Ok((pre + s, p, l)),
        Err(e) => Err(e),
    }
}

/// Glues already-collected tokens onto the result of collecting the rest
/// of an expression line.
spec fn line_cons(pre: Seq<TokenValueView>, r: (Seq<TokenValueView>, nat, Loc)) -> (
    Seq<TokenValueView>,
    nat,
    Loc,
) {
    (pre + r.0, r.1, r.2)
}

/// Glues already-collected parameter names onto the result of collecting
/// the rest.
spec fn params_cons(pre: Seq<Seq<char>>, r: Result<(Seq<Seq<char>>, nat), ParseError>) -> Result<
    (Seq<Seq<char>>, nat),
    ParseError,
> {
    match r {
        Ok((s, p)) => Ok((pre + s, p)),
        Err(e) => Err(e),
    }
}

/// Cuts the tokens up to the first `kw` out of the stream, per
/// [`collect_kw_spec`], advancing the cursor past the keyword and
/// returning the keyword's location with the collected tokens.
fn collect_kw(tokens: &Vec<TokenValue>, pos: &mut usize, kw: Keyword, fb: Loc) -> (r: Result<
    (Vec<TokenValue>, Loc),
    ParseError,
>)
    requires
        *old(pos) <= tokens@.len(),
    ensures
        match r {
            Ok(col) => collect_kw_spec(tokens_view(tokens@), *old(pos) as nat, kw, fb) == Ok::<
                (Seq<TokenValueView>, nat, Loc),
                ParseError,
            >((tokens_view(col.0@), *final(pos) as nat, col.1)) && *old(pos) < *final(pos)
                <= tokens@.len(),
            Err(e) => collect_kw_spec(tokens_view(tokens@), *old(pos) as nat, kw, fb) == Err::<
                (Seq<TokenValueView>, nat, Loc),
                ParseError,
            >(e),
        },
{
    let ghost tv = tokens_view(tokens@);
    let ghost p0 = *old(pos) as nat;
    let mut out: Vec<TokenValue> = Vec::new();
    let mut kwl = fb;
    proof {
        assert(tokens_view(out@) =~= Seq::<TokenValueView>::empty());
        assert(collect_kw_spec(tv, p0, kw, fb) == kw_cons(
            tokens_view(out@),
            collect_kw_spec(tv, p0, kw, fb),
        ));
    }
    loop
        invariant_except_break
            collect_kw_spec(tv, p0, kw, fb) == kw_cons(
                tokens_view(out@),
                collect_kw_spec(tv, *pos as nat, kw, fb),
            ),
        invariant
            p0 == *old(pos) as nat,
            p0 <= *pos <= tokens@.len(),
            tv == tokens_view(tokens@),
        ensures
            collect_kw_spec(tv, p0, kw, fb) == Ok::<(Seq<TokenValueView>, nat, Loc), ParseError>(
                (tokens_view(out@), *pos as nat, kwl),
            ),
            p0 < *pos <= tokens@.len(),
        decreases tokens@.len() - *pos,
    {
        if *pos >= tokens.len() {
            let e = ParseError { kind: ParseErrorKind::ExpectedKeyword(kw), loc: fb };
            return Err(e);
        }
        proof {
            assert(tv[*pos as int] == tokens@[*pos as int]@);
        }
        let t_loc = tokens[*pos].loc;
        let (is_kw, is_stop) = match &tokens[*pos].token {
            Token::Keyword(k2) => (*k2 == kw, false),
            Token::NewLine => (false, true),
            Token::EndOfSequence => (false, true),
            _ => (false, false),
        };
        if is_kw {
            kwl = t_loc;
            proof {
                assert(collect_kw_spec(tv, *pos as nat, kw, fb) == Ok::<
                    (Seq<TokenValueView>, nat, Loc),
                    ParseError,
                >((Seq::empty(), (*pos + 1) as nat, t_loc)));
                assert(tokens_view(out@) + Seq::<TokenValueView>::empty() =~= tokens_view(out@));
            }
            *pos = *pos + 1;
            break ;
        }
        if is_stop {
            let e = ParseError { kind: ParseErrorKind::ExpectedKeyword(kw), loc: t_loc };
            return Err(e);
        }
        let ct = clone_token_value(&tokens[*pos]);
        proof {
            assert(tokens_view(out@.push(ct)) =~= tokens_view(out@).push(ct@));
            assert(tokens_view(out@).push(ct@) + match collect_kw_spec(
                tv,
                (*pos + 1) as nat,
                kw,
                fb,
            ) {
                Ok((s, p, l)) => s,
                Err(_) => Seq::empty(),
            } =~= tokens_view(out@) + (seq![tv[*pos as int]] + match collect_kw_spec(
                tv,
                (*pos + 1) as nat,
                kw,
                fb,
            ) {
                Ok((s, p, l)) => s,
                Err(_) => Seq::empty(),
            }));
        }
        out.push(ct);
        *pos = *pos + 1;
    }
    Ok((out, kwl))
}

/// Cuts an assigned expression's tokens out of the stream, per
/// [`collect_line_spec`], advancing the cursor past a terminating line
/// break (but not past the end-of-sequence sentinel), and returning the
/// terminator's location with the collected tokens.
fn collect_line(tokens: &Vec<TokenValue>, pos: &mut usize, fb: Loc) -> (r: (Vec<TokenValue>, Loc))
    requires
        *old(pos) <= tokens@.len(),
    ensures
        collect_line_spec(tokens_view(tokens@), *old(pos) as nat, fb) == (
            tokens_view(r.0@),
            *final(pos) as nat,
            r.1,
        ),
        *old(pos) <= *final(pos) <= tokens@.len(),
{
    let ghost tv = tokens_view(tokens@);
    let ghost p0 = *old(pos) as nat;
    let mut out: Vec<TokenValue> = Vec::new();
    let mut term = fb;
    proof {
        assert(tokens_view(out@) =~= Seq::<TokenValueView>::empty());
    }
    loop
        invariant_except_break
            collect_line_spec(tv, p0, fb) == line_cons(
                tokens_view(out@),
                collect_line_spec(tv, *pos as nat, fb),
            ),
        invariant
            p0 == *old(pos) as nat,
            p0 <= *pos <= tokens@.len(),
            tv == tokens_view(tokens@),
        ensures
            collect_line_spec(tv, p0, fb) == (tokens_view(out@), *pos as nat, term),
            p0 <= *pos <= tokens@.len(),
        decreases tokens@.len() - *pos,
    {
        if *pos >= tokens.len() {
            proof {
                assert(tokens_view(out@) + Seq::<TokenValueView>::empty() =~= tokens_view(out@));
            }
            term = fb;
            break ;
        }
        proof {
            assert(tv[*pos as int] == tokens@[*pos as int]@);
        }
        let t_loc = tokens[*pos].loc;
        let (is_nl, is_eos) = match &tokens[*pos].token {
            Token::NewLine => (true, false),
            Token::EndOfSequence => (false, true),
            _ => (false, false),
        };
        if is_nl {
            proof {
                assert(tokens_view(out@) + Seq::<TokenValueView>::empty() =~= tokens_view(out@));
            }
            term = t_loc;
            *pos = *pos + 1;
            break ;
        }
        if is_eos {
            proof {
                assert(tokens_view(out@) + Seq::<TokenValueView>::empty() =~= tokens_view(out@));
            }
            term = t_loc;
            break ;
        }
        let ct = clone_token_value(&tokens[*pos]);
        proof {
            assert(tokens_view(out@.push(ct)) =~= tokens_view(out@).push(ct@));
            assert(tokens_view(out@).push(ct@) + collect_line_spec(tv, (*pos + 1) as nat, fb).0
                =~= tokens_view(out@) + (seq![tv[*pos as int]] + collect_line_spec(
                tv,
                (*pos + 1) as nat,
                fb,
            ).0));
        }
        out.push(ct);
        *pos = *pos + 1;
    }
    (out, term)
}

/// Reads a function's parameter names up to the closing bracket, per
/// [`params_spec`], advancing the cursor past it.
fn parse_params(tokens: &Vec<TokenValue>, pos: &mut usize, fb: Loc) -> (r: Result<
    Vec<String>,
    ParseError,
>)
    requires
        *old(pos) <= tokens@.len(),
    ensures
        match r {
            Ok(ps) => params_spec(tokens_view(tokens@), *old(pos) as nat, fb) == Ok::<
                (Seq<Seq<char>>, nat),
                ParseError,
            >((crate::arena::strings_view(ps@), *final(pos) as nat)) && *old(pos) < *final(pos)
                <= tokens@.len(),
            Err(e) => params_spec(tokens_view(tokens@), *old(pos) as nat, fb) == Err::<
                (Seq<Seq<char>>, nat),
                ParseError,
            >(e),
        },
{
    let ghost tv = tokens_view(tokens@);
    let ghost p0 = *old(pos) as nat;
    let mut out: Vec<String> = Vec::new();
    proof {
        assert(crate::arena::strings_view(out@) =~= Seq::<Seq<char>>::empty());
    }
    loop
        invariant_except_break
            params_spec(tv, p0, fb) == params_cons(
                crate::arena::strings_view(out@),
                params_spec(tv, *pos as nat, fb),
            ),
        invariant
            p0 == *old(pos) as nat,
            p0 <= *pos <= tokens@.len(),
            tv == tokens_view(tokens@),
        ensures
            params_spec(tv, p0, fb) == Ok::<(Seq<Seq<char>>, nat), ParseError>(
                (crate::arena::strings_view(out@), *pos as nat),
            ),
            p0 < *pos <= tokens@.len(),
        decreases tokens@.len() - *pos,
    {
        if *pos >= tokens.len() {
            let e = ParseError { kind: ParseErrorKind::MalformedParameterList, loc: fb };
            return Err(e);
        }
        proof {
            assert(tv[*pos as int] == tokens@[*pos as int]@);
        }
        let t_loc = tokens[*pos].loc;
        match &tokens[*pos].token {
            Token::CloseBracket => {
                proof {
                    assert(crate::arena::strings_view(out@) + Seq::<Seq<char>>::empty()
                        =~= crate::arena::strings_view(out@));
                }
                *pos = *pos + 1;
                break ;
            },
            Token::Comma => {
                *pos = *pos + 1;
            },
            Token::Identifier(nm) => {
                let s = nm.clone();
                proof {
                    assert(crate::arena::strings_view(out@.push(s)) =~= crate::arena::strings_view(
                        out@,
                    ).push(s@));
                    assert(crate::arena::strings_view(out@).push(s@) + match params_spec(
                        tv,
                        (*pos + 1) as nat,
                        fb,
                    ) {
                        Ok((ss, p)) => ss,
                        Err(_) => Seq::empty(),
                    } =~= crate::arena::strings_view(out@) + (seq![s@] + match params_spec(
                        tv,
                        (*pos + 1) as nat,
                        fb,
                    ) {
                        Ok((ss, p)) => ss,
                        Err(_) => Seq::empty(),
                    }));
                }
                out.push(s);
                *pos = *pos + 1;
            },
            _ => {
                let e = ParseError { kind: ParseErrorKind::MalformedParameterList, loc: t_loc };
                return Err(e);
            },
        }
    }
    Ok(out)
}

fn tok_is_kw(t: &Token, kw: Keyword) -> (b: bool)
    ensures
        b == (t@ == TokenView::Keyword(kw)),
{
    match t {
        Token::Keyword(k2) => *k2 == kw,
        _ => false,
    }
}

fn tok_is_newline(t: &Token) -> (b: bool)
    ensures
        b == (t@ is NewLine),
{
    match t {
        Token::NewLine => true,
        _ => false,
    }
}

fn tok_is_eos(t: &Token) -> (b: bool)
    ensures
        b == (t@ is EndOfSequence),
{
    match t {
        Token::EndOfSequence => true,
        _ => false,
    }
}

fn tok_is_op(t: &Token, o: Operator) -> (b: bool)
    ensures
        b == (t@ == TokenView::Operator(o)),
{
    match t {
        Token::Operator(o2) => *o2 == o,
        _ => false,
    }
}

fn tok_block_end(t: &Token) -> (b: bool)
    ensures
        b == is_block_end(t@),
{
    match t {
        Token::Keyword(Keyword::EndIf) => true,
        Token::Keyword(Keyword::EndWhile) => true,
        Token::Keyword(Keyword::EndFor) => true,
        Token::Keyword(Keyword::EndFunction) => true,
        Token::Keyword(Keyword::ElseIf) => true,
        Token::EndOfSequence => true,
        _ => false,
    }
}

/// Glues already-parsed statements onto the result of parsing the rest of
/// a block.
spec fn blk_cons(pre: Seq<Tree>, r: Result<(Seq<Tree>, nat), ParseError>) -> Result<
    (Seq<Tree>, nat),
    ParseError,
> {
    match r {
        Ok((ts, p)) => Ok((pre + ts, p)),
        Err(e) => Err(e),
    }
}

/// Creates the `Expression` wrapper node for one collected expression:
/// parses the tokens into a subtree and hangs it under a fresh
/// `Expression` node, whose handle is returned.
fn build_expr_node(col: &Vec<TokenValue>, term: Loc, arena: &mut Arena) -> (r: Result<
    usize,
    ParseError,
>)
    requires
        old(arena).wf(),
    ensures
        final(arena).wf(),
        crate::arena::extends(old(arena)@, final(arena)@),
        match r {
            Ok(wid) => expr_spec(tokens_view(col@), term) matches Ok(et) && reps(
                final(arena)@,
                wid as int,
                expr_wrap(tokens_view(col@), et, term),
                old(arena)@.nodes.len() as int,
                final(arena)@.nodes.len() as int,
            ),
            Err(e) => expr_spec(tokens_view(col@), term) == Err::<Tree, ParseError>(e),
        },
{
    let wloc = if col.len() > 0 {
        proof {
            assert(tokens_view(col@)[0] == col@[0]@);
        }
        col[0].loc
    } else {
        term
    };
    let ghost lo = arena@.nodes.len() as int;
    let wid = arena.new_node(Node::new(Item::Expression, wloc));
    let ghost a1 = arena@;
    match parse_expression(col, term, arena) {
        Err(e) => Err(e),
        Ok(eroot) => {
            let ghost a2 = arena@;
            arena.append(wid, eroot);
            proof {
                let et = expr_spec(tokens_view(col@), term)->Ok_0;
                lemma_reps_frame(
                    a2,
                    arena@,
                    eroot as int,
                    et,
                    a1.nodes.len() as int,
                    a2.nodes.len() as int,
                    wid as int,
                );
                lemma_reps_widen(
                    arena@,
                    eroot as int,
                    et,
                    a1.nodes.len() as int,
                    a2.nodes.len() as int,
                    lo,
                    arena@.nodes.len() as int,
                );
                assert(arena@.kids[wid as int] =~= seq![eroot as int]);
                assert(reps(
                    arena@,
                    wid as int,
                    expr_wrap(tokens_view(col@), et, term),
                    lo,
                    arena@.nodes.len() as int,
                ));
            }
            Ok(wid)
        },
    }
}

/// Parses the statements of one block, appending each as the next child
/// of `block_id`, until a block-ending token (left unconsumed); returns
/// the position of that token.
fn parse_block(tokens: &Vec<TokenValue>, pos: usize, arena: &mut Arena, block_id: usize) -> (r:
    Result<usize, ParseError>)
    requires
        old(arena).wf(),
        pos <= tokens@.len(),
        block_id < old(arena)@.nodes.len(),
    ensures
        final(arena).wf(),
        old(arena)@.nodes.len() <= final(arena)@.nodes.len(),
        forall|j: int|
            0 <= j < old(arena)@.nodes.len() ==> (#[trigger] final(arena)@.nodes[j]) == old(arena)@.nodes[j],
        forall|j: int|
            0 <= j < old(arena)@.nodes.len() && j != block_id as int ==> (#[trigger] final(arena)@.kids[j]) == old(arena)@.kids[j],
        match r {
            Ok(p2) => block_spec(tokens_view(tokens@), pos as nat) matches Ok(bres) && bres.1 == p2
                as nat && pos <= p2 <= tokens@.len() && final(arena)@.kids[block_id as int] == old(arena)@.kids[block_id as int] + Seq::new(
                bres.0.len(),
                |x: int| final(arena)@.kids[block_id as int][old(arena)@.kids[block_id as int].len()
                    + x],
            ) && (forall|x: int|
                0 <= x < bres.0.len() ==> reps(
                    final(arena)@,
                    final(arena)@.kids[block_id as int][old(arena)@.kids[block_id as int].len()
                        + x],
                    #[trigger] bres.0[x],
                    old(arena)@.nodes.len() as int,
                    final(arena)@.nodes.len() as int,
                )) && final(arena)@.kids[block_id as int].len() == old(arena)@.kids[block_id
                as int].len() + bres.0.len(),
            Err(e) => block_spec(tokens_view(tokens@), pos as nat) == Err::<
                (Seq<Tree>, nat),
                ParseError,
            >(e),
        },
    decreases tokens@.len() - pos, 1int,
{
    let ghost tv = tokens_view(tokens@);
    let ghost lo = arena@.nodes.len() as int;
    let ghost k0 = arena@.kids[block_id as int];
    let mut cur = pos;
    let ghost mut done: Seq<Tree> = Seq::empty();
    let ghost mut done_ids: Seq<int> = Seq::empty();
    proof {
        assert(arena@.kids[block_id as int] =~= k0 + done_ids);
    }
    loop
        invariant_except_break
            blk_cons(done, block_spec(tv, cur as nat)) == block_spec(tv, pos as nat),
        invariant
            pos <= cur <= tokens@.len(),
            tv == tokens_view(tokens@),
            arena.wf(),
            lo == old(arena)@.nodes.len(),
            k0 == old(arena)@.kids[block_id as int],
            block_id < lo,
            lo <= arena@.nodes.len(),
            forall|j: int|
                0 <= j < lo ==> (#[trigger] arena@.nodes[j]) == old(arena)@.nodes[j],
            forall|j: int|
                0 <= j < lo && j != block_id as int ==> (#[trigger] arena@.kids[j]) == old(arena)@.kids[j],
            arena@.kids[block_id as int] == k0 + done_ids,
            done.len() == done_ids.len(),
            forall|x: int|
                0 <= x < done.len() ==> reps(
                    arena@,
                    done_ids[x],
                    #[trigger] done[x],
                    lo,
                    arena@.nodes.len() as int,
                ),
        ensures
            pos <= cur <= tokens@.len(),
            block_spec(tv, pos as nat) == Ok::<(Seq<Tree>, nat), ParseError>((done, cur as nat)),
            arena.wf(),
            lo <= arena@.nodes.len(),
            forall|j: int|
                0 <= j < lo ==> (#[trigger] arena@.nodes[j]) == old(arena)@.nodes[j],
            forall|j: int|
                0 <= j < lo && j != block_id as int ==> (#[trigger] arena@.kids[j]) == old(arena)@.kids[j],
            arena@.kids[block_id as int] == k0 + done_ids,
            done.len() == done_ids.len(),
            forall|x: int|
                0 <= x < done.len() ==> reps(
                    arena@,
                    done_ids[x],
                    #[trigger] done[x],
                    lo,
                    arena@.nodes.len() as int,
                ),
        decreases tokens@.len() - cur,
    {
        if cur >= tokens.len() {
            proof {
                assert(block_spec(tv, cur as nat) == Ok::<(Seq<Tree>, nat), ParseError>(
                    (Seq::empty(), cur as nat),
                ));
                assert(done + Seq::<Tree>::empty() =~= done);
            }
            break ;
        }
        proof {
            assert(tv[cur as int] == tokens@[cur as int]@);
        }
        if tok_is_newline(&tokens[cur].token) {
            proof {
                assert(block_spec(tv, cur as nat) == block_spec(tv, (cur + 1) as nat));
            }
            cur = cur + 1;
        } else if tok_block_end(&tokens[cur].token) {
            proof {
                assert(block_spec(tv, cur as nat) == Ok::<(Seq<Tree>, nat), ParseError>(
                    (Seq::empty(), cur as nat),
                ));
                assert(done + Seq::<Tree>::empty() =~= done);
            }
            break ;
        } else {
            let ghost a_pre = arena@;
            match parse_statement(tokens, cur, arena) {
                Err(e) => {
                    proof {
                        assert(block_spec(tv, cur as nat) == Err::<(Seq<Tree>, nat), ParseError>(
                            e,
                        ));
                    }
                    return Err(e);
                },
                Ok((child, p2)) => {
                    let ghost a_mid = arena@;
                    let ghost st = stmt_spec(tv, cur as nat)->Ok_0.0;
                    arena.append(block_id, child);
                    proof {
                        let a_now = arena@;
                        // the statement's subtree survives the append
                        lemma_reps_frame(
                            a_mid,
                            a_now,
                            child as int,
                            st,
                            a_pre.nodes.len() as int,
                            a_mid.nodes.len() as int,
                            block_id as int,
                        );
                        lemma_reps_widen(
                            a_now,
                            child as int,
                            st,
                            a_pre.nodes.len() as int,
                            a_mid.nodes.len() as int,
                            lo,
                            a_now.nodes.len() as int,
                        );
                        // the earlier statements survive both steps
                        assert forall|x: int| 0 <= x < done.len() implies reps(
                            a_now,
                            done_ids[x],
                            #[trigger] done[x],
                            lo,
                            a_now.nodes.len() as int,
                        ) by {
                            lemma_reps_frame(
                                a_pre,
                                a_mid,
                                done_ids[x],
                                done[x],
                                lo,
                                a_pre.nodes.len() as int,
                                lo - 1,
                            );
                            lemma_reps_frame(
                                a_mid,
                                a_now,
                                done_ids[x],
                                done[x],
                                lo,
                                a_pre.nodes.len() as int,
                                block_id as int,
                            );
                            lemma_reps_widen(
                                a_now,
                                done_ids[x],
                                done[x],
                                lo,
                                a_pre.nodes.len() as int,
                                lo,
                                a_now.nodes.len() as int,
                            );
                        }
                        // the block model takes one more statement
                        assert(bump(tv.len(), cur as nat, p2 as nat) == p2 as nat);
                        assert(blk_cons(done, block_spec(tv, cur as nat)) == blk_cons(
                            done.push(st),
                            block_spec(tv, p2 as nat),
                        )) by {
                            match block_spec(tv, p2 as nat) {
                                Ok(rp) => {
                                    assert(done + (seq![st] + rp.0) =~= done.push(st) + rp.0);
                                },
                                Err(_) => {},
                            }
                        }
                        done = done.push(st);
                        done_ids = done_ids.push(child as int);
                        assert(a_now.kids[block_id as int] =~= k0 + done_ids);
                    }
                    cur = p2;
                },
            }
        }
    }
    proof {
        let bres = block_spec(tv, pos as nat)->Ok_0;
        assert(bres.0 == done);
        assert(arena@.kids[block_id as int] =~= k0 + Seq::new(
            bres.0.len(),
            |x: int| arena@.kids[block_id as int][k0.len() + x],
        ));
    }
    Ok(cur)
}

/// What parsing a whole token stream yields: a `Program` tree whose
/// children are the top-level statements, or the error the parse stops
/// with.
pub open spec fn parser_spec(toks: Seq<TokenValueView>) -> Result<Tree, ParseError> {
    match program_spec(toks, 0) {
        Ok((stmts, p)) => Ok(
            Tree {
                item: ItemView::Program,
                loc: Loc { line_num: 0, column_num: 0 },
                children: stmts,
            },
        ),
        Err(e) => Err(e),
    }
}

/// Creates a `Block` node at `bloc` and fills it with the statements of
/// the block starting at `pos`.
fn build_block_node(tokens: &Vec<TokenValue>, pos: usize, bloc: Loc, arena: &mut Arena) -> (r:
    Result<(usize, usize), ParseError>)
    requires
        old(arena).wf(),
        pos <= tokens@.len(),
    ensures
        final(arena).wf(),
        crate::arena::extends(old(arena)@, final(arena)@),
        match r {
            Ok(res) => block_spec(tokens_view(tokens@), pos as nat) matches Ok(bres) && bres.1
                == res.1 as nat && pos <= res.1 <= tokens@.len() && reps(
                final(arena)@,
                res.0 as int,
                Tree { item: ItemView::Block, loc: bloc, children: bres.0 },
                old(arena)@.nodes.len() as int,
                final(arena)@.nodes.len() as int,
            ),
            Err(e) => block_spec(tokens_view(tokens@), pos as nat) == Err::<
                (Seq<Tree>, nat),
                ParseError,
            >(e),
        },
    decreases tokens@.len() - pos, 3int,
{
    let ghost lo = arena@.nodes.len() as int;
    let bid = arena.new_node(Node::new(Item::Block, bloc));
    let ghost a1 = arena@;
    match parse_block(tokens, pos, arena, bid) {
        Err(e) => Err(e),
        Ok(p2) => {
            proof {
                let bres = block_spec(tokens_view(tokens@), pos as nat)->Ok_0;
                assert(a1.kids[bid as int].len() == 0);
                assert forall|x: int| 0 <= x < bres.0.len() implies reps(
                    arena@,
                    arena@.kids[bid as int][x],
                    #[trigger] bres.0[x],
                    lo,
                    arena@.nodes.len() as int,
                ) by {
                    assert(reps(
                        arena@,
                        arena@.kids[bid as int][a1.kids[bid as int].len() + x],
                        bres.0[x],
                        a1.nodes.len() as int,
                        arena@.nodes.len() as int,
                    ));
                    lemma_reps_widen(
                        arena@,
                        arena@.kids[bid as int][x],
                        bres.0[x],
                        a1.nodes.len() as int,
                        arena@.nodes.len() as int,
                        lo,
                        arena@.nodes.len() as int,
                    );
                }
                assert(reps(
                    arena@,
                    bid as int,
                    Tree { item: ItemView::Block, loc: bloc, children: bres.0 },
                    lo,
                    arena@.nodes.len() as int,
                ));
            }
            Ok((bid, p2))
        },
    }
}

/// Parses a `while` statement from the position after its keyword.
fn parse_while(tokens: &Vec<TokenValue>, pos: usize, kwloc: Loc, arena: &mut Arena) -> (r: Result<
    (usize, usize),
    ParseError,
>)
    requires
        old(arena).wf(),
        pos <= tokens@.len(),
    ensures
        final(arena).wf(),
        crate::arena::extends(old(arena)@, final(arena)@),
        match r {
            Ok(res) => while_spec(tokens_view(tokens@), pos as nat, kwloc) matches Ok(sres)
                && sres.1 == res.1 as nat && pos < res.1 <= tokens@.len() && reps(
                final(arena)@,
                res.0 as int,
                sres.0,
                old(arena)@.nodes.len() as int,
                final(arena)@.nodes.len() as int,
            ),
            Err(e) => while_spec(tokens_view(tokens@), pos as nat, kwloc) == Err::<
                (Tree, nat),
                ParseError,
            >(e),
        },
    decreases tokens@.len() - pos, 0int,
{
    let ghost tv = tokens_view(tokens@);
    let ghost lo = arena@.nodes.len() as int;
    let w_id = arena.new_node(Node::new(Item::While, kwloc));
    let mut p: usize = pos;
    let (cond, doloc) = match collect_kw(tokens, &mut p, Keyword::Do, kwloc) {
        Err(e) => {
            return Err(e);
        },
        Ok(c) => c,
    };
    let ghost a1 = arena@;
    let wrap_id = match build_expr_node(&cond, doloc, arena) {
        Err(e) => {
            return Err(e);
        },
        Ok(w) => w,
    };
    let ghost a2 = arena@;
    let ghost condv = tokens_view(cond@);
    let ghost et = expr_spec(condv, doloc)->Ok_0;
    let ghost wrapt = expr_wrap(condv, et, doloc);
    arena.append(w_id, wrap_id);
    let ghost a3 = arena@;
    let (bid, p3) = match build_block_node(tokens, p, kwloc, arena) {
        Err(e) => {
            proof {
                assert(bump(tv.len(), pos as nat, p as nat) == p as nat);
            }
            return Err(e);
        },
        Ok(x) => x,
    };
    let ghost a4 = arena@;
    let ghost bres = block_spec(tv, p as nat)->Ok_0;
    let ghost blockt = Tree { item: ItemView::Block, loc: kwloc, children: bres.0 };
    arena.append(w_id, bid);
    let ghost a5 = arena@;
    proof {
        assert(bump(tv.len(), pos as nat, p as nat) == p as nat);
        // the condition subtree survives the later steps
        lemma_reps_frame(a2, a3, wrap_id as int, wrapt, a1.nodes.len() as int, a2.nodes.len() as int, w_id as int);
        lemma_reps_frame(a3, a4, wrap_id as int, wrapt, a1.nodes.len() as int, a2.nodes.len() as int, lo - 1);
        lemma_reps_frame(a4, a5, wrap_id as int, wrapt, a1.nodes.len() as int, a2.nodes.len() as int, w_id as int);
        lemma_reps_widen(a5, wrap_id as int, wrapt, a1.nodes.len() as int, a2.nodes.len() as int, lo, a5.nodes.len() as int);
        // the body subtree survives the final append
        lemma_reps_frame(a4, a5, bid as int, blockt, a3.nodes.len() as int, a4.nodes.len() as int, w_id as int);
        lemma_reps_widen(a5, bid as int, blockt, a3.nodes.len() as int, a4.nodes.len() as int, lo, a5.nodes.len() as int);
        assert(a5.kids[w_id as int] =~= seq![wrap_id as int, bid as int]);
    }
    if p3 < tokens.len() && tok_is_kw(&tokens[p3].token, Keyword::EndWhile) {
        proof {
            assert(tv[p3 as int] == tokens@[p3 as int]@);
            let wtree = Tree { item: ItemView::While, loc: kwloc, children: seq![wrapt, blockt] };
            assert(reps(arena@, w_id as int, wtree, lo, arena@.nodes.len() as int));
            assert(while_spec(tv, pos as nat, kwloc) == Ok::<(Tree, nat), ParseError>(
                (wtree, (p3 + 1) as nat),
            ));
        }
        Ok((w_id, p3 + 1))
    } else {
        let el = if p3 < tokens.len() {
            proof {
                assert(tv[p3 as int] == tokens@[p3 as int]@);
            }
            tokens[p3].loc
        } else {
            kwloc
        };
        let e = ParseError { kind: ParseErrorKind::ExpectedKeyword(Keyword::EndWhile), loc: el };
        proof {
            assert(while_spec(tv, pos as nat, kwloc) == Err::<(Tree, nat), ParseError>(e));
        }
        Err(e)
    }
}

/// Parses the chain of `elseif` branches after a then-block, appending
/// each `ElseIf` node as the next child of `if_id`; returns the position
/// after the chain.
fn parse_elseifs(tokens: &Vec<TokenValue>, pos: usize, arena: &mut Arena, if_id: usize) -> (r:
    Result<usize, ParseError>)
    requires
        old(arena).wf(),
        pos <= tokens@.len(),
        if_id < old(arena)@.nodes.len(),
    ensures
        final(arena).wf(),
        old(arena)@.nodes.len() <= final(arena)@.nodes.len(),
        forall|j: int|
            0 <= j < old(arena)@.nodes.len() ==> (#[trigger] final(arena)@.nodes[j]) == old(arena)@.nodes[j],
        forall|j: int|
            0 <= j < old(arena)@.nodes.len() && j != if_id as int ==> (#[trigger] final(arena)@.kids[j]) == old(arena)@.kids[j],
        match r {
            Ok(p2) => elseifs_spec(tokens_view(tokens@), pos as nat) matches Ok(eres) && eres.1
                == p2 as nat && pos <= p2 <= tokens@.len() && final(arena)@.kids[if_id
                as int].len() == old(arena)@.kids[if_id as int].len() + eres.0.len() && (forall|
                x: int,
            |
                0 <= x < old(arena)@.kids[if_id as int].len() ==> (#[trigger] final(arena)@.kids[if_id as int][x]) == old(arena)@.kids[if_id as int][x]) && (forall|x: int|
                0 <= x < eres.0.len() ==> reps(
                    final(arena)@,
                    final(arena)@.kids[if_id as int][old(arena)@.kids[if_id as int].len() + x],
                    #[trigger] eres.0[x],
                    old(arena)@.nodes.len() as int,
                    final(arena)@.nodes.len() as int,
                )),
            Err(e) => elseifs_spec(tokens_view(tokens@), pos as nat) == Err::<
                (Seq<Tree>, nat),
                ParseError,
            >(e),
        },
    decreases tokens@.len() - pos, 4int,
{
    let ghost tv = tokens_view(tokens@);
    let ghost lo = arena@.nodes.len() as int;
    let ghost k0 = arena@.kids[if_id as int];
    let mut cur = pos;
    let ghost mut done: Seq<Tree> = Seq::empty();
    let ghost mut done_ids: Seq<int> = Seq::empty();
    proof {
        assert(arena@.kids[if_id as int] =~= k0 + done_ids);
    }
    loop
        invariant_except_break
            blk_cons(done, elseifs_spec(tv, cur as nat)) == elseifs_spec(tv, pos as nat),
        invariant
            pos <= cur <= tokens@.len(),
            tv == tokens_view(tokens@),
            arena.wf(),
            lo == old(arena)@.nodes.len(),
            k0 == old(arena)@.kids[if_id as int],
            if_id < lo,
            lo <= arena@.nodes.len(),
            forall|j: int|
                0 <= j < lo ==> (#[trigger] arena@.nodes[j]) == old(arena)@.nodes[j],
            forall|j: int|
                0 <= j < lo && j != if_id as int ==> (#[trigger] arena@.kids[j]) == old(arena)@.kids[j],
            arena@.kids[if_id as int] == k0 + done_ids,
            done.len() == done_ids.len(),
            forall|x: int|
                0 <= x < done.len() ==> reps(
                    arena@,
                    done_ids[x],
                    #[trigger] done[x],
                    lo,
                    arena@.nodes.len() as int,
                ),
        ensures
            pos <= cur <= tokens@.len(),
            elseifs_spec(tv, pos as nat) == Ok::<(Seq<Tree>, nat), ParseError>(
                (done, cur as nat),
            ),
            arena.wf(),
            lo <= arena@.nodes.len(),
            forall|j: int|
                0 <= j < lo ==> (#[trigger] arena@.nodes[j]) == old(arena)@.nodes[j],
            forall|j: int|
                0 <= j < lo && j != if_id as int ==> (#[trigger] arena@.kids[j]) == old(arena)@.kids[j],
            arena@.kids[if_id as int] == k0 + done_ids,
            done.len() == done_ids.len(),
            forall|x: int|
                0 <= x < done.len() ==> reps(
                    arena@,
                    done_ids[x],
                    #[trigger] done[x],
                    lo,
                    arena@.nodes.len() as int,
                ),
        decreases tokens@.len() - cur,
    {
        let is_elseif = cur < tokens.len() && tok_is_kw(&tokens[cur].token, Keyword::ElseIf);
        proof {
            if cur < tokens@.len() {
                assert(tv[cur as int] == tokens@[cur as int]@);
            }
        }
        if !is_elseif {
            proof {
                assert(elseifs_spec(tv, cur as nat) == Ok::<(Seq<Tree>, nat), ParseError>(
                    (Seq::empty(), cur as nat),
                ));
                assert(done + Seq::<Tree>::empty() =~= done);
            }
            break ;
        }
        let kwloc = tokens[cur].loc;
        let ghost a_pre = arena@;
        let mut p: usize = cur + 1;
        let (cond, thenloc) = match collect_kw(tokens, &mut p, Keyword::Then, kwloc) {
            Err(e) => {
                proof {
                    assert(elseifs_spec(tv, cur as nat) == Err::<(Seq<Tree>, nat), ParseError>(
                        e,
                    ));
                }
                return Err(e);
            },
            Ok(c) => c,
        };
        if !(p < tokens.len() && tok_is_newline(&tokens[p].token)) {
            let el = if p < tokens.len() {
                proof {
                    assert(tv[p as int] == tokens@[p as int]@);
                }
                tokens[p].loc
            } else {
                thenloc
            };
            let e = ParseError { kind: ParseErrorKind::ExpectedNewLine, loc: el };
            proof {
                if p < tokens@.len() {
                    assert(tv[p as int] == tokens@[p as int]@);
                }
                assert(elseifs_spec(tv, cur as nat) == Err::<(Seq<Tree>, nat), ParseError>(e));
            }
            return Err(e);
        }
        proof {
            assert(tv[p as int] == tokens@[p as int]@);
        }
        let e_id = arena.new_node(Node::new(Item::ElseIf, kwloc));
        let ghost a0e = arena@;
        let wrap_id = match build_expr_node(&cond, thenloc, arena) {
            Err(e) => {
                proof {
                    assert(elseifs_spec(tv, cur as nat) == Err::<(Seq<Tree>, nat), ParseError>(
                        e,
                    ));
                }
                return Err(e);
            },
            Ok(w) => w,
        };
        let ghost a1e = arena@;
        let ghost condv = tokens_view(cond@);
        let ghost et = expr_spec(condv, thenloc)->Ok_0;
        let ghost wrapt = expr_wrap(condv, et, thenloc);
        arena.append(e_id, wrap_id);
        let ghost a2e = arena@;
        let (bid, p3) = match build_block_node(tokens, p + 1, kwloc, arena) {
            Err(e) => {
                proof {
                    assert(bump(tv.len(), cur as nat, (p + 1) as nat) == (p + 1) as nat);
                    assert(elseifs_spec(tv, cur as nat) == Err::<(Seq<Tree>, nat), ParseError>(
                        e,
                    ));
                }
                return Err(e);
            },
            Ok(x) => x,
        };
        let ghost a3e = arena@;
        let ghost bres = block_spec(tv, (p + 1) as nat)->Ok_0;
        let ghost blockt = Tree { item: ItemView::Block, loc: kwloc, children: bres.0 };
        arena.append(e_id, bid);
        let ghost a4e = arena@;
        arena.append(if_id, e_id);
        proof {
            let a_now = arena@;
            assert(bump(tv.len(), cur as nat, (p + 1) as nat) == (p + 1) as nat);
            let etree = Tree {
                item: ItemView::ElseIf,
                loc: kwloc,
                children: seq![wrapt, blockt],
            };
            // condition subtree through the later steps
            lemma_reps_frame(a1e, a2e, wrap_id as int, wrapt, a0e.nodes.len() as int, a1e.nodes.len() as int, e_id as int);
            lemma_reps_frame(a2e, a3e, wrap_id as int, wrapt, a0e.nodes.len() as int, a1e.nodes.len() as int, lo - 1);
            lemma_reps_frame(a3e, a4e, wrap_id as int, wrapt, a0e.nodes.len() as int, a1e.nodes.len() as int, e_id as int);
            lemma_reps_frame(a4e, a_now, wrap_id as int, wrapt, a0e.nodes.len() as int, a1e.nodes.len() as int, if_id as int);
            lemma_reps_widen(a_now, wrap_id as int, wrapt, a0e.nodes.len() as int, a1e.nodes.len() as int, lo, a_now.nodes.len() as int);
            // body subtree through the later steps
            lemma_reps_frame(a3e, a4e, bid as int, blockt, a2e.nodes.len() as int, a3e.nodes.len() as int, e_id as int);
            lemma_reps_frame(a4e, a_now, bid as int, blockt, a2e.nodes.len() as int, a3e.nodes.len() as int, if_id as int);
            lemma_reps_widen(a_now, bid as int, blockt, a2e.nodes.len() as int, a3e.nodes.len() as int, lo, a_now.nodes.len() as int);
            assert(a_now.kids[e_id as int] =~= seq![wrap_id as int, bid as int]);
            assert(reps(a_now, e_id as int, etree, lo, a_now.nodes.len() as int));
            // the earlier branches survive this iteration's work
            assert forall|x: int| 0 <= x < done.len() implies reps(
                a_now,
                done_ids[x],
                #[trigger] done[x],
                lo,
                a_now.nodes.len() as int,
            ) by {
                lemma_reps_frame(a_pre, a4e, done_ids[x], done[x], lo, a_pre.nodes.len() as int, e_id as int);
                lemma_reps_frame(a4e, a_now, done_ids[x], done[x], lo, a_pre.nodes.len() as int, if_id as int);
                lemma_reps_widen(a_now, done_ids[x], done[x], lo, a_pre.nodes.len() as int, lo, a_now.nodes.len() as int);
            }
            // one more branch in the model
            assert(blk_cons(done, elseifs_spec(tv, cur as nat)) == blk_cons(
                done.push(etree),
                elseifs_spec(tv, p3 as nat),
            )) by {
                assert(elseifs_spec(tv, cur as nat) == (match elseifs_spec(tv, p3 as nat) {
                    Ok((rest, p4)) => Ok::<(Seq<Tree>, nat), ParseError>(
                        (seq![etree] + rest, p4),
                    ),
                    Err(e2) => Err(e2),
                }));
                match elseifs_spec(tv, p3 as nat) {
                    Ok(rp) => {
                        assert(done + (seq![etree] + rp.0) =~= done.push(etree) + rp.0);
                    },
                    Err(_) => {},
                }
            }
            done = done.push(etree);
            done_ids = done_ids.push(e_id as int);
            assert(a_now.kids[if_id as int] =~= k0 + done_ids);
        }
        cur = p3;
    }
    proof {
        let eres = elseifs_spec(tv, pos as nat)->Ok_0;
        assert(eres.0 == done);
        assert forall|x: int| 0 <= x < eres.0.len() implies reps(
            arena@,
            arena@.kids[if_id as int][k0.len() + x],
            #[trigger] eres.0[x],
            lo,
            arena@.nodes.len() as int,
        ) by {
            assert(arena@.kids[if_id as int][k0.len() + x] == done_ids[x]);
        }
    }
    Ok(cur)
}

/// Parses an `if` statement from the position after its keyword.
fn parse_if(tokens: &Vec<TokenValue>, pos: usize, kwloc: Loc, arena: &mut Arena) -> (r: Result<
    (usize, usize),
    ParseError,
>)
    requires
        old(arena).wf(),
        pos <= tokens@.len(),
    ensures
        final(arena).wf(),
        crate::arena::extends(old(arena)@, final(arena)@),
        match r {
            Ok(res) => if_spec(tokens_view(tokens@), pos as nat, kwloc) matches Ok(sres) && sres.1
                == res.1 as nat && pos < res.1 <= tokens@.len() && reps(
                final(arena)@,
                res.0 as int,
                sres.0,
                old(arena)@.nodes.len() as int,
                final(arena)@.nodes.len() as int,
            ),
            Err(e) => if_spec(tokens_view(tokens@), pos as nat, kwloc) == Err::<
                (Tree, nat),
                ParseError,
            >(e),
        },
    decreases tokens@.len() - pos, 0int,
{
    let ghost tv = tokens_view(tokens@);
    let ghost lo = arena@.nodes.len() as int;
    let if_id = arena.new_node(Node::new(Item::If, kwloc));
    let mut p: usize = pos;
    let (cond, thenloc) = match collect_kw(tokens, &mut p, Keyword::Then, kwloc) {
        Err(e) => {
            return Err(e);
        },
        Ok(c) => c,
    };
    if !(p < tokens.len() && tok_is_newline(&tokens[p].token)) {
        let el = if p < tokens.len() {
            proof {
                assert(tv[p as int] == tokens@[p as int]@);
            }
            tokens[p].loc
        } else {
            thenloc
        };
        let e = ParseError { kind: ParseErrorKind::ExpectedNewLine, loc: el };
        proof {
            if p < tokens@.len() {
                assert(tv[p as int] == tokens@[p as int]@);
            }
            assert(if_spec(tv, pos as nat, kwloc) == Err::<(Tree, nat), ParseError>(e));
        }
        return Err(e);
    }
    proof {
        assert(tv[p as int] == tokens@[p as int]@);
    }
    let ghost a1 = arena@;
    let wrap_id = match build_expr_node(&cond, thenloc, arena) {
        Err(e) => {
            return Err(e);
        },
        Ok(w) => w,
    };
    let ghost a2 = arena@;
    let ghost condv = tokens_view(cond@);
    let ghost et = expr_spec(condv, thenloc)->Ok_0;
    let ghost wrapt = expr_wrap(condv, et, thenloc);
    arena.append(if_id, wrap_id);
    let ghost a3 = arena@;
    let (bid, p3) = match build_block_node(tokens, p + 1, kwloc, arena) {
        Err(e) => {
            proof {
                assert(bump(tv.len(), pos as nat, (p + 1) as nat) == (p + 1) as nat);
            }
            return Err(e);
        },
        Ok(x) => x,
    };
    let ghost a4 = arena@;
    let ghost bres = block_spec(tv, (p + 1) as nat)->Ok_0;
    let ghost blockt = Tree { item: ItemView::Block, loc: kwloc, children: bres.0 };
    arena.append(if_id, bid);
    let ghost a5 = arena@;
    proof {
        assert(bump(tv.len(), pos as nat, (p + 1) as nat) == (p + 1) as nat);
        lemma_reps_frame(a2, a3, wrap_id as int, wrapt, a1.nodes.len() as int, a2.nodes.len() as int, if_id as int);
        lemma_reps_frame(a3, a4, wrap_id as int, wrapt, a1.nodes.len() as int, a2.nodes.len() as int, lo - 1);
        lemma_reps_frame(a4, a5, wrap_id as int, wrapt, a1.nodes.len() as int, a2.nodes.len() as int, if_id as int);
        lemma_reps_frame(a4, a5, bid as int, blockt, a3.nodes.len() as int, a4.nodes.len() as int, if_id as int);
        assert(a5.kids[if_id as int] =~= seq![wrap_id as int, bid as int]);
    }
    let p4 = match parse_elseifs(tokens, p3, arena, if_id) {
        Err(e) => {
            proof {
                assert(bump(tv.len(), pos as nat, p3 as nat) == p3 as nat);
            }
            return Err(e);
        },
        Ok(x) => x,
    };
    let ghost a6 = arena@;
    let ghost eres = elseifs_spec(tv, p3 as nat)->Ok_0;
    proof {
        assert(bump(tv.len(), pos as nat, p3 as nat) == p3 as nat);
        lemma_reps_frame(a5, a6, wrap_id as int, wrapt, a1.nodes.len() as int, a2.nodes.len() as int, if_id as int);
        lemma_reps_widen(a6, wrap_id as int, wrapt, a1.nodes.len() as int, a2.nodes.len() as int, lo, a6.nodes.len() as int);
        lemma_reps_frame(a5, a6, bid as int, blockt, a3.nodes.len() as int, a4.nodes.len() as int, if_id as int);
        lemma_reps_widen(a6, bid as int, blockt, a3.nodes.len() as int, a4.nodes.len() as int, lo, a6.nodes.len() as int);
    }
    if p4 < tokens.len() && tok_is_kw(&tokens[p4].token, Keyword::EndIf) {
        proof {
            assert(tv[p4 as int] == tokens@[p4 as int]@);
            let itree = Tree {
                item: ItemView::If,
                loc: kwloc,
                children: seq![wrapt, blockt] + eres.0,
            };
            assert(arena@.kids[if_id as int].len() == 2 + eres.0.len());
            assert forall|k: int| 0 <= k < itree.children.len() implies reps(
                arena@,
                arena@.kids[if_id as int][k],
                #[trigger] itree.children[k],
                lo,
                arena@.nodes.len() as int,
            ) by {
                if k == 0 {
                    assert(arena@.kids[if_id as int][0] == wrap_id as int);
                } else if k == 1 {
                    assert(arena@.kids[if_id as int][1] == bid as int);
                } else {
                    assert(itree.children[k] == eres.0[k - 2]);
                    assert(reps(
                        arena@,
                        arena@.kids[if_id as int][a5.kids[if_id as int].len() + (k - 2)],
                        eres.0[k - 2],
                        a5.nodes.len() as int,
                        a6.nodes.len() as int,
                    ));
                    lemma_reps_widen(
                        arena@,
                        arena@.kids[if_id as int][k],
                        eres.0[k - 2],
                        a5.nodes.len() as int,
                        a6.nodes.len() as int,
                        lo,
                        arena@.nodes.len() as int,
                    );
                }
            }
            assert(reps(arena@, if_id as int, itree, lo, arena@.nodes.len() as int));
            assert(if_spec(tv, pos as nat, kwloc) == Ok::<(Tree, nat), ParseError>(
                (itree, (p4 + 1) as nat),
            ));
        }
        Ok((if_id, p4 + 1))
    } else {
        let el = if p4 < tokens.len() {
            proof {
                assert(tv[p4 as int] == tokens@[p4 as int]@);
            }
            tokens[p4].loc
        } else {
            kwloc
        };
        let e = ParseError { kind: ParseErrorKind::ExpectedKeyword(Keyword::EndIf), loc: el };
        proof {
            if p4 < tokens@.len() {
                assert(tv[p4 as int] == tokens@[p4 as int]@);
            }
            assert(if_spec(tv, pos as nat, kwloc) == Err::<(Tree, nat), ParseError>(e));
        }
        Err(e)
    }
}

/// Parses a `for` statement from the position after its keyword, in
/// either its counting or its iteration form.
fn parse_for(tokens: &Vec<TokenValue>, pos: usize, kwloc: Loc, arena: &mut Arena) -> (r: Result<
    (usize, usize),
    ParseError,
>)
    requires
        old(arena).wf(),
        pos <= tokens@.len(),
    ensures
        final(arena).wf(),
        crate::arena::extends(old(arena)@, final(arena)@),
        match r {
            Ok(res) => for_spec(tokens_view(tokens@), pos as nat, kwloc) matches Ok(sres) && sres.1
                == res.1 as nat && pos < res.1 <= tokens@.len() && reps(
                final(arena)@,
                res.0 as int,
                sres.0,
                old(arena)@.nodes.len() as int,
                final(arena)@.nodes.len() as int,
            ),
            Err(e) => for_spec(tokens_view(tokens@), pos as nat, kwloc) == Err::<
                (Tree, nat),
                ParseError,
            >(e),
        },
    decreases tokens@.len() - pos, 0int,
{
    let ghost tv = tokens_view(tokens@);
    let ghost lo = arena@.nodes.len() as int;
    if pos >= tokens.len() {
        return Err(ParseError { kind: ParseErrorKind::ExpectedIdentifier, loc: kwloc });
    }
    proof {
        assert(tv[pos as int] == tokens@[pos as int]@);
    }
    let vt_loc = tokens[pos].loc;
    let var = match &tokens[pos].token {
        Token::Identifier(v) => v.clone(),
        _ => {
            return Err(ParseError { kind: ParseErrorKind::ExpectedIdentifier, loc: vt_loc });
        },
    };
    if pos + 1 >= tokens.len() {
        return Err(ParseError { kind: ParseErrorKind::UnexpectedToken, loc: vt_loc });
    }
    proof {
        assert(tv[pos as int + 1] == tokens@[pos as int + 1]@);
    }
    let is_count = tok_is_op(&tokens[pos + 1].token, Operator::Equals);
    let is_iter = tok_is_op(&tokens[pos + 1].token, Operator::In);
    if !is_count && !is_iter {
        let e = ParseError { kind: ParseErrorKind::UnexpectedToken, loc: tokens[pos + 1].loc };
        return Err(e);
    }
    let f_id = arena.new_node(Node::new(Item::For, kwloc));
    let v_id = arena.new_node(Node::new(Item::Identifier(var), vt_loc));
    arena.append(f_id, v_id);
    let ghost a1 = arena@;
    let ghost vtree = leaf(ItemView::Identifier(tokens@[pos as int].token->Identifier_0@), vt_loc);
    if is_count {
        let mut p: usize = pos + 2;
        let (e1, toloc) = match collect_kw(tokens, &mut p, Keyword::To, kwloc) {
            Err(e) => {
                return Err(e);
            },
            Ok(c) => c,
        };
        let (e2, doloc) = match collect_kw(tokens, &mut p, Keyword::Do, kwloc) {
            Err(e) => {
                return Err(e);
            },
            Ok(c) => c,
        };
        let ghost p3 = p as nat;
        let wrap1 = match build_expr_node(&e1, toloc, arena) {
            Err(e) => {
                return Err(e);
            },
            Ok(w) => w,
        };
        let ghost a2 = arena@;
        let ghost e1v = tokens_view(e1@);
        let ghost t1 = expr_spec(e1v, toloc)->Ok_0;
        let ghost wrapt1 = expr_wrap(e1v, t1, toloc);
        arena.append(f_id, wrap1);
        let ghost a3 = arena@;
        let wrap2 = match build_expr_node(&e2, doloc, arena) {
            Err(e) => {
                return Err(e);
            },
            Ok(w) => w,
        };
        let ghost a4 = arena@;
        let ghost e2v = tokens_view(e2@);
        let ghost t2 = expr_spec(e2v, doloc)->Ok_0;
        let ghost wrapt2 = expr_wrap(e2v, t2, doloc);
        arena.append(f_id, wrap2);
        let ghost a5 = arena@;
        let (bid, p4) = match build_block_node(tokens, p, kwloc, arena) {
            Err(e) => {
                proof {
                    assert(bump(tv.len(), pos as nat, p3) == p3);
                }
                return Err(e);
            },
            Ok(x) => x,
        };
        let ghost a6 = arena@;
        let ghost bres = block_spec(tv, p3)->Ok_0;
        let ghost blockt = Tree { item: ItemView::Block, loc: kwloc, children: bres.0 };
        arena.append(f_id, bid);
        let ghost a7 = arena@;
        proof {
            assert(bump(tv.len(), pos as nat, p3) == p3);
            // loop variable leaf
            assert(reps(a1, v_id as int, vtree, v_id as int, v_id as int + 1));
            lemma_reps_frame(a1, a3, v_id as int, vtree, v_id as int, v_id as int + 1, f_id as int);
            lemma_reps_frame(a3, a5, v_id as int, vtree, v_id as int, v_id as int + 1, f_id as int);
            lemma_reps_frame(a5, a7, v_id as int, vtree, v_id as int, v_id as int + 1, f_id as int);
            lemma_reps_widen(a7, v_id as int, vtree, v_id as int, v_id as int + 1, lo, a7.nodes.len() as int);
            // first bound
            lemma_reps_frame(a2, a3, wrap1 as int, wrapt1, a1.nodes.len() as int, a2.nodes.len() as int, f_id as int);
            lemma_reps_frame(a3, a5, wrap1 as int, wrapt1, a1.nodes.len() as int, a2.nodes.len() as int, f_id as int);
            lemma_reps_frame(a5, a7, wrap1 as int, wrapt1, a1.nodes.len() as int, a2.nodes.len() as int, f_id as int);
            lemma_reps_widen(a7, wrap1 as int, wrapt1, a1.nodes.len() as int, a2.nodes.len() as int, lo, a7.nodes.len() as int);
            // second bound
            lemma_reps_frame(a4, a5, wrap2 as int, wrapt2, a3.nodes.len() as int, a4.nodes.len() as int, f_id as int);
            lemma_reps_frame(a5, a7, wrap2 as int, wrapt2, a3.nodes.len() as int, a4.nodes.len() as int, f_id as int);
            lemma_reps_widen(a7, wrap2 as int, wrapt2, a3.nodes.len() as int, a4.nodes.len() as int, lo, a7.nodes.len() as int);
            // body
            lemma_reps_frame(a6, a7, bid as int, blockt, a5.nodes.len() as int, a6.nodes.len() as int, f_id as int);
            lemma_reps_widen(a7, bid as int, blockt, a5.nodes.len() as int, a6.nodes.len() as int, lo, a7.nodes.len() as int);
            assert(a7.kids[f_id as int] =~= seq![v_id as int, wrap1 as int, wrap2 as int, bid as int]);
        }
        if p4 < tokens.len() && tok_is_kw(&tokens[p4].token, Keyword::EndFor) {
            proof {
                assert(tv[p4 as int] == tokens@[p4 as int]@);
                let ftree = Tree {
                    item: ItemView::For,
                    loc: kwloc,
                    children: seq![vtree, wrapt1, wrapt2, blockt],
                };
                assert(reps(arena@, f_id as int, ftree, lo, arena@.nodes.len() as int));
                assert(for_spec(tv, pos as nat, kwloc) == Ok::<(Tree, nat), ParseError>(
                    (ftree, (p4 + 1) as nat),
                ));
            }
            Ok((f_id, p4 + 1))
        } else {
            let el = if p4 < tokens.len() {
                proof {
                    assert(tv[p4 as int] == tokens@[p4 as int]@);
                }
                tokens[p4].loc
            } else {
                kwloc
            };
            let e = ParseError { kind: ParseErrorKind::ExpectedKeyword(Keyword::EndFor), loc: el };
            proof {
                assert(for_spec(tv, pos as nat, kwloc) == Err::<(Tree, nat), ParseError>(e));
            }
            Err(e)
        }
    } else {
        let mut p: usize = pos + 2;
        let (e1, doloc) = match collect_kw(tokens, &mut p, Keyword::Do, kwloc) {
            Err(e) => {
                return Err(e);
            },
            Ok(c) => c,
        };
        let ghost p2 = p as nat;
        let wrap1 = match build_expr_node(&e1, doloc, arena) {
            Err(e) => {
                return Err(e);
            },
            Ok(w) => w,
        };
        let ghost a2 = arena@;
        let ghost e1v = tokens_view(e1@);
        let ghost t1 = expr_spec(e1v, doloc)->Ok_0;
        let ghost wrapt1 = expr_wrap(e1v, t1, doloc);
        arena.append(f_id, wrap1);
        let ghost a3 = arena@;
        let (bid, p4) = match build_block_node(tokens, p, kwloc, arena) {
            Err(e) => {
                proof {
                    assert(bump(tv.len(), pos as nat, p2) == p2);
                }
                return Err(e);
            },
            Ok(x) => x,
        };
        let ghost a4 = arena@;
        let ghost bres = block_spec(tv, p2)->Ok_0;
        let ghost blockt = Tree { item: ItemView::Block, loc: kwloc, children: bres.0 };
        arena.append(f_id, bid);
        let ghost a5 = arena@;
        proof {
            assert(bump(tv.len(), pos as nat, p2) == p2);
            assert(reps(a1, v_id as int, vtree, v_id as int, v_id as int + 1));
            lemma_reps_frame(a1, a3, v_id as int, vtree, v_id as int, v_id as int + 1, f_id as int);
            lemma_reps_frame(a3, a5, v_id as int, vtree, v_id as int, v_id as int + 1, f_id as int);
            lemma_reps_widen(a5, v_id as int, vtree, v_id as int, v_id as int + 1, lo, a5.nodes.len() as int);
            lemma_reps_frame(a2, a3, wrap1 as int, wrapt1, a1.nodes.len() as int, a2.nodes.len() as int, f_id as int);
            lemma_reps_frame(a3, a5, wrap1 as int, wrapt1, a1.nodes.len() as int, a2.nodes.len() as int, f_id as int);
            lemma_reps_widen(a5, wrap1 as int, wrapt1, a1.nodes.len() as int, a2.nodes.len() as int, lo, a5.nodes.len() as int);
            lemma_reps_frame(a4, a5, bid as int, blockt, a3.nodes.len() as int, a4.nodes.len() as int, f_id as int);
            lemma_reps_widen(a5, bid as int, blockt, a3.nodes.len() as int, a4.nodes.len() as int, lo, a5.nodes.len() as int);
            assert(a5.kids[f_id as int] =~= seq![v_id as int, wrap1 as int, bid as int]);
        }
        if p4 < tokens.len() && tok_is_kw(&tokens[p4].token, Keyword::EndFor) {
            proof {
                assert(tv[p4 as int] == tokens@[p4 as int]@);
                let ftree = Tree {
                    item: ItemView::For,
                    loc: kwloc,
                    children: seq![vtree, wrapt1, blockt],
                };
                assert(reps(arena@, f_id as int, ftree, lo, arena@.nodes.len() as int));
                assert(for_spec(tv, pos as nat, kwloc) == Ok::<(Tree, nat), ParseError>(
                    (ftree, (p4 + 1) as nat),
                ));
            }
            Ok((f_id, p4 + 1))
        } else {
            let el = if p4 < tokens.len() {
                proof {
                    assert(tv[p4 as int] == tokens@[p4 as int]@);
                }
                tokens[p4].loc
            } else {
                kwloc
            };
            let e = ParseError { kind: ParseErrorKind::ExpectedKeyword(Keyword::EndFor), loc: el };
            proof {
                assert(for_spec(tv, pos as nat, kwloc) == Err::<(Tree, nat), ParseError>(e));
            }
            Err(e)
        }
    }
}

/// Parses a `function` definition from the position after its keyword.
fn parse_function(tokens: &Vec<TokenValue>, pos: usize, kwloc: Loc, arena: &mut Arena) -> (r:
    Result<(usize, usize), ParseError>)
    requires
        old(arena).wf(),
        pos <= tokens@.len(),
    ensures
        final(arena).wf(),
        crate::arena::extends(old(arena)@, final(arena)@),
        match r {
            Ok(res) => function_spec(tokens_view(tokens@), pos as nat, kwloc) matches Ok(sres)
                && sres.1 == res.1 as nat && pos < res.1 <= tokens@.len() && reps(
                final(arena)@,
                res.0 as int,
                sres.0,
                old(arena)@.nodes.len() as int,
                final(arena)@.nodes.len() as int,
            ),
            Err(e) => function_spec(tokens_view(tokens@), pos as nat, kwloc) == Err::<
                (Tree, nat),
                ParseError,
            >(e),
        },
    decreases tokens@.len() - pos, 0int,
{
    let ghost tv = tokens_view(tokens@);
    let ghost lo = arena@.nodes.len() as int;
    if pos >= tokens.len() {
        return Err(ParseError { kind: ParseErrorKind::ExpectedIdentifier, loc: kwloc });
    }
    proof {
        assert(tv[pos as int] == tokens@[pos as int]@);
    }
    let nt_loc = tokens[pos].loc;
    let name = match &tokens[pos].token {
        Token::Identifier(v) => v.clone(),
        _ => {
            return Err(ParseError { kind: ParseErrorKind::ExpectedIdentifier, loc: nt_loc });
        },
    };
    let has_ob = pos + 1 < tokens.len() && {
        proof {
            assert(tv[pos as int + 1] == tokens@[pos as int + 1]@);
        }
        match &tokens[pos + 1].token {
            Token::OpenBracket => true,
            _ => false,
        }
    };
    if !has_ob {
        let el = if pos + 1 < tokens.len() {
            proof {
                assert(tv[pos as int + 1] == tokens@[pos as int + 1]@);
            }
            tokens[pos + 1].loc
        } else {
            nt_loc
        };
        let e = ParseError { kind: ParseErrorKind::ExpectedOpenBracket, loc: el };
        proof {
            assert(loc_of(tv, (pos + 1) as nat, nt_loc) == el);
        }
        return Err(e);
    }
    let obloc = tokens[pos + 1].loc;
    let f_id = arena.new_node(Node::new(Item::Function, kwloc));
    let n_id = arena.new_node(Node::new(Item::Identifier(name), nt_loc));
    arena.append(f_id, n_id);
    let mut p: usize = pos + 2;
    let params = match parse_params(tokens, &mut p, obloc) {
        Err(e) => {
            return Err(e);
        },
        Ok(ps) => ps,
    };
    if !(p < tokens.len() && tok_is_newline(&tokens[p].token)) {
        let el = if p < tokens.len() {
            proof {
                assert(tv[p as int] == tokens@[p as int]@);
            }
            tokens[p].loc
        } else {
            kwloc
        };
        let e = ParseError { kind: ParseErrorKind::ExpectedNewLine, loc: el };
        proof {
            if p < tokens@.len() {
                assert(tv[p as int] == tokens@[p as int]@);
            }
            assert(function_spec(tv, pos as nat, kwloc) == Err::<(Tree, nat), ParseError>(e));
        }
        return Err(e);
    }
    proof {
        assert(tv[p as int] == tokens@[p as int]@);
    }
    let ghost paramsv = params_spec(tv, (pos + 2) as nat, obloc)->Ok_0.0;
    let p_id = arena.new_node(Node::new(Item::ParameterList(params), obloc));
    arena.append(f_id, p_id);
    let ghost a1 = arena@;
    let ghost ntree = leaf(ItemView::Identifier(tokens@[pos as int].token->Identifier_0@), nt_loc);
    let ghost ptree = leaf(ItemView::ParameterList(paramsv), obloc);
    let (bid, p3) = match build_block_node(tokens, p + 1, kwloc, arena) {
        Err(e) => {
            proof {
                assert(bump(tv.len(), pos as nat, (p + 1) as nat) == (p + 1) as nat);
            }
            return Err(e);
        },
        Ok(x) => x,
    };
    let ghost a2 = arena@;
    let ghost bres = block_spec(tv, (p + 1) as nat)->Ok_0;
    let ghost blockt = Tree { item: ItemView::Block, loc: kwloc, children: bres.0 };
    arena.append(f_id, bid);
    let ghost a3 = arena@;
    proof {
        assert(bump(tv.len(), pos as nat, (p + 1) as nat) == (p + 1) as nat);
        assert(reps(a1, n_id as int, ntree, n_id as int, n_id as int + 1));
        lemma_reps_frame(a1, a2, n_id as int, ntree, n_id as int, n_id as int + 1, lo - 1);
        lemma_reps_frame(a2, a3, n_id as int, ntree, n_id as int, n_id as int + 1, f_id as int);
        lemma_reps_widen(a3, n_id as int, ntree, n_id as int, n_id as int + 1, lo, a3.nodes.len() as int);
        assert(reps(a1, p_id as int, ptree, p_id as int, p_id as int + 1));
        lemma_reps_frame(a1, a2, p_id as int, ptree, p_id as int, p_id as int + 1, lo - 1);
        lemma_reps_frame(a2, a3, p_id as int, ptree, p_id as int, p_id as int + 1, f_id as int);
        lemma_reps_widen(a3, p_id as int, ptree, p_id as int, p_id as int + 1, lo, a3.nodes.len() as int);
        lemma_reps_frame(a2, a3, bid as int, blockt, a1.nodes.len() as int, a2.nodes.len() as int, f_id as int);
        lemma_reps_widen(a3, bid as int, blockt, a1.nodes.len() as int, a2.nodes.len() as int, lo, a3.nodes.len() as int);
        assert(a3.kids[f_id as int] =~= seq![n_id as int, p_id as int, bid as int]);
    }
    if p3 < tokens.len() && tok_is_kw(&tokens[p3].token, Keyword::EndFunction) {
        proof {
            assert(tv[p3 as int] == tokens@[p3 as int]@);
            let ftree = Tree {
                item: ItemView::Function,
                loc: kwloc,
                children: seq![ntree, ptree, blockt],
            };
            assert(reps(arena@, f_id as int, ftree, lo, arena@.nodes.len() as int));
            assert(function_spec(tv, pos as nat, kwloc) == Ok::<(Tree, nat), ParseError>(
                (ftree, (p3 + 1) as nat),
            ));
        }
        Ok((f_id, p3 + 1))
    } else {
        let el = if p3 < tokens.len() {
            proof {
                assert(tv[p3 as int] == tokens@[p3 as int]@);
            }
            tokens[p3].loc
        } else {
            kwloc
        };
        let e = ParseError { kind: ParseErrorKind::ExpectedKeyword(Keyword::EndFunction), loc: el };
        proof {
            assert(function_spec(tv, pos as nat, kwloc) == Err::<(Tree, nat), ParseError>(e));
        }
        Err(e)
    }
}

/// Parses one statement, dispatching on its first token; returns the
/// handle of the statement's subtree and the position after it.
#[verifier::rlimit(80)]
fn parse_statement(tokens: &Vec<TokenValue>, pos: usize, arena: &mut Arena) -> (r: Result<
    (usize, usize),
    ParseError,
>)
    requires
        old(arena).wf(),
        pos <= tokens@.len(),
    ensures
        final(arena).wf(),
        crate::arena::extends(old(arena)@, final(arena)@),
        match r {
            Ok(res) => stmt_spec(tokens_view(tokens@), pos as nat) matches Ok(sres) && sres.1
                == res.1 as nat && pos < res.1 <= tokens@.len() && reps(
                final(arena)@,
                res.0 as int,
                sres.0,
                old(arena)@.nodes.len() as int,
                final(arena)@.nodes.len() as int,
            ),
            Err(e) => stmt_spec(tokens_view(tokens@), pos as nat) == Err::<
                (Tree, nat),
                ParseError,
            >(e),
        },
    decreases tokens@.len() - pos, 0int,
{
    let ghost tv = tokens_view(tokens@);
    if pos >= tokens.len() {
        return Err(
            ParseError { kind: ParseErrorKind::UnexpectedToken, loc: Loc::new(0, 0) },
        );
    }
    proof {
        assert(tv[pos as int] == tokens@[pos as int]@);
    }
    let t_loc = tokens[pos].loc;
    if tok_is_kw(&tokens[pos].token, Keyword::If) {
        let r = parse_if(tokens, pos + 1, t_loc, arena);
        proof {
            assert(stmt_spec(tv, pos as nat) == if_spec(tv, (pos + 1) as nat, t_loc));
        }
        match r {
            Ok((c, p2)) => Ok((c, p2)),
            Err(e) => Err(e),
        }
    } else if tok_is_kw(&tokens[pos].token, Keyword::While) {
        let r = parse_while(tokens, pos + 1, t_loc, arena);
        proof {
            assert(stmt_spec(tv, pos as nat) == while_spec(tv, (pos + 1) as nat, t_loc));
        }
        match r {
            Ok((c, p2)) => Ok((c, p2)),
            Err(e) => Err(e),
        }
    } else if tok_is_kw(&tokens[pos].token, Keyword::For) {
        let r = parse_for(tokens, pos + 1, t_loc, arena);
        proof {
            assert(stmt_spec(tv, pos as nat) == for_spec(tv, (pos + 1) as nat, t_loc));
        }
        match r {
            Ok((c, p2)) => Ok((c, p2)),
            Err(e) => Err(e),
        }
    } else if tok_is_kw(&tokens[pos].token, Keyword::Function) {
        let r = parse_function(tokens, pos + 1, t_loc, arena);
        proof {
            assert(stmt_spec(tv, pos as nat) == function_spec(tv, (pos + 1) as nat, t_loc));
        }
        match r {
            Ok((c, p2)) => Ok((c, p2)),
            Err(e) => Err(e),
        }
    } else {
        let name = match &tokens[pos].token {
            Token::Identifier(v) => Some(v.clone()),
            _ => None,
        };
        match name {
            None => {
                let e = ParseError { kind: ParseErrorKind::UnexpectedToken, loc: t_loc };
                proof {
                    assert(stmt_spec(tv, pos as nat) == Err::<(Tree, nat), ParseError>(e));
                }
                Err(e)
            },
            Some(name_s) => {
                let has_eq = pos + 1 < tokens.len() && tok_is_op(
                    &tokens[pos + 1].token,
                    Operator::Equals,
                );
                proof {
                    if pos + 1 < tokens@.len() {
                        assert(tv[pos as int + 1] == tokens@[pos as int + 1]@);
                    }
                }
                if has_eq {
                    let eq_loc = tokens[pos + 1].loc;
                    let mut p: usize = pos + 2;
                    let (col, term) = collect_line(tokens, &mut p, eq_loc);
                    let ghost lo = arena@.nodes.len() as int;
                    let a_id = arena.new_node(Node::new(Item::Assign, t_loc));
                    let v_id = arena.new_node(Node::new(Item::Identifier(name_s), t_loc));
                    arena.append(a_id, v_id);
                    let ghost a1 = arena@;
                    let ghost vtree = leaf(
                        ItemView::Identifier(tokens@[pos as int].token->Identifier_0@),
                        t_loc,
                    );
                    let wrap_id = match build_expr_node(&col, term, arena) {
                        Err(e) => {
                            proof {
                                assert(stmt_spec(tv, pos as nat) == Err::<
                                    (Tree, nat),
                                    ParseError,
                                >(e));
                            }
                            return Err(e);
                        },
                        Ok(w) => w,
                    };
                    let ghost a2 = arena@;
                    let ghost colv = tokens_view(col@);
                    let ghost et = expr_spec(colv, term)->Ok_0;
                    let ghost wrapt = expr_wrap(colv, et, term);
                    arena.append(a_id, wrap_id);
                    let ghost a3 = arena@;
                    proof {
                        assert(reps(a1, v_id as int, vtree, v_id as int, v_id as int + 1));
                        lemma_reps_frame(a1, a2, v_id as int, vtree, v_id as int, v_id as int + 1, a_id as int);
                        lemma_reps_frame(a2, a3, v_id as int, vtree, v_id as int, v_id as int + 1, a_id as int);
                        lemma_reps_widen(a3, v_id as int, vtree, v_id as int, v_id as int + 1, lo, a3.nodes.len() as int);
                        lemma_reps_frame(a2, a3, wrap_id as int, wrapt, a1.nodes.len() as int, a2.nodes.len() as int, a_id as int);
                        lemma_reps_widen(a3, wrap_id as int, wrapt, a1.nodes.len() as int, a2.nodes.len() as int, lo, a3.nodes.len() as int);
                        assert(a3.kids[a_id as int] =~= seq![v_id as int, wrap_id as int]);
                        let atree = Tree {
                            item: ItemView::Assign,
                            loc: t_loc,
                            children: seq![vtree, wrapt],
                        };
                        assert(reps(arena@, a_id as int, atree, lo, arena@.nodes.len() as int));
                        assert(stmt_spec(tv, pos as nat) == Ok::<(Tree, nat), ParseError>(
                            (atree, p as nat),
                        ));
                    }
                    Ok((a_id, p))
                } else if pos + 1 < tokens.len() {
                    let e = ParseError {
                        kind: ParseErrorKind::UnexpectedToken,
                        loc: tokens[pos + 1].loc,
                    };
                    proof {
                        assert(stmt_spec(tv, pos as nat) == Err::<(Tree, nat), ParseError>(e));
                    }
                    Err(e)
                } else {
                    let e = ParseError { kind: ParseErrorKind::UnexpectedToken, loc: t_loc };
                    proof {
                        assert(stmt_spec(tv, pos as nat) == Err::<(Tree, nat), ParseError>(e));
                    }
                    Err(e)
                }
            },
        }
    }
}

/// Runs the whole parse: creates the root `Program` node and parses
/// statements against it until the end-of-sequence sentinel, returning
/// the arena together with the root's handle.
#[verifier::rlimit(80)]
pub fn parser(tokens: &Vec<TokenValue>) -> (r: Result<(Arena, usize), ParseError>)
    ensures
        match r {
            Ok(res) => parser_spec(tokens_view(tokens@)) matches Ok(t) && res.0.wf() && res.1 == 0
                && reps(res.0@, 0, t, 0, res.0@.nodes.len() as int),
            Err(e) => parser_spec(tokens_view(tokens@)) == Err::<Tree, ParseError>(e),
        },
{
    let ghost tv = tokens_view(tokens@);
    let mut arena = Arena::new();
    let root = arena.new_node(Node::new(Item::Program, Loc::new(0, 0)));
    let mut cur: usize = 0;
    let ghost mut done: Seq<Tree> = Seq::empty();
    let ghost mut done_ids: Seq<int> = Seq::empty();
    proof {
        assert(arena@.kids[0] =~= done_ids);
    }
    loop
        invariant_except_break
            blk_cons(done, program_spec(tv, cur as nat)) == program_spec(tv, 0),
        invariant
            cur <= tokens@.len(),
            tv == tokens_view(tokens@),
            arena.wf(),
            root == 0,
            1 <= arena@.nodes.len(),
            arena@.nodes[0].item == ItemView::Program,
            arena@.nodes[0].loc == (Loc { line_num: 0, column_num: 0 }),
            arena@.kids[0] == done_ids,
            done.len() == done_ids.len(),
            forall|x: int|
                0 <= x < done.len() ==> reps(
                    arena@,
                    done_ids[x],
                    #[trigger] done[x],
                    1,
                    arena@.nodes.len() as int,
                ),
        ensures
            program_spec(tv, 0) == Ok::<(Seq<Tree>, nat), ParseError>((done, cur as nat)),
            arena.wf(),
            root == 0,
            1 <= arena@.nodes.len(),
            arena@.nodes[0].item == ItemView::Program,
            arena@.nodes[0].loc == (Loc { line_num: 0, column_num: 0 }),
            arena@.kids[0] == done_ids,
            done.len() == done_ids.len(),
            forall|x: int|
                0 <= x < done.len() ==> reps(
                    arena@,
                    done_ids[x],
                    #[trigger] done[x],
                    1,
                    arena@.nodes.len() as int,
                ),
        decreases tokens@.len() - cur,
    {
        if cur >= tokens.len() {
            proof {
                assert(program_spec(tv, cur as nat) == Ok::<(Seq<Tree>, nat), ParseError>(
                    (Seq::empty(), cur as nat),
                ));
                assert(done + Seq::<Tree>::empty() =~= done);
            }
            break ;
        }
        proof {
            assert(tv[cur as int] == tokens@[cur as int]@);
        }
        if tok_is_newline(&tokens[cur].token) {
            proof {
                assert(program_spec(tv, cur as nat) == program_spec(tv, (cur + 1) as nat));
            }
            cur = cur + 1;
        } else if tok_is_eos(&tokens[cur].token) {
            proof {
                assert(program_spec(tv, cur as nat) == Ok::<(Seq<Tree>, nat), ParseError>(
                    (Seq::empty(), cur as nat),
                ));
                assert(done + Seq::<Tree>::empty() =~= done);
            }
            break ;
        } else {
            let ghost a_pre = arena@;
            match parse_statement(tokens, cur, &mut arena) {
                Err(e) => {
                    proof {
                        assert(program_spec(tv, cur as nat) == Err::<
                            (Seq<Tree>, nat),
                            ParseError,
                        >(e));
                        assert(parser_spec(tv) == Err::<Tree, ParseError>(e));
                    }
                    return Err(e);
                },
                Ok((child, p2)) => {
                    let ghost a_mid = arena@;
                    let ghost st = stmt_spec(tv, cur as nat)->Ok_0.0;
                    arena.append(root, child);
                    proof {
                        let a_now = arena@;
                        lemma_reps_frame(
                            a_mid,
                            a_now,
                            child as int,
                            st,
                            a_pre.nodes.len() as int,
                            a_mid.nodes.len() as int,
                            0,
                        );
                        lemma_reps_widen(
                            a_now,
                            child as int,
                            st,
                            a_pre.nodes.len() as int,
                            a_mid.nodes.len() as int,
                            1,
                            a_now.nodes.len() as int,
                        );
                        assert forall|x: int| 0 <= x < done.len() implies reps(
                            a_now,
                            done_ids[x],
                            #[trigger] done[x],
                            1,
                            a_now.nodes.len() as int,
                        ) by {
                            lemma_reps_frame(
                                a_pre,
                                a_mid,
                                done_ids[x],
                                done[x],
                                1,
                                a_pre.nodes.len() as int,
                                0,
                            );
                            lemma_reps_frame(
                                a_mid,
                                a_now,
                                done_ids[x],
                                done[x],
                                1,
                                a_pre.nodes.len() as int,
                                0,
                            );
                            lemma_reps_widen(
                                a_now,
                                done_ids[x],
                                done[x],
                                1,
                                a_pre.nodes.len() as int,
                                1,
                                a_now.nodes.len() as int,
                            );
                        }
                        assert(bump(tv.len(), cur as nat, p2 as nat) == p2 as nat);
                        assert(blk_cons(done, program_spec(tv, cur as nat)) == blk_cons(
                            done.push(st),
                            program_spec(tv, p2 as nat),
                        )) by {
                            match program_spec(tv, p2 as nat) {
                                Ok(rp) => {
                                    assert(done + (seq![st] + rp.0) =~= done.push(st) + rp.0);
                                },
                                Err(_) => {},
                            }
                        }
                        done = done.push(st);
                        done_ids = done_ids.push(child as int);
                        assert(a_now.kids[0] =~= done_ids);
                    }
                    cur = p2;
                },
            }
        }
    }
    proof {
        let t = Tree {
            item: ItemView::Program,
            loc: Loc { line_num: 0, column_num: 0 },
            children: done,
        };
        assert(parser_spec(tv) == Ok::<Tree, ParseError>(t));
        assert(reps(arena@, 0, t, 0, arena@.nodes.len() as int)) by {
            assert forall|k: int| 0 <= k < done.len() implies reps(
                arena@,
                arena@.kids[0][k],
                #[trigger] done[k],
                0,
                arena@.nodes.len() as int,
            ) by {
                assert(reps(arena@, done_ids[k], done[k], 1, arena@.nodes.len() as int));
                lemma_reps_widen(
                    arena@,
                    done_ids[k],
                    done[k],
                    1,
                    arena@.nodes.len() as int,
                    0,
                    arena@.nodes.len() as int,
                );
            }
        }
    }
    Ok((arena, root))
}

} // verus!
