//! Operator-precedence (shunting-yard) expression parsing: a bounded token
//! sequence — one expression's worth, already cut out of the stream by the
//! statement parser — becomes an expression subtree in the arena.
//!
//! The whole algorithm is modelled by [`expr_spec`]: an operator stack,
//! seeded with the sentinel `Empty` operator so that priority comparisons
//! never underflow, reorders the tokens into an output list
//! ([`shunt_from`]), and a single pass over that list builds the subtree
//! with an operand stack ([`build_trees`]). The executable
//! [`parse_expression`] writes into the arena exactly the tree the model
//! describes.

use crate::arena::{
    Arena,
    Item,
    ItemView,
    Node,
    Tree,
    clone_item,
    lemma_reps_stable,
    lemma_reps_widen,
    reps,
};
use crate::token::{
    LiteralValue,
    LiteralView,
    Loc,
    Number,
    NumberView,
    Operator,
    ParseError,
    ParseErrorKind,
    Token,
    TokenValue,
    TokenValueView,
    TokenView,
    tokens_view,
};
use vstd::pervasive::unreached;
use vstd::prelude::*;

verus! {

/// The binding priority of an operator: higher binds tighter. The sentinel
/// `Empty` (and the `in` of a `for` loop, which never stands in an
/// expression) sit at 0, below every real operator.
pub open spec fn op_priority(o: Operator) -> u32 {
    match o {
        Operator::Times => 5,
        Operator::Divide => 5,
        Operator::IntegerDivide => 5,
        Operator::Modulo => 5,
        Operator::Not => 5,
        Operator::Plus => 4,
        Operator::Minus => 4,
        Operator::Equals => 3,
        Operator::NotEquals => 3,
        Operator::And => 2,
        Operator::Or => 1,
        Operator::In => 0,
        Operator::Empty => 0,
    }
}

/// Every binary operator associates to the left; `not` is unary and
/// associates to the right.
pub open spec fn op_left_assoc(o: Operator) -> bool {
    match o {
        Operator::Not => false,
        _ => true,
    }
}

/// How many operands an operator takes from the operand stack: `not` is
/// unary, every other operator binary.
pub open spec fn op_arity(o: Operator) -> nat {
    match o {
        Operator::Not => 1,
        _ => 2,
    }
}

fn operator_priority(o: &Operator) -> (p: u32)
    ensures
        p == op_priority(*o),
{
    match o {
        Operator::Times => 5,
        Operator::Divide => 5,
        Operator::IntegerDivide => 5,
        Operator::Modulo => 5,
        Operator::Not => 5,
        Operator::Plus => 4,
        Operator::Minus => 4,
        Operator::Equals => 3,
        Operator::NotEquals => 3,
        Operator::And => 2,
        Operator::Or => 1,
        Operator::In => 0,
        Operator::Empty => 0,
    }
}

fn operator_left_assoc(o: &Operator) -> (b: bool)
    ensures
        b == op_left_assoc(*o),
{
    match o {
        Operator::Not => false,
        _ => true,
    }
}

/// The binding priority of an operator token.
pub fn priority(o: &TokenValue) -> (p: u32)
    requires
        o.token is Operator,
    ensures
        o.token matches Token::Operator(op) && p == op_priority(op),
{
    match &o.token {
        Token::Operator(op) => operator_priority(op),
        _ => unreached(),
    }
}

/// Whether an operator token associates to the left.
pub fn left_associative(o: &TokenValue) -> (b: bool)
    requires
        o.token is Operator,
    ensures
        o.token matches Token::Operator(op) && b == op_left_assoc(op),
{
    match &o.token {
        Token::Operator(op) => operator_left_assoc(op),
        _ => unreached(),
    }
}

/// Whether a token is an operator token.
pub fn is_operator(o: &TokenValue) -> (b: bool)
    ensures
        b == (o.token is Operator),
{
    match &o.token {
        Token::Operator(_) => true,
        _ => false,
    }
}

/// One entry of the output list: an AST item to create, its location, and
/// how many operands it takes from the operand stack (0 for a leaf, 1 for
/// `not`, 2 for a binary operator, the argument count for a call).
pub struct OutEntryView {
    pub item: ItemView,
    pub loc: Loc,
    pub argc: nat,
}

/// One entry of the operator stack: a pending operator, or the marker of
/// an open bracket.
pub enum StackOpView {
    Oper(Operator, Loc),
    Open(Loc),
}

/// Pops pending operators that bind at least as tightly as an incoming
/// operator of priority `p` (strictly tighter if the incoming operator is
/// right-associative) to the output list, stopping at a bracket marker or
/// at the sentinel.
pub open spec fn pop_ge(
    stack: Seq<StackOpView>,
    out: Seq<OutEntryView>,
    p: u32,
    left: bool,
) -> (Seq<StackOpView>, Seq<OutEntryView>)
    decreases stack.len(),
{
    if stack.len() == 0 {
        (stack, out)
    } else {
        match stack.last() {
            StackOpView::Oper(top, l) => {
                if top != Operator::Empty && (op_priority(top) > p || (left && op_priority(top)
                    == p)) {
                    pop_ge(
                        stack.drop_last(),
                        out.push(
                            OutEntryView {
                                item: ItemView::Operator(top),
                                loc: l,
                                argc: op_arity(top),
                            },
                        ),
                        p,
                        left,
                    )
                } else {
                    (stack, out)
                }
            },
            StackOpView::Open(_) => (stack, out),
        }
    }
}

/// Pops pending operators to the output list until the matching bracket
/// marker, which is discarded; reaching the sentinel first means the
/// closing bracket has no opening one.
pub open spec fn pop_to_open(stack: Seq<StackOpView>, out: Seq<OutEntryView>) -> Result<
    (Seq<StackOpView>, Seq<OutEntryView>),
    (),
>
    decreases stack.len(),
{
    if stack.len() == 0 {
        Err(())
    } else {
        match stack.last() {
            StackOpView::Open(_) => Ok((stack.drop_last(), out)),
            StackOpView::Oper(op, l) => if op == Operator::Empty {
                Err(())
            } else {
                pop_to_open(
                    stack.drop_last(),
                    out.push(
                        OutEntryView { item: ItemView::Operator(op), loc: l, argc: op_arity(op) },
                    ),
                )
            },
        }
    }
}

/// Drains the remaining pending operators to the output list once the
/// expression's tokens are exhausted; a bracket marker still on the stack
/// is an unterminated bracket.
pub open spec fn drain(stack: Seq<StackOpView>, out: Seq<OutEntryView>) -> Result<
    Seq<OutEntryView>,
    ParseError,
>
    decreases stack.len(),
{
    if stack.len() == 0 {
        Ok(out)
    } else {
        match stack.last() {
            StackOpView::Open(l) => Err(
                ParseError { kind: ParseErrorKind::UnterminatedBracket, loc: l },
            ),
            StackOpView::Oper(op, l) => if op == Operator::Empty {
                drain(stack.drop_last(), out)
            } else {
                drain(
                    stack.drop_last(),
                    out.push(
                        OutEntryView { item: ItemView::Operator(op), loc: l, argc: op_arity(op) },
                    ),
                )
            },
        }
    }
}

/// Scans the comma-separated argument list of a call: each argument is a
/// single identifier or number, appended directly to the output list; the
/// matching closing bracket ends the list. Running out of tokens first is
/// an unterminated call, located at the end of the expression.
pub open spec fn scan_args(
    toks: Seq<TokenValueView>,
    k: nat,
    out: Seq<OutEntryView>,
    count: nat,
    end_loc: Loc,
) -> Result<(nat, Seq<OutEntryView>, nat), ParseError>
    decreases toks.len() - k,
{
    if k >= toks.len() {
        Err(ParseError { kind: ParseErrorKind::UnterminatedCall, loc: end_loc })
    } else {
        let t = toks[k as int];
        match t.token {
            TokenView::CloseBracket => Ok((k + 1, out, count)),
            TokenView::Comma => scan_args(toks, k + 1, out, count, end_loc),
            TokenView::Identifier(name) => scan_args(
                toks,
                k + 1,
                out.push(OutEntryView { item: ItemView::Identifier(name), loc: t.loc, argc: 0 }),
                count + 1,
                end_loc,
            ),
            TokenView::Literal(LiteralView::Number(n)) => scan_args(
                toks,
                k + 1,
                out.push(OutEntryView { item: ItemView::Number(n), loc: t.loc, argc: 0 }),
                count + 1,
                end_loc,
            ),
            _ => Err(ParseError { kind: ParseErrorKind::UnexpectedToken, loc: t.loc }),
        }
    }
}

pub proof fn lemma_scan_args_ge(
    toks: Seq<TokenValueView>,
    k: nat,
    out: Seq<OutEntryView>,
    count: nat,
    end_loc: Loc,
)
    ensures
        match scan_args(toks, k, out, count, end_loc) {
            Ok((k2, o2, c2)) => k < k2 <= toks.len(),
            Err(e) => true,
        },
    decreases toks.len() - k,
{
    if k < toks.len() {
        let t = toks[k as int];
        match t.token {
            TokenView::Comma => {
                lemma_scan_args_ge(toks, k + 1, out, count, end_loc);
            },
            TokenView::Identifier(name) => {
                lemma_scan_args_ge(
                    toks,
                    k + 1,
                    out.push(
                        OutEntryView { item: ItemView::Identifier(name), loc: t.loc, argc: 0 },
                    ),
                    count + 1,
                    end_loc,
                );
            },
            TokenView::Literal(LiteralView::Number(n)) => {
                lemma_scan_args_ge(
                    toks,
                    k + 1,
                    out.push(OutEntryView { item: ItemView::Number(n), loc: t.loc, argc: 0 }),
                    count + 1,
                    end_loc,
                );
            },
            _ => {},
        }
    }
}

/// The reordering pass: turns the infix tokens from position `k` on into
/// the postfix output list, carrying the operator stack.
pub open spec fn shunt_from(
    toks: Seq<TokenValueView>,
    k: nat,
    stack: Seq<StackOpView>,
    out: Seq<OutEntryView>,
    end_loc: Loc,
) -> Result<Seq<OutEntryView>, ParseError>
    decreases toks.len() - k,
    via shunt_from_dec
{
    if k >= toks.len() {
        drain(stack, out)
    } else {
        let t = toks[k as int];
        match t.token {
            TokenView::Identifier(name) => {
                if k + 1 < toks.len() && toks[k as int + 1].token is OpenBracket {
                    match scan_args(toks, k + 2, out, 0, end_loc) {
                        Ok((k2, out2, cnt)) => shunt_from(
                            toks,
                            k2,
                            stack,
                            out2.push(
                                OutEntryView { item: ItemView::Call(name), loc: t.loc, argc: cnt },
                            ),
                            end_loc,
                        ),
                        Err(e) => Err(e),
                    }
                } else {
                    shunt_from(
                        toks,
                        k + 1,
                        stack,
                        out.push(
                            OutEntryView { item: ItemView::Identifier(name), loc: t.loc, argc: 0 },
                        ),
                        end_loc,
                    )
                }
            },
            TokenView::Literal(LiteralView::Number(n)) => shunt_from(
                toks,
                k + 1,
                stack,
                out.push(OutEntryView { item: ItemView::Number(n), loc: t.loc, argc: 0 }),
                end_loc,
            ),
            TokenView::Operator(op) => {
                let popped = pop_ge(stack, out, op_priority(op), op_left_assoc(op));
                shunt_from(
                    toks,
                    k + 1,
                    popped.0.push(StackOpView::Oper(op, t.loc)),
                    popped.1,
                    end_loc,
                )
            },
            TokenView::OpenBracket => shunt_from(
                toks,
                k + 1,
                stack.push(StackOpView::Open(t.loc)),
                out,
                end_loc,
            ),
            TokenView::CloseBracket => match pop_to_open(stack, out) {
                Ok(popped) => shunt_from(toks, k + 1, popped.0, popped.1, end_loc),
                Err(()) => Err(ParseError { kind: ParseErrorKind::UnterminatedBracket, loc: t.loc }),
            },
            _ => Err(ParseError { kind: ParseErrorKind::UnexpectedToken, loc: t.loc }),
        }
    }
}

#[via_fn]
proof fn shunt_from_dec(
    toks: Seq<TokenValueView>,
    k: nat,
    stack: Seq<StackOpView>,
    out: Seq<OutEntryView>,
    end_loc: Loc,
) {
    if k < toks.len() {
        let t = toks[k as int];
        match t.token {
            TokenView::Identifier(name) => {
                if k + 1 < toks.len() && toks[k as int + 1].token is OpenBracket {
                    lemma_scan_args_ge(toks, k + 2, out, 0, end_loc);
                }
            },
            _ => {},
        }
    }
}

/// The building pass: a left-to-right walk over the output list from
/// position `k`, popping each entry's operands off the operand stack and
/// pushing the subtree it roots. An entry that finds too few operands is a
/// malformed expression.
pub open spec fn build_trees(out: Seq<OutEntryView>, k: nat, stack: Seq<Tree>) -> Result<
    Seq<Tree>,
    ParseError,
>
    decreases out.len() - k,
{
    if k >= out.len() {
        Ok(stack)
    } else {
        let it = out[k as int];
        if stack.len() < it.argc {
            Err(ParseError { kind: ParseErrorKind::MalformedExpression, loc: it.loc })
        } else {
            let children = stack.subrange(stack.len() - it.argc, stack.len() as int);
            build_trees(
                out,
                k + 1,
                stack.subrange(0, stack.len() - it.argc).push(
                    Tree { item: it.item, loc: it.loc, children },
                ),
            )
        }
    }
}

/// A number-literal token.
pub open spec fn num_tok(n: NumberView, l: Loc) -> TokenValueView {
    TokenValueView { token: TokenView::Literal(LiteralView::Number(n)), loc: l }
}

/// An operator token.
pub open spec fn op_tok(o: Operator, l: Loc) -> TokenValueView {
    TokenValueView { token: TokenView::Operator(o), loc: l }
}

/// A number leaf of an expression tree.
pub open spec fn num_leaf(n: NumberView, l: Loc) -> Tree {
    Tree { item: ItemView::Number(n), loc: l, children: Seq::empty() }
}

/// Law: between two binary operators, the one with the higher priority
/// binds tighter. Parsing `n1 o1 n2 o2 n3` with `o2`'s priority above
/// `o1`'s yields an `o1` root whose right child is the `o2` subtree over
/// `n2` and `n3` — never an `o2` root.
pub proof fn lemma_higher_priority_binds_tighter(
    n1: NumberView,
    la: Loc,
    o1: Operator,
    l1: Loc,
    n2: NumberView,
    lb: Loc,
    o2: Operator,
    l2: Loc,
    n3: NumberView,
    lc: Loc,
    end_loc: Loc,
)
    requires
        1 <= op_priority(o1) < op_priority(o2),
        o1 != Operator::Not,
        o2 != Operator::Not,
    ensures
        expr_spec(
            seq![num_tok(n1, la), op_tok(o1, l1), num_tok(n2, lb), op_tok(o2, l2), num_tok(n3, lc)],
            end_loc,
        ) == Ok::<Tree, ParseError>(
            Tree {
                item: ItemView::Operator(o1),
                loc: l1,
                children: seq![
                    num_leaf(n1, la),
                    Tree {
                        item: ItemView::Operator(o2),
                        loc: l2,
                        children: seq![num_leaf(n2, lb), num_leaf(n3, lc)],
                    },
                ],
            },
        ),
{
    let toks = seq![
        num_tok(n1, la),
        op_tok(o1, l1),
        num_tok(n2, lb),
        op_tok(o2, l2),
        num_tok(n3, lc),
    ];
    let sent = seq![StackOpView::Oper(Operator::Empty, end_loc)];
    let e1 = OutEntryView { item: ItemView::Number(n1), loc: la, argc: 0 };
    let e2 = OutEntryView { item: ItemView::Number(n2), loc: lb, argc: 0 };
    let e3 = OutEntryView { item: ItemView::Number(n3), loc: lc, argc: 0 };
    let f1 = OutEntryView { item: ItemView::Operator(o1), loc: l1, argc: 2 };
    let f2 = OutEntryView { item: ItemView::Operator(o2), loc: l2, argc: 2 };
    let s1 = sent.push(StackOpView::Oper(o1, l1));
    let s2 = s1.push(StackOpView::Oper(o2, l2));
    assert(o1 != Operator::Empty && o2 != Operator::Empty);
    // the reordering pass
    assert(Seq::<OutEntryView>::empty().push(e1) =~= seq![e1]);
    assert(shunt_from(toks, 0, sent, Seq::empty(), end_loc) == shunt_from(
        toks,
        1,
        sent,
        seq![e1],
        end_loc,
    ));
    assert(pop_ge(sent, seq![e1], op_priority(o1), op_left_assoc(o1)) == (sent, seq![e1]));
    assert(shunt_from(toks, 1, sent, seq![e1], end_loc) == shunt_from(
        toks,
        2,
        s1,
        seq![e1],
        end_loc,
    ));
    assert(seq![e1].push(e2) =~= seq![e1, e2]);
    assert(shunt_from(toks, 2, s1, seq![e1], end_loc) == shunt_from(
        toks,
        3,
        s1,
        seq![e1, e2],
        end_loc,
    ));
    assert(pop_ge(s1, seq![e1, e2], op_priority(o2), op_left_assoc(o2)) == (s1, seq![e1, e2]));
    assert(shunt_from(toks, 3, s1, seq![e1, e2], end_loc) == shunt_from(
        toks,
        4,
        s2,
        seq![e1, e2],
        end_loc,
    ));
    assert(seq![e1, e2].push(e3) =~= seq![e1, e2, e3]);
    assert(shunt_from(toks, 4, s2, seq![e1, e2], end_loc) == shunt_from(
        toks,
        5,
        s2,
        seq![e1, e2, e3],
        end_loc,
    ));
    // the drain
    assert(s2.drop_last() =~= s1);
    assert(s1.drop_last() =~= sent);
    assert(sent.drop_last() =~= Seq::<StackOpView>::empty());
    assert(seq![e1, e2, e3].push(f2) =~= seq![e1, e2, e3, f2]);
    assert(seq![e1, e2, e3, f2].push(f1) =~= seq![e1, e2, e3, f2, f1]);
    let out = seq![e1, e2, e3, f2, f1];
    assert(shunt_from(toks, 5, s2, seq![e1, e2, e3], end_loc) == drain(s2, seq![e1, e2, e3]));
    assert(drain(s2, seq![e1, e2, e3]) == drain(s1, seq![e1, e2, e3, f2]));
    assert(drain(s1, seq![e1, e2, e3, f2]) == drain(sent, out));
    assert(drain(sent, out) == drain(Seq::<StackOpView>::empty(), out));
    assert(drain(Seq::<StackOpView>::empty(), out) == Ok::<Seq<OutEntryView>, ParseError>(out));
    // the building pass
    let t1 = num_leaf(n1, la);
    let t2 = num_leaf(n2, lb);
    let t3 = num_leaf(n3, lc);
    let inner = Tree { item: ItemView::Operator(o2), loc: l2, children: seq![t2, t3] };
    let root = Tree { item: ItemView::Operator(o1), loc: l1, children: seq![t1, inner] };
    assert(Seq::<Tree>::empty().subrange(0, 0) =~= Seq::<Tree>::empty());
    assert(Seq::<Tree>::empty().push(t1) =~= seq![t1]);
    assert(seq![t1].subrange(1, 1) =~= Seq::<Tree>::empty());
    assert(seq![t1].subrange(0, 1) =~= seq![t1]);
    assert(seq![t1].push(t2) =~= seq![t1, t2]);
    assert(seq![t1, t2].subrange(2, 2) =~= Seq::<Tree>::empty());
    assert(seq![t1, t2].subrange(0, 2) =~= seq![t1, t2]);
    assert(seq![t1, t2].push(t3) =~= seq![t1, t2, t3]);
    assert(seq![t1, t2, t3].subrange(1, 3) =~= seq![t2, t3]);
    assert(seq![t1, t2, t3].subrange(0, 1) =~= seq![t1]);
    assert(seq![t1].push(inner) =~= seq![t1, inner]);
    assert(seq![t1, inner].subrange(0, 2) =~= seq![t1, inner]);
    assert(seq![t1, inner].subrange(0, 0) =~= Seq::<Tree>::empty());
    assert(Seq::<Tree>::empty().push(root) =~= seq![root]);
    assert(build_trees(out, 0, Seq::empty()) == build_trees(out, 1, seq![t1]));
    assert(build_trees(out, 1, seq![t1]) == build_trees(out, 2, seq![t1, t2]));
    assert(build_trees(out, 2, seq![t1, t2]) == build_trees(out, 3, seq![t1, t2, t3]));
    assert(build_trees(out, 3, seq![t1, t2, t3]) == build_trees(out, 4, seq![t1, inner]));
    assert(build_trees(out, 4, seq![t1, inner]) == build_trees(out, 5, seq![root]));
    assert(build_trees(out, 5, seq![root]) == Ok::<Seq<Tree>, ParseError>(seq![root]));
}

/// Law: a binary operator of one priority is left-associative. Parsing
/// `n1 o n2 o n3` yields a root whose left child is the subtree over `n1`
/// and `n2` — the right-leaning tree never appears.
pub proof fn lemma_left_associative(
    n1: NumberView,
    la: Loc,
    o: Operator,
    l1: Loc,
    n2: NumberView,
    lb: Loc,
    l2: Loc,
    n3: NumberView,
    lc: Loc,
    end_loc: Loc,
)
    requires
        1 <= op_priority(o),
        o != Operator::Not,
    ensures
        expr_spec(
            seq![num_tok(n1, la), op_tok(o, l1), num_tok(n2, lb), op_tok(o, l2), num_tok(n3, lc)],
            end_loc,
        ) == Ok::<Tree, ParseError>(
            Tree {
                item: ItemView::Operator(o),
                loc: l2,
                children: seq![
                    Tree {
                        item: ItemView::Operator(o),
                        loc: l1,
                        children: seq![num_leaf(n1, la), num_leaf(n2, lb)],
                    },
                    num_leaf(n3, lc),
                ],
            },
        ),
{
    let toks = seq![
        num_tok(n1, la),
        op_tok(o, l1),
        num_tok(n2, lb),
        op_tok(o, l2),
        num_tok(n3, lc),
    ];
    let sent = seq![StackOpView::Oper(Operator::Empty, end_loc)];
    let e1 = OutEntryView { item: ItemView::Number(n1), loc: la, argc: 0 };
    let e2 = OutEntryView { item: ItemView::Number(n2), loc: lb, argc: 0 };
    let e3 = OutEntryView { item: ItemView::Number(n3), loc: lc, argc: 0 };
    let f1 = OutEntryView { item: ItemView::Operator(o), loc: l1, argc: 2 };
    let f2 = OutEntryView { item: ItemView::Operator(o), loc: l2, argc: 2 };
    let s1 = sent.push(StackOpView::Oper(o, l1));
    let s2 = sent.push(StackOpView::Oper(o, l2));
    assert(o != Operator::Empty);
    assert(op_left_assoc(o));
    // the reordering pass; the second occurrence of `o` pops the first
    assert(Seq::<OutEntryView>::empty().push(e1) =~= seq![e1]);
    assert(shunt_from(toks, 0, sent, Seq::empty(), end_loc) == shunt_from(
        toks,
        1,
        sent,
        seq![e1],
        end_loc,
    ));
    assert(pop_ge(sent, seq![e1], op_priority(o), true) == (sent, seq![e1]));
    assert(shunt_from(toks, 1, sent, seq![e1], end_loc) == shunt_from(
        toks,
        2,
        s1,
        seq![e1],
        end_loc,
    ));
    assert(seq![e1].push(e2) =~= seq![e1, e2]);
    assert(shunt_from(toks, 2, s1, seq![e1], end_loc) == shunt_from(
        toks,
        3,
        s1,
        seq![e1, e2],
        end_loc,
    ));
    assert(s1.drop_last() =~= sent);
    assert(seq![e1, e2].push(f1) =~= seq![e1, e2, f1]);
    assert(pop_ge(s1, seq![e1, e2], op_priority(o), true) == pop_ge(
        sent,
        seq![e1, e2, f1],
        op_priority(o),
        true,
    ));
    assert(pop_ge(sent, seq![e1, e2, f1], op_priority(o), true) == (sent, seq![e1, e2, f1]));
    assert(shunt_from(toks, 3, s1, seq![e1, e2], end_loc) == shunt_from(
        toks,
        4,
        s2,
        seq![e1, e2, f1],
        end_loc,
    ));
    assert(seq![e1, e2, f1].push(e3) =~= seq![e1, e2, f1, e3]);
    assert(shunt_from(toks, 4, s2, seq![e1, e2, f1], end_loc) == shunt_from(
        toks,
        5,
        s2,
        seq![e1, e2, f1, e3],
        end_loc,
    ));
    // the drain
    assert(s2.drop_last() =~= sent);
    assert(sent.drop_last() =~= Seq::<StackOpView>::empty());
    assert(seq![e1, e2, f1, e3].push(f2) =~= seq![e1, e2, f1, e3, f2]);
    let out = seq![e1, e2, f1, e3, f2];
    assert(shunt_from(toks, 5, s2, seq![e1, e2, f1, e3], end_loc) == drain(
        s2,
        seq![e1, e2, f1, e3],
    ));
    assert(drain(s2, seq![e1, e2, f1, e3]) == drain(sent, out));
    assert(drain(sent, out) == drain(Seq::<StackOpView>::empty(), out));
    assert(drain(Seq::<StackOpView>::empty(), out) == Ok::<Seq<OutEntryView>, ParseError>(out));
    // the building pass
    let t1 = num_leaf(n1, la);
    let t2 = num_leaf(n2, lb);
    let t3 = num_leaf(n3, lc);
    let inner = Tree { item: ItemView::Operator(o), loc: l1, children: seq![t1, t2] };
    let root = Tree { item: ItemView::Operator(o), loc: l2, children: seq![inner, t3] };
    assert(Seq::<Tree>::empty().subrange(0, 0) =~= Seq::<Tree>::empty());
    assert(Seq::<Tree>::empty().push(t1) =~= seq![t1]);
    assert(seq![t1].subrange(1, 1) =~= Seq::<Tree>::empty());
    assert(seq![t1].subrange(0, 1) =~= seq![t1]);
    assert(seq![t1].push(t2) =~= seq![t1, t2]);
    assert(seq![t1, t2].subrange(0, 2) =~= seq![t1, t2]);
    assert(seq![t1, t2].subrange(0, 0) =~= Seq::<Tree>::empty());
    assert(Seq::<Tree>::empty().push(inner) =~= seq![inner]);
    assert(seq![inner].subrange(1, 1) =~= Seq::<Tree>::empty());
    assert(seq![inner].subrange(0, 1) =~= seq![inner]);
    assert(seq![inner].push(t3) =~= seq![inner, t3]);
    assert(seq![inner, t3].subrange(0, 2) =~= seq![inner, t3]);
    assert(seq![inner, t3].subrange(0, 0) =~= Seq::<Tree>::empty());
    assert(Seq::<Tree>::empty().push(root) =~= seq![root]);
    assert(build_trees(out, 0, Seq::empty()) == build_trees(out, 1, seq![t1]));
    assert(build_trees(out, 1, seq![t1]) == build_trees(out, 2, seq![t1, t2]));
    assert(build_trees(out, 2, seq![t1, t2]) == build_trees(out, 3, seq![inner]));
    assert(build_trees(out, 3, seq![inner]) == build_trees(out, 4, seq![inner, t3]));
    assert(build_trees(out, 4, seq![inner, t3]) == build_trees(out, 5, seq![root]));
    assert(build_trees(out, 5, seq![root]) == Ok::<Seq<Tree>, ParseError>(seq![root]));
}

/// One entry of the executable output list.
struct OutEntry {
    item: Item,
    loc: Loc,
    argc: usize,
}

impl View for OutEntry {
    type V = OutEntryView;

    closed spec fn view(&self) -> OutEntryView {
        OutEntryView { item: self.item@, loc: self.loc, argc: self.argc as nat }
    }
}

/// One entry of the executable operator stack.
enum StackOp {
    Oper(Operator, Loc),
    Open(Loc),
}

impl View for StackOp {
    type V = StackOpView;

    closed spec fn view(&self) -> StackOpView {
        match self {
            StackOp::Oper(o, l) => StackOpView::Oper(*o, *l),
            StackOp::Open(l) => StackOpView::Open(*l),
        }
    }
}

/// The view of the executable operator stack.
spec fn ops_view(s: Seq<StackOp>) -> Seq<StackOpView> {
    s.map(|i: int, e: StackOp| e@)
}

/// The view of the executable output list.
spec fn outs_view(s: Seq<OutEntry>) -> Seq<OutEntryView> {
    s.map(|i: int, e: OutEntry| e@)
}

/// The view of a handle stack.
pub open spec fn ids_view(s: Seq<usize>) -> Seq<int> {
    s.map(|i: int, u: usize| u as int)
}

proof fn lemma_ops_view_push(s: Seq<StackOp>, e: StackOp)
    ensures
        ops_view(s.push(e)) == ops_view(s).push(e@),
{
    assert(ops_view(s.push(e)) =~= ops_view(s).push(e@));
}

proof fn lemma_ops_view_drop(s: Seq<StackOp>)
    requires
        s.len() > 0,
    ensures
        ops_view(s.subrange(0, s.len() - 1)) == ops_view(s).drop_last(),
{
    assert(ops_view(s.subrange(0, s.len() - 1)) =~= ops_view(s).drop_last());
}

proof fn lemma_outs_view_push(s: Seq<OutEntry>, e: OutEntry)
    ensures
        outs_view(s.push(e)) == outs_view(s).push(e@),
{
    assert(outs_view(s.push(e)) =~= outs_view(s).push(e@));
}

fn operator_arity(o: &Operator) -> (n: usize)
    ensures
        n == op_arity(*o),
{
    match o {
        Operator::Not => 1,
        _ => 2,
    }
}

fn op_is_empty(o: &Operator) -> (b: bool)
    ensures
        b == (*o == Operator::Empty),
{
    match o {
        Operator::Empty => true,
        _ => false,
    }
}

fn is_open_bracket(t: &Token) -> (b: bool)
    ensures
        b == (t@ is OpenBracket),
{
    match t {
        Token::OpenBracket => true,
        _ => false,
    }
}

/// What parsing one expression's tokens yields: the expression subtree, or
/// the error the algorithm stops with. `end_loc` is the location of the
/// token that ended the expression, used for errors at its end.
pub open spec fn expr_spec(toks: Seq<TokenValueView>, end_loc: Loc) -> Result<Tree, ParseError> {
    match shunt_from(toks, 0, seq![StackOpView::Oper(Operator::Empty, end_loc)], Seq::empty(), end_loc) {
        Ok(out) => match build_trees(out, 0, Seq::empty()) {
            Ok(stack) => if stack.len() == 1 {
                Ok(stack[0])
            } else {
                Err(ParseError { kind: ParseErrorKind::MalformedExpression, loc: end_loc })
            },
            Err(e) => Err(e),
        },
        Err(e) => Err(e),
    }
}

/// Parses one expression's worth of tokens — as cut out of the stream by
/// the statement parser, with `end_loc` the location of the token that
/// ended the expression — into a subtree of fresh arena nodes, returning
/// the root's handle. Returns the subtree, or the error, that
/// [`expr_spec`] assigns to the tokens; nodes already in the arena are
/// never touched, except that nothing at all is touched on error paths
/// before the building pass.
pub fn parse_expression(tokens: &Vec<TokenValue>, end_loc: Loc, arena: &mut Arena) -> (r: Result<
    usize,
    ParseError,
>)
    requires
        old(arena).wf(),
    ensures
        final(arena).wf(),
        old(arena)@.nodes.len() <= final(arena)@.nodes.len(),
        forall|j: int|
            0 <= j < old(arena)@.nodes.len() ==> (#[trigger] final(arena)@.nodes[j]) == old(arena)@.nodes[j],
        forall|j: int|
            0 <= j < old(arena)@.nodes.len() ==> (#[trigger] final(arena)@.kids[j]) == old(arena)@.kids[j],
        match r {
            Ok(root) => expr_spec(tokens_view(tokens@), end_loc) matches Ok(t) && reps(
                final(arena)@,
                root as int,
                t,
                old(arena)@.nodes.len() as int,
                final(arena)@.nodes.len() as int,
            ),
            Err(e) => expr_spec(tokens_view(tokens@), end_loc) == Err::<Tree, ParseError>(e),
        },
{
    let ghost tv = tokens_view(tokens@);
    let ghost sentinel = seq![StackOpView::Oper(Operator::Empty, end_loc)];
    let mut op_stack: Vec<StackOp> = Vec::new();
    op_stack.push(StackOp::Oper(Operator::Empty, end_loc));
    let mut out_list: Vec<OutEntry> = Vec::new();
    proof {
        assert(ops_view(op_stack@) =~= sentinel);
        assert(outs_view(out_list@) =~= Seq::<OutEntryView>::empty());
    }
    let mut k: usize = 0;
    while k < tokens.len()
        invariant
            k <= tokens@.len(),
            tv == tokens_view(tokens@),
            arena@ == old(arena)@,
            arena.wf(),
            op_stack@.len() >= 1,
            ops_view(op_stack@)[0] == StackOpView::Oper(Operator::Empty, end_loc),
            shunt_from(tv, 0, sentinel, Seq::empty(), end_loc) == shunt_from(
                tv,
                k as nat,
                ops_view(op_stack@),
                outs_view(out_list@),
                end_loc,
            ),
            sentinel == seq![StackOpView::Oper(Operator::Empty, end_loc)],
        decreases tokens@.len() - k,
    {
        let ghost sv0 = ops_view(op_stack@);
        let ghost ov0 = outs_view(out_list@);
        proof {
            assert(tv[k as int] == tokens@[k as int]@);
        }
        let t_loc = tokens[k].loc;
        match &tokens[k].token {
            Token::Identifier(name) => {
                let is_call = k + 1 < tokens.len() && is_open_bracket(&tokens[k + 1].token);
                proof {
                    if k + 1 < tokens@.len() {
                        assert(tv[k as int + 1] == tokens@[k as int + 1]@);
                    }
                }
                if is_call {
                    let name_s: String = name.clone();
                    let mut m = k + 2;
                    let mut cnt: usize = 0;
                    loop
                        invariant_except_break
                            scan_args(tv, (k + 2) as nat, ov0, 0, end_loc) == scan_args(
                                tv,
                                m as nat,
                                outs_view(out_list@),
                                cnt as nat,
                                end_loc,
                            ),
                        invariant
                            k + 2 <= m <= tokens@.len(),
                            k + 1 < tokens@.len(),
                            cnt <= m,
                            tv == tokens_view(tokens@),
                            arena@ == old(arena)@,
                            arena.wf(),
                            op_stack@.len() >= 1,
                            ops_view(op_stack@)[0] == StackOpView::Oper(Operator::Empty, end_loc),
                            ops_view(op_stack@) == sv0,
                            sentinel == seq![StackOpView::Oper(Operator::Empty, end_loc)],
                            tv[k as int].token == TokenView::Identifier(name_s@),
                            tv[k as int + 1].token is OpenBracket,
                            tv[k as int].loc == t_loc,
                            shunt_from(tv, 0, sentinel, Seq::empty(), end_loc) == shunt_from(
                                tv,
                                k as nat,
                                sv0,
                                ov0,
                                end_loc,
                            ),
                        ensures
                            k + 2 < m <= tokens@.len(),
                            scan_args(tv, (k + 2) as nat, ov0, 0, end_loc) == Ok::<
                                (nat, Seq<OutEntryView>, nat),
                                ParseError,
                            >((m as nat, outs_view(out_list@), cnt as nat)),
                        decreases tokens@.len() - m,
                    {
                        if m >= tokens.len() {
                            let e = ParseError {
                                kind: ParseErrorKind::UnterminatedCall,
                                loc: end_loc,
                            };
                            proof {
                                assert(scan_args(tv, m as nat, outs_view(out_list@), cnt as nat, end_loc)
                                    == Err::<(nat, Seq<OutEntryView>, nat), ParseError>(e));
                                assert(shunt_from(tv, k as nat, sv0, ov0, end_loc) == Err::<
                                    Seq<OutEntryView>,
                                    ParseError,
                                >(e));
                            }
                            return Err(e);
                        }
                        proof {
                            assert(tv[m as int] == tokens@[m as int]@);
                        }
                        let a_loc = tokens[m].loc;
                        match &tokens[m].token {
                            Token::CloseBracket => {
                                proof {
                                    assert(scan_args(
                                        tv,
                                        m as nat,
                                        outs_view(out_list@),
                                        cnt as nat,
                                        end_loc,
                                    ) == Ok::<(nat, Seq<OutEntryView>, nat), ParseError>(
                                        ((m + 1) as nat, outs_view(out_list@), cnt as nat),
                                    ));
                                }
                                m += 1;
                                break ;
                            },
                            Token::Comma => {
                                m += 1;
                            },
                            Token::Identifier(nm) => {
                                let entry = OutEntry {
                                    item: Item::Identifier(nm.clone()),
                                    loc: a_loc,
                                    argc: 0,
                                };
                                proof {
                                    lemma_outs_view_push(out_list@, entry);
                                }
                                out_list.push(entry);
                                cnt += 1;
                                m += 1;
                            },
                            Token::Literal(LiteralValue::Number(nb)) => {
                                let entry = OutEntry {
                                    item: Item::Number(
                                        Number::from_values(&nb.exponent, &nb.decimal, &nb.base),
                                    ),
                                    loc: a_loc,
                                    argc: 0,
                                };
                                proof {
                                    lemma_outs_view_push(out_list@, entry);
                                }
                                out_list.push(entry);
                                cnt += 1;
                                m += 1;
                            },
                            _ => {
                                let e = ParseError {
                                    kind: ParseErrorKind::UnexpectedToken,
                                    loc: a_loc,
                                };
                                proof {
                                    assert(shunt_from(tv, k as nat, sv0, ov0, end_loc) == Err::<
                                        Seq<OutEntryView>,
                                        ParseError,
                                    >(e));
                                }
                                return Err(e);
                            },
                        }
                    }
                    let entry = OutEntry { item: Item::Call(name_s), loc: t_loc, argc: cnt };
                    proof {
                        lemma_outs_view_push(out_list@, entry);
                        assert(shunt_from(tv, k as nat, sv0, ov0, end_loc) == shunt_from(
                            tv,
                            m as nat,
                            sv0,
                            outs_view(out_list@).push(entry@),
                            end_loc,
                        ));
                    }
                    out_list.push(entry);
                    k = m;
                } else {
                    let entry = OutEntry {
                        item: Item::Identifier(name.clone()),
                        loc: t_loc,
                        argc: 0,
                    };
                    proof {
                        lemma_outs_view_push(out_list@, entry);
                        assert(shunt_from(tv, k as nat, sv0, ov0, end_loc) == shunt_from(
                            tv,
                            (k + 1) as nat,
                            sv0,
                            ov0.push(entry@),
                            end_loc,
                        ));
                    }
                    out_list.push(entry);
                    k += 1;
                }
            },
            Token::Literal(LiteralValue::Number(nb)) => {
                let entry = OutEntry {
                    item: Item::Number(Number::from_values(&nb.exponent, &nb.decimal, &nb.base)),
                    loc: t_loc,
                    argc: 0,
                };
                proof {
                    lemma_outs_view_push(out_list@, entry);
                    assert(shunt_from(tv, k as nat, sv0, ov0, end_loc) == shunt_from(
                        tv,
                        (k + 1) as nat,
                        sv0,
                        ov0.push(entry@),
                        end_loc,
                    ));
                }
                out_list.push(entry);
                k += 1;
            },
            Token::Operator(op) => {
                let p = operator_priority(op);
                let la = operator_left_assoc(op);
                let op2 = *op;
                loop
                    invariant
                        op_stack@.len() >= 1,
                        ops_view(op_stack@)[0] == StackOpView::Oper(Operator::Empty, end_loc),
                        pop_ge(sv0, ov0, p, la) == pop_ge(
                            ops_view(op_stack@),
                            outs_view(out_list@),
                            p,
                            la,
                        ),
                    ensures
                        op_stack@.len() >= 1,
                        ops_view(op_stack@)[0] == StackOpView::Oper(Operator::Empty, end_loc),
                        pop_ge(sv0, ov0, p, la) == (ops_view(op_stack@), outs_view(out_list@)),
                    decreases op_stack@.len(),
                {
                    let ti = op_stack.len() - 1;
                    proof {
                        assert(ops_view(op_stack@)[ti as int] == op_stack@[ti as int]@);
                    }
                    let (do_pop, to2, tl2, ar2) = match &op_stack[ti] {
                        StackOp::Oper(o2, l2) => {
                            let pe = op_is_empty(o2);
                            let pp = operator_priority(o2);
                            let ar = operator_arity(o2);
                            (!pe && (pp > p || (la && pp == p)), *o2, *l2, ar)
                        },
                        StackOp::Open(_) => (false, Operator::Empty, end_loc, 0),
                    };
                    if do_pop {
                        let ghost svi = ops_view(op_stack@);
                        let ghost ovi = outs_view(out_list@);
                        let entry = OutEntry { item: Item::Operator(to2), loc: tl2, argc: ar2 };
                        proof {
                            lemma_ops_view_drop(op_stack@);
                            lemma_outs_view_push(out_list@, entry);
                        }
                        op_stack.pop();
                        out_list.push(entry);
                        proof {
                            assert(ops_view(op_stack@) == svi.drop_last());
                            assert(pop_ge(svi, ovi, p, la) == pop_ge(
                                ops_view(op_stack@),
                                outs_view(out_list@),
                                p,
                                la,
                            ));
                            assert(ops_view(op_stack@)[0] == svi[0]);
                        }
                    } else {
                        proof {
                            assert(pop_ge(
                                ops_view(op_stack@),
                                outs_view(out_list@),
                                p,
                                la,
                            ) == (ops_view(op_stack@), outs_view(out_list@)));
                        }
                        break ;
                    }
                }
                let pushed = StackOp::Oper(op2, t_loc);
                proof {
                    lemma_ops_view_push(op_stack@, pushed);
                    assert(shunt_from(tv, k as nat, sv0, ov0, end_loc) == shunt_from(
                        tv,
                        (k + 1) as nat,
                        ops_view(op_stack@).push(pushed@),
                        outs_view(out_list@),
                        end_loc,
                    ));
                }
                op_stack.push(pushed);
                proof {
                    assert(ops_view(op_stack@)[0] == StackOpView::Oper(Operator::Empty, end_loc));
                }
                k += 1;
            },
            Token::OpenBracket => {
                let pushed = StackOp::Open(t_loc);
                proof {
                    lemma_ops_view_push(op_stack@, pushed);
                    assert(shunt_from(tv, k as nat, sv0, ov0, end_loc) == shunt_from(
                        tv,
                        (k + 1) as nat,
                        sv0.push(pushed@),
                        ov0,
                        end_loc,
                    ));
                }
                op_stack.push(pushed);
                proof {
                    assert(ops_view(op_stack@)[0] == StackOpView::Oper(Operator::Empty, end_loc));
                }
                k += 1;
            },
            Token::CloseBracket => {
                loop
                    invariant_except_break
                        pop_to_open(sv0, ov0) == pop_to_open(
                            ops_view(op_stack@),
                            outs_view(out_list@),
                        ),
                    invariant
                        op_stack@.len() >= 1,
                        ops_view(op_stack@)[0] == StackOpView::Oper(Operator::Empty, end_loc),
                        arena@ == old(arena)@,
                        arena.wf(),
                        tv == tokens_view(tokens@),
                        k < tokens@.len(),
                        tv[k as int].token is CloseBracket,
                        tv[k as int].loc == t_loc,
                        sentinel == seq![StackOpView::Oper(Operator::Empty, end_loc)],
                        shunt_from(tv, 0, sentinel, Seq::empty(), end_loc) == shunt_from(
                            tv,
                            k as nat,
                            sv0,
                            ov0,
                            end_loc,
                        ),
                    ensures
                        op_stack@.len() >= 1,
                        ops_view(op_stack@)[0] == StackOpView::Oper(Operator::Empty, end_loc),
                        pop_to_open(sv0, ov0) == Ok::<
                            (Seq<StackOpView>, Seq<OutEntryView>),
                            (),
                        >((ops_view(op_stack@), outs_view(out_list@))),
                    decreases op_stack@.len(),
                {
                    let ti = op_stack.len() - 1;
                    proof {
                        assert(ops_view(op_stack@)[ti as int] == op_stack@[ti as int]@);
                    }
                    let is_open_top = match &op_stack[ti] {
                        StackOp::Open(_) => true,
                        StackOp::Oper(_, _) => false,
                    };
                    if is_open_top {
                        let ghost svi = ops_view(op_stack@);
                        proof {
                            lemma_ops_view_drop(op_stack@);
                            assert(ti > 0);
                        }
                        op_stack.pop();
                        proof {
                            assert(ops_view(op_stack@) == svi.drop_last());
                            assert(pop_to_open(svi, outs_view(out_list@)) == Ok::<
                                (Seq<StackOpView>, Seq<OutEntryView>),
                                (),
                            >((ops_view(op_stack@), outs_view(out_list@))));
                            assert(ops_view(op_stack@)[0] == svi[0]);
                        }
                        break ;
                    }
                    let (is_sentinel, to2, tl2, ar2) = match &op_stack[ti] {
                        StackOp::Oper(o2, l2) => {
                            (op_is_empty(o2), *o2, *l2, operator_arity(o2))
                        },
                        StackOp::Open(_) => (false, Operator::Empty, end_loc, 0),
                    };
                    if is_sentinel {
                        let e = ParseError {
                            kind: ParseErrorKind::UnterminatedBracket,
                            loc: t_loc,
                        };
                        proof {
                            assert(pop_to_open(ops_view(op_stack@), outs_view(out_list@))
                                == Err::<(Seq<StackOpView>, Seq<OutEntryView>), ()>(()));
                            assert(shunt_from(tv, k as nat, sv0, ov0, end_loc) == Err::<
                                Seq<OutEntryView>,
                                ParseError,
                            >(e));
                        }
                        return Err(e);
                    }
                    let ghost svi = ops_view(op_stack@);
                    let ghost ovi = outs_view(out_list@);
                    let entry = OutEntry { item: Item::Operator(to2), loc: tl2, argc: ar2 };
                    proof {
                        lemma_ops_view_drop(op_stack@);
                        lemma_outs_view_push(out_list@, entry);
                    }
                    op_stack.pop();
                    out_list.push(entry);
                    proof {
                        assert(ops_view(op_stack@) == svi.drop_last());
                        assert(pop_to_open(svi, ovi) == pop_to_open(
                            ops_view(op_stack@),
                            outs_view(out_list@),
                        ));
                        assert(ops_view(op_stack@)[0] == svi[0]);
                    }
                }
                proof {
                    assert(shunt_from(tv, k as nat, sv0, ov0, end_loc) == shunt_from(
                        tv,
                        (k + 1) as nat,
                        ops_view(op_stack@),
                        outs_view(out_list@),
                        end_loc,
                    ));
                }
                k += 1;
            },
            _ => {
                let e = ParseError { kind: ParseErrorKind::UnexpectedToken, loc: t_loc };
                proof {
                    assert(shunt_from(tv, k as nat, sv0, ov0, end_loc) == Err::<
                        Seq<OutEntryView>,
                        ParseError,
                    >(e));
                }
                return Err(e);
            },
        }
    }
    // the tokens are exhausted: drain the pending operators
    proof {
        assert(shunt_from(tv, k as nat, ops_view(op_stack@), outs_view(out_list@), end_loc)
            == drain(ops_view(op_stack@), outs_view(out_list@)));
    }
    let ghost svd = ops_view(op_stack@);
    let ghost ovd = outs_view(out_list@);
    loop
        invariant
            arena@ == old(arena)@,
            arena.wf(),
            tv == tokens_view(tokens@),
            sentinel == seq![StackOpView::Oper(Operator::Empty, end_loc)],
            shunt_from(tv, 0, sentinel, Seq::empty(), end_loc) == drain(svd, ovd),
            drain(svd, ovd) == drain(ops_view(op_stack@), outs_view(out_list@)),
        ensures
            drain(svd, ovd) == Ok::<Seq<OutEntryView>, ParseError>(outs_view(out_list@)),
        decreases op_stack@.len(),
    {
        if op_stack.len() == 0 {
            proof {
                assert(drain(ops_view(op_stack@), outs_view(out_list@)) == Ok::<
                    Seq<OutEntryView>,
                    ParseError,
                >(outs_view(out_list@)));
            }
            break ;
        }
        let ti = op_stack.len() - 1;
        proof {
            assert(ops_view(op_stack@)[ti as int] == op_stack@[ti as int]@);
        }
        let (is_open_top, open_loc) = match &op_stack[ti] {
            StackOp::Open(l2) => (true, *l2),
            StackOp::Oper(_, _) => (false, end_loc),
        };
        if is_open_top {
            let e = ParseError { kind: ParseErrorKind::UnterminatedBracket, loc: open_loc };
            proof {
                assert(drain(ops_view(op_stack@), outs_view(out_list@)) == Err::<
                    Seq<OutEntryView>,
                    ParseError,
                >(e));
            }
            return Err(e);
        }
        let (is_sentinel, to2, tl2, ar2) = match &op_stack[ti] {
            StackOp::Oper(o2, l2) => (op_is_empty(o2), *o2, *l2, operator_arity(o2)),
            StackOp::Open(_) => (false, Operator::Empty, end_loc, 0),
        };
        let ghost svi = ops_view(op_stack@);
        let ghost ovi = outs_view(out_list@);
        proof {
            lemma_ops_view_drop(op_stack@);
        }
        op_stack.pop();
        if !is_sentinel {
            let entry = OutEntry { item: Item::Operator(to2), loc: tl2, argc: ar2 };
            proof {
                lemma_outs_view_push(out_list@, entry);
            }
            out_list.push(entry);
        }
        proof {
            assert(ops_view(op_stack@) == svi.drop_last());
            assert(drain(svi, ovi) == drain(ops_view(op_stack@), outs_view(out_list@)));
        }
    }
    // build the subtree from the output list with an operand stack
    let ghost ov = outs_view(out_list@);
    let ghost lo = arena@.nodes.len() as int;
    let mut node_stack: Vec<usize> = Vec::new();
    let ghost mut ts: Seq<Tree> = Seq::empty();
    let mut b: usize = 0;
    while b < out_list.len()
        invariant
            b <= out_list@.len(),
            arena.wf(),
            lo == old(arena)@.nodes.len(),
            lo <= arena@.nodes.len(),
            tv == tokens_view(tokens@),
            sentinel == seq![StackOpView::Oper(Operator::Empty, end_loc)],
            forall|j: int|
                0 <= j < lo ==> (#[trigger] arena@.nodes[j]) == old(arena)@.nodes[j],
            forall|j: int| 0 <= j < lo ==> (#[trigger] arena@.kids[j]) == old(arena)@.kids[j],
            node_stack@.len() == ts.len(),
            forall|x: int|
                0 <= x < ts.len() ==> reps(
                    arena@,
                    (#[trigger] node_stack@[x]) as int,
                    ts[x],
                    lo,
                    arena@.nodes.len() as int,
                ),
            ov == outs_view(out_list@),
            shunt_from(tv, 0, sentinel, Seq::empty(), end_loc) == Ok::<
                Seq<OutEntryView>,
                ParseError,
            >(ov),
            build_trees(ov, 0, Seq::empty()) == build_trees(ov, b as nat, ts),
        decreases out_list@.len() - b,
    {
        proof {
            assert(ov[b as int] == out_list@[b as int]@);
        }
        let e_loc = out_list[b].loc;
        let argc = out_list[b].argc;
        if node_stack.len() < argc {
            let e = ParseError { kind: ParseErrorKind::MalformedExpression, loc: e_loc };
            proof {
                assert(build_trees(ov, b as nat, ts) == Err::<Seq<Tree>, ParseError>(e));
                assert(expr_spec(tv, end_loc) == Err::<Tree, ParseError>(e));
            }
            return Err(e);
        }
        let ghost a_pre = arena@;
        let ghost ns_pre = node_stack@;
        let ghost ts_pre = ts;
        let item = clone_item(&out_list[b].item);
        let id = arena.new_node(Node::new(item, e_loc));
        let first = node_stack.len() - argc;
        let ghost a1 = arena@;
        proof {
            assert(a1.kids[id as int] =~= ids_view(ns_pre.subrange(
                first as int,
                first as int,
            )));
        }
        let mut m2: usize = 0;
        while m2 < argc
            invariant
                m2 <= argc,
                argc <= node_stack@.len(),
                node_stack@.len() <= usize::MAX,
                first == node_stack@.len() - argc,
                node_stack@ == ns_pre,
                arena.wf(),
                id as int == a1.nodes.len() - 1,
                a1.nodes == a_pre.nodes.push(arena@.nodes[id as int]),
                a1.kids.len() == a1.nodes.len(),
                arena@.nodes == a1.nodes,
                arena@.kids.len() == a1.kids.len(),
                forall|j: int|
                    0 <= j < a1.kids.len() && j != id as int ==> (#[trigger] arena@.kids[j])
                        == a1.kids[j],
                arena@.kids[id as int] == ids_view(ns_pre.subrange(
                    first as int,
                    first as int + m2,
                )),
                forall|x: int|
                    0 <= x < ns_pre.len() ==> (#[trigger] ns_pre[x]) < a_pre.nodes.len(),
            decreases argc - m2,
        {
            let child = node_stack[first + m2];
            arena.append(id, child);
            proof {
                assert(arena@.kids[id as int] =~= ids_view(ns_pre.subrange(
                    first as int,
                    first as int + m2 + 1,
                )));
            }
            m2 += 1;
        }
        node_stack.truncate(first);
        node_stack.push(id);
        proof {
            let a_now = arena@;
            let children = ts_pre.subrange(first as int, ts_pre.len() as int);
            let t_new = Tree { item: out_list@[b as int]@.item, loc: e_loc, children };
            // the popped operands still represent their trees
            assert forall|x: int| 0 <= x < children.len() implies reps(
                a_now,
                a_now.kids[id as int][x],
                #[trigger] children[x],
                lo,
                a_now.nodes.len() as int,
            ) by {
                assert(reps(a_pre, ns_pre[first as int + x] as int, ts_pre[first as int + x], lo, a_pre.nodes.len() as int));
                lemma_reps_stable(
                    a_pre,
                    a_now,
                    ns_pre[first as int + x] as int,
                    ts_pre[first as int + x],
                    lo,
                    a_pre.nodes.len() as int,
                );
                lemma_reps_widen(
                    a_now,
                    ns_pre[first as int + x] as int,
                    ts_pre[first as int + x],
                    lo,
                    a_pre.nodes.len() as int,
                    lo,
                    a_now.nodes.len() as int,
                );
                assert(a_now.kids[id as int][x] == ns_pre[first as int + x] as int);
            }
            assert(reps(a_now, id as int, t_new, lo, a_now.nodes.len() as int));
            // the untouched part of the operand stack is stable too
            assert forall|x: int| 0 <= x < first as int implies reps(
                a_now,
                (#[trigger] ns_pre[x]) as int,
                ts_pre[x],
                lo,
                a_now.nodes.len() as int,
            ) by {
                assert(reps(a_pre, ns_pre[x] as int, ts_pre[x], lo, a_pre.nodes.len() as int));
                lemma_reps_stable(
                    a_pre,
                    a_now,
                    ns_pre[x] as int,
                    ts_pre[x],
                    lo,
                    a_pre.nodes.len() as int,
                );
                lemma_reps_widen(
                    a_now,
                    ns_pre[x] as int,
                    ts_pre[x],
                    lo,
                    a_pre.nodes.len() as int,
                    lo,
                    a_now.nodes.len() as int,
                );
            }
            ts = ts_pre.subrange(0, first as int).push(t_new);
            assert(node_stack@ =~= ns_pre.subrange(0, first as int).push(id));
            assert(ts_pre.subrange(ts_pre.len() - out_list@[b as int]@.argc, ts_pre.len() as int)
                == children);
            assert(build_trees(ov, b as nat, ts_pre) == build_trees(ov, (b + 1) as nat, ts));
        }
        b += 1;
    }
    proof {
        assert(build_trees(ov, b as nat, ts) == Ok::<Seq<Tree>, ParseError>(ts));
    }
    if node_stack.len() == 1 {
        let root = node_stack[0];
        proof {
            assert(expr_spec(tv, end_loc) == Ok::<Tree, ParseError>(ts[0]));
            assert(reps(arena@, root as int, ts[0], lo, arena@.nodes.len() as int));
        }
        Ok(root)
    } else {
        let e = ParseError { kind: ParseErrorKind::MalformedExpression, loc: end_loc };
        proof {
            assert(expr_spec(tv, end_loc) == Err::<Tree, ParseError>(e));
        }
        Err(e)
    }
}

} // verus!
