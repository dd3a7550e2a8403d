use vstd::prelude::*;
use vstd::string::StringExecFns;

use crate::ast::{
    expr_view, join_kind_of, opt_expr_view, opt_qid_view, ExprV, Expression, Join, JoinKind, JoinV,
    LitV, Literal, Operator, QIdV, QualifiedIdentifier, Statement, StmtV,
};
use crate::error::{Error, ErrorV};
use crate::lexer::{copy_token, token_views, Token, TokenType, TokenV};
use crate::text::{chars_of, nat_digits, parse_usize, spec_parse_usize, usize_text};

verus! {

// ---------------------------------------------------------------------------
// What the parser accepts, stated over the tokens' views. Each function takes
// the position of the next token and gives what it parsed (`None` on an error)
// with the position after it.
pub open spec fn tag_at(ts: Seq<TokenV>, p: int) -> Option<TokenType> {
    if 0 <= p < ts.len() {
        Some(ts[p].tag)
    } else {
        None
    }
}

/// Position after an optional token of kind `t`.
pub open spec fn skip_if(ts: Seq<TokenV>, p: int, t: TokenType) -> int {
    if tag_at(ts, p) == Some(t) {
        p + 1
    } else {
        p
    }
}

/// Consumes one token, if any; whether it was of kind `t`.
pub open spec fn expect(ts: Seq<TokenV>, p: int, t: TokenType) -> (bool, int) {
    if 0 <= p < ts.len() {
        (ts[p].tag == t, p + 1)
    } else {
        (false, p)
    }
}

/// Binding strength of a binary operator token; -1 for every other token.
pub open spec fn precedence(tag: TokenType) -> int {
    match tag {
        TokenType::Or => 1,
        TokenType::And => 2,
        TokenType::Equal | TokenType::NotEqual => 3,
        TokenType::Less | TokenType::Greater | TokenType::LessEqual | TokenType::GreaterEqual => 4,
        TokenType::Plus | TokenType::Minus => 5,
        TokenType::Star | TokenType::Slash => 6,
        _ => -1,
    }
}

pub open spec fn operator_of(tag: TokenType) -> Option<Operator> {
    match tag {
        TokenType::Equal => Some(Operator::Eq),
        TokenType::NotEqual => Some(Operator::Neq),
        TokenType::LessEqual => Some(Operator::Leq),
        TokenType::GreaterEqual => Some(Operator::Geq),
        TokenType::Less => Some(Operator::Lt),
        TokenType::Greater => Some(Operator::Gt),
        TokenType::Plus => Some(Operator::Add),
        TokenType::Minus => Some(Operator::Sub),
        TokenType::Star => Some(Operator::Mul),
        TokenType::Slash => Some(Operator::Div),
        TokenType::And => Some(Operator::And),
        TokenType::Or => Some(Operator::Or),
        _ => None,
    }
}

/// `name` or `qualifier.name`.
pub open spec fn p_qualified(ts: Seq<TokenV>, p: int) -> (Option<QIdV>, int) {
    if tag_at(ts, p) == Some(TokenType::Identifier) {
        if tag_at(ts, p + 1) == Some(TokenType::Dot) {
            if tag_at(ts, p + 2) == Some(TokenType::Identifier) {
                (Some(QIdV { qualifier: Some(ts[p].lexeme), name: ts[p + 2].lexeme }), p + 3)
            } else {
                (None, p + 2)
            }
        } else {
            (Some(QIdV { qualifier: None, name: ts[p].lexeme }), p + 1)
        }
    } else {
        (None, p)
    }
}

/// A value of an INSERT: a literal, a bare word (taken as text), or one in parentheses.
pub open spec fn p_primary(ts: Seq<TokenV>, p: int) -> (Option<LitV>, int)
    decreases ts.len() - p,
{
    if p < 0 || p >= ts.len() {
        (None, p)
    } else {
        match ts[p].tag {
            TokenType::LParen => {
                let (v, p1) = p_primary(ts, p + 1);
                match v {
                    Some(x) => {
                        let (ok, p2) = expect(ts, p1, TokenType::RParen);
                        if ok {
                            (Some(x), p2)
                        } else {
                            (None, p2)
                        }
                    },
                    None => (None, p1),
                }
            },
            TokenType::Number => (Some(LitV::Float64(ts[p].lexeme)), p + 1),
            TokenType::String => (Some(LitV::Utf8(ts[p].lexeme)), p + 1),
            TokenType::Identifier => (Some(LitV::Utf8(ts[p].lexeme)), p + 1),
            TokenType::True => (Some(LitV::Boolean(true)), p + 1),
            TokenType::False => (Some(LitV::Boolean(false)), p + 1),
            _ => (None, p),
        }
    }
}

pub open spec fn p_values_loop(ts: Seq<TokenV>, p: int, acc: Seq<LitV>) -> (Seq<LitV>, int)
    decreases ts.len() - p,
{
    let (v, p1) = p_primary(ts, p);
    match v {
        Some(x) => {
            let p2 = skip_if(ts, p1, TokenType::Comma);
            if p < p2 <= ts.len() {
                p_values_loop(ts, p2, acc.push(x))
            } else {
                (acc.push(x), p2)
            }
        },
        None => (acc, p1),
    }
}

/// The values of an INSERT, optionally in parentheses and separated by commas.
pub open spec fn p_values(ts: Seq<TokenV>, p: int) -> (Seq<LitV>, int) {
    let (vals, p1) = p_values_loop(ts, skip_if(ts, p, TokenType::LParen), seq![]);
    (vals, skip_if(ts, p1, TokenType::RParen))
}

pub open spec fn p_expr_primary(ts: Seq<TokenV>, p: int) -> (Option<ExprV>, int)
    decreases ts.len() - p, 0nat,
{
    if p < 0 || p >= ts.len() {
        (None, p)
    } else {
        match ts[p].tag {
            TokenType::LParen => {
                let (e, p1) = p_expr_prec(ts, p + 1, 0);
                match e {
                    Some(x) => {
                        let (ok, p2) = expect(ts, p1, TokenType::RParen);
                        if ok {
                            (Some(x), p2)
                        } else {
                            (None, p2)
                        }
                    },
                    None => (None, p1),
                }
            },
            TokenType::Number => (Some(ExprV::Literal(LitV::Float64(ts[p].lexeme))), p + 1),
            TokenType::String => (Some(ExprV::Literal(LitV::Utf8(ts[p].lexeme))), p + 1),
            TokenType::True => (Some(ExprV::Literal(LitV::Boolean(true))), p + 1),
            TokenType::False => (Some(ExprV::Literal(LitV::Boolean(false))), p + 1),
            TokenType::Identifier => if tag_at(ts, p + 1) == Some(TokenType::Dot) {
                let (ok, p2) = expect(ts, p + 2, TokenType::Identifier);
                if ok {
                    (
                        Some(
                            ExprV::Identifier(
                                QIdV { qualifier: Some(ts[p].lexeme), name: ts[p + 2].lexeme },
                            ),
                        ),
                        p2,
                    )
                } else {
                    (None, p2)
                }
            } else {
                (Some(ExprV::Identifier(QIdV { qualifier: None, name: ts[p].lexeme })), p + 1)
            },
            _ => (None, p),
        }
    }
}

/// An expression whose binary operators all bind at least as strongly as `min`
/// (precedence climbing; operators of equal strength group to the left).
pub open spec fn p_expr_prec(ts: Seq<TokenV>, p: int, min: int) -> (Option<ExprV>, int)
    decreases ts.len() - p, 1nat,
{
    let (l, p1) = p_expr_primary(ts, p);
    match l {
        None => (None, p1),
        Some(lhs) => if 0 <= p < p1 <= ts.len() {
            p_prec_loop(ts, lhs, p1, min)
        } else {
            (None, p1)
        },
    }
}

pub open spec fn p_prec_loop(ts: Seq<TokenV>, lhs: ExprV, p: int, min: int) -> (Option<ExprV>, int)
    decreases ts.len() - p, 1nat,
{
    let prec = match tag_at(ts, p) {
        Some(t) => precedence(t),
        None => -1,
    };
    if prec < min {
        (Some(lhs), p)
    } else if p < 0 || p >= ts.len() {
        (None, p)
    } else {
        match operator_of(ts[p].tag) {
            None => (None, p + 1),
            Some(op) => {
                let (r, p2) = p_expr_prec(ts, p + 1, prec + 1);
                match r {
                    None => (None, p2),
                    Some(rhs) => if p < p2 <= ts.len() {
                        p_prec_loop(ts, ExprV::BinaryOp(op, Box::new(lhs), Box::new(rhs)), p2, min)
                    } else {
                        (None, p2)
                    },
                }
            },
        }
    }
}

pub open spec fn p_expression(ts: Seq<TokenV>, p: int) -> (Option<ExprV>, int) {
    p_expr_prec(ts, p, 0)
}

pub ghost struct ClausesV {
    pub filter: Option<ExprV>,
    pub joins: Seq<JoinV>,
    pub limit: Option<usize>,
    pub offset: Option<usize>,
    pub order_by: Option<QIdV>,
}

pub open spec fn no_clauses() -> ClausesV {
    ClausesV { filter: None, joins: seq![], limit: None, offset: None, order_by: None }
}

pub open spec fn is_join_tag(t: TokenType) -> bool {
    join_kind_of(t) is Some
}

/// A number token holding a `usize`.
pub open spec fn p_count(ts: Seq<TokenV>, p: int) -> (Option<usize>, int) {
    let (ok, p1) = expect(ts, p, TokenType::Number);
    if ok {
        match spec_parse_usize(ts[p].lexeme) {
            Some(n) => (Some(n as usize), p1),
            None => (None, p1),
        }
    } else {
        (None, p1)
    }
}

/// The clauses after the table of a SELECT (joins allowed) or DELETE: WHERE, joins,
/// LIMIT n[, offset] and ORDER BY, in any order, each kind but joins at most once.
pub open spec fn p_clauses(ts: Seq<TokenV>, p: int, allow_join: bool, c: ClausesV) -> (
    Option<ClausesV>,
    int,
)
    decreases ts.len() - p,
{
    if p < 0 || p >= ts.len() {
        (Some(c), p)
    } else {
        let t = ts[p].tag;
        if t == TokenType::Where {
            if c.filter is Some {
                (None, p)
            } else {
                let (e, p1) = p_expression(ts, p + 1);
                match e {
                    None => (None, p1),
                    Some(x) => if p < p1 <= ts.len() {
                        p_clauses(ts, p1, allow_join, ClausesV { filter: Some(x), ..c })
                    } else {
                        (None, p1)
                    },
                }
            }
        } else if is_join_tag(t) {
            if !allow_join {
                (None, p)
            } else if tag_at(ts, p + 1) == Some(TokenType::Identifier) {
                let table = ts[p + 1].lexeme;
                let (ok, p2) = expect(ts, p + 2, TokenType::On);
                if !ok {
                    (None, p2)
                } else {
                    let (e, p3) = p_expression(ts, p2);
                    match e {
                        None => (None, p3),
                        Some(on) => if p < p3 <= ts.len() {
                            p_clauses(
                                ts,
                                p3,
                                allow_join,
                                ClausesV {
                                    joins: c.joins.push(
                                        JoinV { kind: join_kind_of(t)->0, table, on },
                                    ),
                                    ..c
                                },
                            )
                        } else {
                            (None, p3)
                        },
                    }
                }
            } else {
                (None, p + 1)
            }
        } else if t == TokenType::Limit {
            if c.limit is Some {
                (None, p)
            } else {
                let (l, p1) = p_count(ts, p + 1);
                match l {
                    None => (None, p1),
                    Some(lim) => if tag_at(ts, p1) == Some(TokenType::Comma) {
                        let (o, p2) = p_count(ts, p1 + 1);
                        match o {
                            None => (None, p2),
                            Some(off) => if p < p2 <= ts.len() {
                                p_clauses(
                                    ts,
                                    p2,
                                    allow_join,
                                    ClausesV { limit: Some(lim), offset: Some(off), ..c },
                                )
                            } else {
                                (None, p2)
                            },
                        }
                    } else if p < p1 <= ts.len() {
                        p_clauses(ts, p1, allow_join, ClausesV { limit: Some(lim), ..c })
                    } else {
                        (None, p1)
                    },
                }
            }
        } else if t == TokenType::OrderBy {
            if c.order_by is Some {
                (None, p)
            } else {
                let (q, p1) = p_qualified(ts, p + 1);
                match q {
                    None => (None, p1),
                    Some(x) => if p < p1 <= ts.len() {
                        p_clauses(ts, p1, allow_join, ClausesV { order_by: Some(x), ..c })
                    } else {
                        (None, p1)
                    },
                }
            }
        } else {
            (Some(c), p)
        }
    }
}

pub open spec fn p_columns_loop(ts: Seq<TokenV>, p: int, acc: Seq<QIdV>) -> (Seq<QIdV>, int)
    decreases ts.len() - p,
{
    let (q, p1) = p_qualified(ts, p);
    match q {
        Some(x) => {
            let p2 = skip_if(ts, p1, TokenType::Comma);
            if p < p2 <= ts.len() {
                p_columns_loop(ts, p2, acc.push(x))
            } else {
                (acc.push(x), p2)
            }
        },
        None => (acc, p1),
    }
}

pub open spec fn star_column() -> QIdV {
    QIdV { qualifier: None, name: seq!['*'] }
}

/// The statement that the tokens `ts` start with, if they start with one.
pub open spec fn p_statement(ts: Seq<TokenV>) -> Option<StmtV> {
    if ts.len() == 0 {
        None
    } else if ts[0].tag == TokenType::Select {
        let p1 = skip_if(ts, 1, TokenType::LParen);
        let (cols0, p2) = p_columns_loop(ts, p1, seq![]);
        let (cols, p3) = if cols0.len() == 0 && tag_at(ts, p2) == Some(TokenType::Star) {
            (seq![star_column()], p2 + 1)
        } else {
            (cols0, p2)
        };
        let p4 = skip_if(ts, p3, TokenType::RParen);
        let (ok, p5) = expect(ts, p4, TokenType::From);
        if !ok || tag_at(ts, p5) != Some(TokenType::Identifier) {
            None
        } else {
            match p_clauses(ts, p5 + 1, true, no_clauses()).0 {
                None => None,
                Some(c) => Some(
                    StmtV::Select {
                        table: ts[p5].lexeme,
                        columns: cols,
                        joins: c.joins,
                        filter: c.filter,
                        limit: c.limit,
                        offset: c.offset,
                        order_by: c.order_by,
                    },
                ),
            }
        }
    } else if ts[0].tag == TokenType::Delete {
        let p1 = skip_if(ts, 1, TokenType::LParen);
        let (ok, p2) = expect(ts, p1, TokenType::From);
        if !ok || tag_at(ts, p2) != Some(TokenType::Identifier) {
            None
        } else {
            match p_clauses(ts, p2 + 1, false, no_clauses()).0 {
                None => None,
                Some(c) => Some(StmtV::Delete { table: ts[p2].lexeme, filter: c.filter }),
            }
        }
    } else if ts[0].tag == TokenType::Insert {
        let (vals, p1) = p_values(ts, 1);
        let (ok, p2) = expect(ts, p1, TokenType::Into);
        if !ok {
            None
        } else {
            match p_primary(ts, p2).0 {
                Some(LitV::Utf8(name)) => Some(StmtV::Insert { table: name, values: vals }),
                _ => None,
            }
        }
    } else {
        None
    }
}


pub proof fn lemma_qualified_bounds(ts: Seq<TokenV>, p: int)
    requires
        0 <= p <= ts.len(),
    ensures
        p <= p_qualified(ts, p).1 <= ts.len(),
        p_qualified(ts, p).0 is Some ==> p < p_qualified(ts, p).1,
{
}

pub proof fn lemma_primary_bounds(ts: Seq<TokenV>, p: int)
    requires
        0 <= p <= ts.len(),
    ensures
        p <= p_primary(ts, p).1 <= ts.len(),
        p_primary(ts, p).0 is Some ==> p < p_primary(ts, p).1,
    decreases ts.len() - p,
{
    if p < ts.len() && ts[p].tag == TokenType::LParen {
        lemma_primary_bounds(ts, p + 1);
    }
}

pub proof fn lemma_expr_primary_bounds(ts: Seq<TokenV>, p: int)
    requires
        0 <= p <= ts.len(),
    ensures
        p <= p_expr_primary(ts, p).1 <= ts.len(),
        p_expr_primary(ts, p).0 is Some ==> p < p_expr_primary(ts, p).1,
    decreases ts.len() - p, 0nat,
{
    if p < ts.len() && ts[p].tag == TokenType::LParen {
        lemma_expr_prec_bounds(ts, p + 1, 0);
    }
}

pub proof fn lemma_expr_prec_bounds(ts: Seq<TokenV>, p: int, min: int)
    requires
        0 <= p <= ts.len(),
    ensures
        p <= p_expr_prec(ts, p, min).1 <= ts.len(),
        p_expr_prec(ts, p, min).0 is Some ==> p < p_expr_prec(ts, p, min).1,
    decreases ts.len() - p, 1nat,
{
    lemma_expr_primary_bounds(ts, p);
    let (l, p1) = p_expr_primary(ts, p);
    if l is Some {
        lemma_prec_loop_bounds(ts, l->0, p1, min);
    }
}

pub proof fn lemma_prec_loop_bounds(ts: Seq<TokenV>, lhs: ExprV, p: int, min: int)
    requires
        0 <= p <= ts.len(),
    ensures
        p <= p_prec_loop(ts, lhs, p, min).1 <= ts.len(),
    decreases ts.len() - p, 1nat,
{
    let prec = match tag_at(ts, p) {
        Some(t) => precedence(t),
        None => -1,
    };
    if prec >= min && p < ts.len() {
        if let Some(op) = operator_of(ts[p].tag) {
            lemma_expr_prec_bounds(ts, p + 1, prec + 1);
            let (r, p2) = p_expr_prec(ts, p + 1, prec + 1);
            if r is Some && p < p2 <= ts.len() {
                lemma_prec_loop_bounds(
                    ts,
                    ExprV::BinaryOp(op, Box::new(lhs), Box::new(r->0)),
                    p2,
                    min,
                );
            }
        }
    }
}

/// The expression `name op number`, with `op` the operator `op`.
pub open spec fn name_op_number(ts: Seq<TokenV>, p: int, op: Operator) -> ExprV {
    ExprV::BinaryOp(
        op,
        Box::new(ExprV::Identifier(QIdV { qualifier: None, name: ts[p].lexeme })),
        Box::new(ExprV::Literal(LitV::Float64(ts[p + 2].lexeme))),
    )
}

/// A name, an operator token and a number, then the end, parse as that
/// operator applied to the name and the number: `>=` is `Geq`, `<=` is `Leq`,
/// `>` is `Gt`, `<` is `Lt`, `==` is `Eq`, `!=` is `Neq`, `&&` is `And`,
/// `||` is `Or`, `+` is `Add`, `-` is `Sub`, `*` is `Mul` and `/` is `Div`.
pub proof fn lemma_binary_operators(ts: Seq<TokenV>, p: int)
    requires
        0 <= p,
        p + 3 < ts.len(),
        ts[p].tag == TokenType::Identifier,
        ts[p + 2].tag == TokenType::Number,
        ts[p + 3].tag == TokenType::Eof,
    ensures
        ts[p + 1].tag == TokenType::GreaterEqual ==> p_expression(ts, p) == (Some(name_op_number(ts, p, Operator::Geq)), p + 3),
        ts[p + 1].tag == TokenType::LessEqual ==> p_expression(ts, p) == (Some(name_op_number(ts, p, Operator::Leq)), p + 3),
        ts[p + 1].tag == TokenType::Greater ==> p_expression(ts, p) == (Some(name_op_number(ts, p, Operator::Gt)), p + 3),
        ts[p + 1].tag == TokenType::Less ==> p_expression(ts, p) == (Some(name_op_number(ts, p, Operator::Lt)), p + 3),
        ts[p + 1].tag == TokenType::Equal ==> p_expression(ts, p) == (Some(name_op_number(ts, p, Operator::Eq)), p + 3),
        ts[p + 1].tag == TokenType::NotEqual ==> p_expression(ts, p) == (Some(name_op_number(ts, p, Operator::Neq)), p + 3),
        ts[p + 1].tag == TokenType::And ==> p_expression(ts, p) == (Some(name_op_number(ts, p, Operator::And)), p + 3),
        ts[p + 1].tag == TokenType::Or ==> p_expression(ts, p) == (Some(name_op_number(ts, p, Operator::Or)), p + 3),
        ts[p + 1].tag == TokenType::Plus ==> p_expression(ts, p) == (Some(name_op_number(ts, p, Operator::Add)), p + 3),
        ts[p + 1].tag == TokenType::Minus ==> p_expression(ts, p) == (Some(name_op_number(ts, p, Operator::Sub)), p + 3),
        ts[p + 1].tag == TokenType::Star ==> p_expression(ts, p) == (Some(name_op_number(ts, p, Operator::Mul)), p + 3),
        ts[p + 1].tag == TokenType::Slash ==> p_expression(ts, p) == (Some(name_op_number(ts, p, Operator::Div)), p + 3),
{
    let lhs = ExprV::Identifier(QIdV { qualifier: None, name: ts[p].lexeme });
    let rhs = ExprV::Literal(LitV::Float64(ts[p + 2].lexeme));
    let t = ts[p + 1].tag;
    let prec = precedence(t);
    if prec >= 0 {
        assert(tag_at(ts, p + 1) != Some(TokenType::Dot));
        assert(p_expr_primary(ts, p) == (Some(lhs), p + 1));
        assert(p_expr_primary(ts, p + 2) == (Some(rhs), p + 3));
        assert(p_prec_loop(ts, rhs, p + 3, prec + 1) == (Some(rhs), p + 3));
        assert(p_expr_prec(ts, p + 2, prec + 1) == (Some(rhs), p + 3));
        if operator_of(t) is Some {
            let e = ExprV::BinaryOp(operator_of(t)->0, Box::new(lhs), Box::new(rhs));
            assert(p_prec_loop(ts, e, p + 3, 0) == (Some(e), p + 3));
            assert(p_prec_loop(ts, lhs, p + 1, 0) == (Some(e), p + 3));
        }
    }
}

/// How strongly an operator token binds, weakest first: `||`, then `&&`, then
/// `==` and `!=`, then `<`, `>`, `<=` and `>=`, then `+` and `-`, then `*` and `/`;
/// 0 for a token that is no binary operator.
pub open spec fn binding_level(t: TokenType) -> int {
    if t == TokenType::Or {
        1
    } else if t == TokenType::And {
        2
    } else if t == TokenType::Equal || t == TokenType::NotEqual {
        3
    } else if t == TokenType::Less || t == TokenType::Greater || t == TokenType::LessEqual || t
        == TokenType::GreaterEqual {
        4
    } else if t == TokenType::Plus || t == TokenType::Minus {
        5
    } else if t == TokenType::Star || t == TokenType::Slash {
        6
    } else {
        0
    }
}

/// `a op1 b op2 c` (a name and two numbers) parses with the operator that binds
/// more strongly grouped first, and with two operators that bind alike grouped
/// from the left: `a op1 (b op2 c)` exactly when `op2` binds more strongly.
pub proof fn lemma_operator_grouping(ts: Seq<TokenV>, p: int)
    requires
        0 <= p,
        p + 5 < ts.len(),
        ts[p].tag == TokenType::Identifier,
        binding_level(ts[p + 1].tag) > 0,
        ts[p + 2].tag == TokenType::Number,
        binding_level(ts[p + 3].tag) > 0,
        ts[p + 4].tag == TokenType::Number,
        ts[p + 5].tag == TokenType::Eof,
    ensures
        operator_of(ts[p + 1].tag) is Some,
        operator_of(ts[p + 3].tag) is Some,
        ({
            let a = ExprV::Identifier(QIdV { qualifier: None, name: ts[p].lexeme });
            let b = ExprV::Literal(LitV::Float64(ts[p + 2].lexeme));
            let c = ExprV::Literal(LitV::Float64(ts[p + 4].lexeme));
            let o1 = operator_of(ts[p + 1].tag)->0;
            let o2 = operator_of(ts[p + 3].tag)->0;
            p_expression(ts, p) == (
                Some(
                    if binding_level(ts[p + 3].tag) > binding_level(ts[p + 1].tag) {
                        ExprV::BinaryOp(o1, Box::new(a), Box::new(ExprV::BinaryOp(o2, Box::new(b), Box::new(c))))
                    } else {
                        ExprV::BinaryOp(o2, Box::new(ExprV::BinaryOp(o1, Box::new(a), Box::new(b))), Box::new(c))
                    },
                ),
                p + 5,
            )
        }),
{
    let a = ExprV::Identifier(QIdV { qualifier: None, name: ts[p].lexeme });
    let b = ExprV::Literal(LitV::Float64(ts[p + 2].lexeme));
    let c = ExprV::Literal(LitV::Float64(ts[p + 4].lexeme));
    let t1 = ts[p + 1].tag;
    let t2 = ts[p + 3].tag;
    assert(precedence(t1) == binding_level(t1));
    assert(precedence(t2) == binding_level(t2));
    let o1 = operator_of(t1)->0;
    let o2 = operator_of(t2)->0;
    let p1 = precedence(t1);
    let p2 = precedence(t2);
    assert(tag_at(ts, p + 1) != Some(TokenType::Dot));
    assert(p_expr_primary(ts, p) == (Some(a), p + 1));
    assert(p_expr_primary(ts, p + 2) == (Some(b), p + 3));
    assert(p_expr_primary(ts, p + 4) == (Some(c), p + 5));
    assert(p_prec_loop(ts, c, p + 5, p2 + 1) == (Some(c), p + 5));
    assert(p_expr_prec(ts, p + 4, p2 + 1) == (Some(c), p + 5));
    if p2 > p1 {
        let bc = ExprV::BinaryOp(o2, Box::new(b), Box::new(c));
        assert(p_prec_loop(ts, bc, p + 5, p1 + 1) == (Some(bc), p + 5));
        assert(p_prec_loop(ts, b, p + 3, p1 + 1) == (Some(bc), p + 5));
        assert(p_expr_prec(ts, p + 2, p1 + 1) == (Some(bc), p + 5));
        let e = ExprV::BinaryOp(o1, Box::new(a), Box::new(bc));
        assert(p_prec_loop(ts, e, p + 5, 0) == (Some(e), p + 5));
        assert(p_prec_loop(ts, a, p + 1, 0) == (Some(e), p + 5));
    } else {
        assert(p_prec_loop(ts, b, p + 3, p1 + 1) == (Some(b), p + 3));
        assert(p_expr_prec(ts, p + 2, p1 + 1) == (Some(b), p + 3));
        let ab = ExprV::BinaryOp(o1, Box::new(a), Box::new(b));
        let e = ExprV::BinaryOp(o2, Box::new(ab), Box::new(c));
        assert(p_prec_loop(ts, e, p + 5, 0) == (Some(e), p + 5));
        assert(p_prec_loop(ts, ab, p + 3, 0) == (Some(e), p + 5));
        assert(p_prec_loop(ts, a, p + 1, 0) == (Some(e), p + 5));
    }
}

/// A join clause `<join> table ON name == number`, then the end, gives that one
/// join, of the kind its keyword names: `JOIN` and `INNER JOIN` are inner,
/// `LEFT [OUTER] JOIN` is a left outer, `RIGHT [OUTER] JOIN` a right outer,
/// `FULL [OUTER] JOIN` a full outer and `CROSS JOIN` a cross join.
pub proof fn lemma_join_kinds(ts: Seq<TokenV>, p: int)
    requires
        0 <= p,
        p + 6 < ts.len(),
        is_join_tag(ts[p].tag),
        ts[p + 1].tag == TokenType::Identifier,
        ts[p + 2].tag == TokenType::On,
        ts[p + 3].tag == TokenType::Identifier,
        ts[p + 4].tag == TokenType::Equal,
        ts[p + 5].tag == TokenType::Number,
        ts[p + 6].tag == TokenType::Eof,
    ensures
        ({
            let kind = if ts[p].tag == TokenType::Join || ts[p].tag == TokenType::InnerJoin {
                JoinKind::Inner
            } else if ts[p].tag == TokenType::LeftOuterJoin {
                JoinKind::LeftOuter
            } else if ts[p].tag == TokenType::RightOuterJoin {
                JoinKind::RightOuter
            } else if ts[p].tag == TokenType::FullOuterJoin {
                JoinKind::FullOuter
            } else {
                JoinKind::Cross
            };
            let j = JoinV { kind, table: ts[p + 1].lexeme, on: name_op_number(ts, p + 3, Operator::Eq) };
            p_clauses(ts, p, true, no_clauses()) == (Some(ClausesV { joins: seq![j], ..no_clauses() }), p + 6)
        }),
        p_clauses(ts, p, false, no_clauses()).0 is None,
{
    lemma_binary_operators(ts, p + 3);
    let c = no_clauses();
    let t = ts[p].tag;
    let j = JoinV { kind: join_kind_of(t)->0, table: ts[p + 1].lexeme, on: name_op_number(ts, p + 3, Operator::Eq) };
    let c2 = ClausesV { joins: c.joins.push(j), ..c };
    assert(p_clauses(ts, p + 6, true, c2) == (Some(c2), p + 6));
    assert(c.joins.push(j) =~= seq![j]);
}

/// The value an INSERT reads from one token: a number as a number, a string
/// literal or a bare word as text, `TRUE` and `FALSE` as truth values; in an
/// expression the same literals read alike, a bare word as a column name.
pub proof fn lemma_value_tokens(ts: Seq<TokenV>, p: int)
    requires
        0 <= p < ts.len(),
    ensures
        ts[p].tag == TokenType::Number ==> p_primary(ts, p) == (Some(LitV::Float64(ts[p].lexeme)), p + 1)
            && p_expr_primary(ts, p) == (Some(ExprV::Literal(LitV::Float64(ts[p].lexeme))), p + 1),
        ts[p].tag == TokenType::String ==> p_primary(ts, p) == (Some(LitV::Utf8(ts[p].lexeme)), p + 1)
            && p_expr_primary(ts, p) == (Some(ExprV::Literal(LitV::Utf8(ts[p].lexeme))), p + 1),
        ts[p].tag == TokenType::Identifier ==> p_primary(ts, p) == (Some(LitV::Utf8(ts[p].lexeme)), p + 1),
        ts[p].tag == TokenType::True ==> p_primary(ts, p) == (Some(LitV::Boolean(true)), p + 1) && p_expr_primary(
            ts,
            p,
        ) == (Some(ExprV::Literal(LitV::Boolean(true))), p + 1),
        ts[p].tag == TokenType::False ==> p_primary(ts, p) == (Some(LitV::Boolean(false)), p + 1)
            && p_expr_primary(ts, p) == (Some(ExprV::Literal(LitV::Boolean(false))), p + 1),
        ts[p].tag == TokenType::Identifier && tag_at(ts, p + 1) != Some(TokenType::Dot) ==> p_expr_primary(ts, p)
            == (Some(ExprV::Identifier(QIdV { qualifier: None, name: ts[p].lexeme })), p + 1),
{
}

/// `LIMIT n` sets the limit to `n`; `LIMIT n, m` sets the limit to `n` and
/// the offset to `m` (numbers in decimal), and parsing stops after them.
pub proof fn lemma_limit_offset(ts: Seq<TokenV>, p: int)
    requires
        0 <= p,
        p + 4 < ts.len(),
        ts[p].tag == TokenType::Limit,
        ts[p + 1].tag == TokenType::Number,
        spec_parse_usize(ts[p + 1].lexeme) is Some,
        ts[p + 4].tag == TokenType::Eof,
    ensures
        ts[p + 2].tag == TokenType::Eof ==> p_clauses(ts, p, true, no_clauses()) == (
            Some(
                ClausesV {
                    limit: Some(spec_parse_usize(ts[p + 1].lexeme)->0 as usize),
                    ..no_clauses()
                },
            ),
            p + 2,
        ),
        ts[p + 2].tag == TokenType::Comma && ts[p + 3].tag == TokenType::Number && spec_parse_usize(
            ts[p + 3].lexeme,
        ) is Some ==> p_clauses(ts, p, true, no_clauses()) == (
            Some(
                ClausesV {
                    limit: Some(spec_parse_usize(ts[p + 1].lexeme)->0 as usize),
                    offset: Some(spec_parse_usize(ts[p + 3].lexeme)->0 as usize),
                    ..no_clauses()
                },
            ),
            p + 4,
        ),
{
    let c = no_clauses();
    let n = spec_parse_usize(ts[p + 1].lexeme)->0 as usize;
    assert(p_count(ts, p + 1) == (Some(n), p + 2));
    if ts[p + 2].tag == TokenType::Eof {
        let c1 = ClausesV { limit: Some(n), ..c };
        assert(p_clauses(ts, p + 2, true, c1) == (Some(c1), p + 2));
    }
    if ts[p + 2].tag == TokenType::Comma && ts[p + 3].tag == TokenType::Number && spec_parse_usize(
        ts[p + 3].lexeme,
    ) is Some {
        let m = spec_parse_usize(ts[p + 3].lexeme)->0 as usize;
        assert(p_count(ts, p + 3) == (Some(m), p + 4));
        let c2 = ClausesV { limit: Some(n), offset: Some(m), ..c };
        assert(p_clauses(ts, p + 4, true, c2) == (Some(c2), p + 4));
    }
}

/// The name of a token kind, as it is written in the grammar's type.
pub open spec fn tag_text(tag: TokenType) -> Seq<char> {
    match tag {
        TokenType::Eof => "Eof"@,
        TokenType::Identifier => "Identifier"@,
        TokenType::Number => "Number"@,
        TokenType::String => "String"@,
        TokenType::Insert => "Insert"@,
        TokenType::Select => "Select"@,
        TokenType::Delete => "Delete"@,
        TokenType::Into => "Into"@,
        TokenType::From => "From"@,
        TokenType::Where => "Where"@,
        TokenType::On => "On"@,
        TokenType::Limit => "Limit"@,
        TokenType::OrderBy => "OrderBy"@,
        TokenType::True => "True"@,
        TokenType::False => "False"@,
        TokenType::Join => "Join"@,
        TokenType::InnerJoin => "InnerJoin"@,
        TokenType::LeftOuterJoin => "LeftOuterJoin"@,
        TokenType::RightOuterJoin => "RightOuterJoin"@,
        TokenType::FullOuterJoin => "FullOuterJoin"@,
        TokenType::CrossJoin => "CrossJoin"@,
        TokenType::LParen => "LParen"@,
        TokenType::RParen => "RParen"@,
        TokenType::Comma => "Comma"@,
        TokenType::Dot => "Dot"@,
        TokenType::Star => "Star"@,
        TokenType::Plus => "Plus"@,
        TokenType::Minus => "Minus"@,
        TokenType::Slash => "Slash"@,
        TokenType::Less => "Less"@,
        TokenType::Greater => "Greater"@,
        TokenType::Equal => "Equal"@,
        TokenType::NotEqual => "NotEqual"@,
        TokenType::LessEqual => "LessEqual"@,
        TokenType::GreaterEqual => "GreaterEqual"@,
        TokenType::And => "And"@,
        TokenType::Or => "Or"@,
    }
}

// ---------------------------------------------------------------------------
// The messages of the parser's errors.

/// The message of a failed `consume_assert` with text `prefix` at position `p`:
/// where the offending token stands and what kind it is, or that the input ended.
pub open spec fn assert_message(ts: Seq<TokenV>, p: int, prefix: Seq<char>) -> Seq<char> {
    if 0 <= p < ts.len() {
        prefix + " at "@ + nat_digits(ts[p].row as nat) + ":"@ + nat_digits(ts[p].column as nat)
            + " (got "@ + tag_text(ts[p].tag) + ")"@
    } else {
        prefix + " (unexpected end of input)"@
    }
}

/// The message with which a value of an INSERT fails to parse at `p`
/// (meaningful where `p_primary(ts, p)` fails).
pub open spec fn primary_error(ts: Seq<TokenV>, p: int) -> Seq<char>
    decreases ts.len() - p,
{
    if p < 0 || p >= ts.len() {
        "Unexpected end of input in expression"@
    } else if ts[p].tag == TokenType::LParen {
        if p_primary(ts, p + 1).0 is Some {
            assert_message(ts, p_primary(ts, p + 1).1, "Expected ')' after value"@)
        } else {
            primary_error(ts, p + 1)
        }
    } else {
        "Unexpected token in expression: "@ + tag_text(ts[p].tag)
    }
}

/// The message with which a count (a LIMIT or an offset) fails to parse at `p`.
pub open spec fn count_error(ts: Seq<TokenV>, p: int, expected: Seq<char>, invalid: Seq<char>) -> Seq<
    char,
> {
    if expect(ts, p, TokenType::Number).0 {
        invalid
    } else {
        assert_message(ts, p, expected)
    }
}

/// The message with which the clauses from `p` on fail, where the failure is the
/// clauses' own; `None` where they succeed or an expression in them fails.
pub open spec fn clauses_error(ts: Seq<TokenV>, p: int, allow_join: bool, c: ClausesV) -> Option<
    Seq<char>,
>
    decreases ts.len() - p,
{
    if p < 0 || p >= ts.len() {
        None
    } else {
        let t = ts[p].tag;
        if t == TokenType::Where {
            if c.filter is Some {
                Some("Duplicate WHERE clause"@)
            } else {
                let (e, p1) = p_expression(ts, p + 1);
                match e {
                    None => None,
                    Some(x) => if p < p1 <= ts.len() {
                        clauses_error(ts, p1, allow_join, ClausesV { filter: Some(x), ..c })
                    } else {
                        None
                    },
                }
            }
        } else if is_join_tag(t) {
            if !allow_join {
                Some("JOIN not allowed in this statement"@)
            } else if tag_at(ts, p + 1) == Some(TokenType::Identifier) {
                let table = ts[p + 1].lexeme;
                let (ok, p2) = expect(ts, p + 2, TokenType::On);
                if !ok {
                    Some(assert_message(ts, p + 2, "Expected ON after JOIN"@))
                } else {
                    let (e, p3) = p_expression(ts, p2);
                    match e {
                        None => None,
                        Some(on) => if p < p3 <= ts.len() {
                            clauses_error(
                                ts,
                                p3,
                                allow_join,
                                ClausesV {
                                    joins: c.joins.push(
                                        JoinV { kind: join_kind_of(t)->0, table, on },
                                    ),
                                    ..c
                                },
                            )
                        } else {
                            None
                        },
                    }
                }
            } else {
                Some("Expected table name after JOIN"@)
            }
        } else if t == TokenType::Limit {
            if c.limit is Some {
                Some("Duplicate LIMIT clause"@)
            } else {
                let (l, p1) = p_count(ts, p + 1);
                match l {
                    None => Some(
                        count_error(
                            ts,
                            p + 1,
                            "Expected number after LIMIT"@,
                            "LIMIT should be a valid integer"@,
                        ),
                    ),
                    Some(lim) => if tag_at(ts, p1) == Some(TokenType::Comma) {
                        let (o, p2) = p_count(ts, p1 + 1);
                        match o {
                            None => Some(
                                count_error(
                                    ts,
                                    p1 + 1,
                                    "Expected offset number"@,
                                    "OFFSET should be a valid integer"@,
                                ),
                            ),
                            Some(off) => if p < p2 <= ts.len() {
                                clauses_error(
                                    ts,
                                    p2,
                                    allow_join,
                                    ClausesV { limit: Some(lim), offset: Some(off), ..c },
                                )
                            } else {
                                None
                            },
                        }
                    } else if p < p1 <= ts.len() {
                        clauses_error(ts, p1, allow_join, ClausesV { limit: Some(lim), ..c })
                    } else {
                        None
                    },
                }
            }
        } else if t == TokenType::OrderBy {
            if c.order_by is Some {
                Some("Duplicate ORDER BY clause"@)
            } else {
                let (q, p1) = p_qualified(ts, p + 1);
                match q {
                    None => Some("Expected column after ORDER BY"@),
                    Some(x) => if p < p1 <= ts.len() {
                        clauses_error(ts, p1, allow_join, ClausesV { order_by: Some(x), ..c })
                    } else {
                        None
                    },
                }
            }
        } else {
            None
        }
    }
}

/// The message with which parsing the statement of `ts` fails, where the failure
/// is not one of an expression inside it; `None` where it succeeds or an
/// expression in it fails.
pub open spec fn statement_error(ts: Seq<TokenV>) -> Option<Seq<char>> {
    if ts.len() == 0 {
        Some("Unexpected end of input"@)
    } else if ts[0].tag == TokenType::Select {
        let p1 = skip_if(ts, 1, TokenType::LParen);
        let (cols0, p2) = p_columns_loop(ts, p1, seq![]);
        let p3 = if cols0.len() == 0 && tag_at(ts, p2) == Some(TokenType::Star) {
            p2 + 1
        } else {
            p2
        };
        let p4 = skip_if(ts, p3, TokenType::RParen);
        let (ok, p5) = expect(ts, p4, TokenType::From);
        if !ok {
            Some(assert_message(ts, p4, "Expected FROM after SELECT"@))
        } else if tag_at(ts, p5) != Some(TokenType::Identifier) {
            Some("Expected table name after FROM"@)
        } else {
            clauses_error(ts, p5 + 1, true, no_clauses())
        }
    } else if ts[0].tag == TokenType::Delete {
        let p1 = skip_if(ts, 1, TokenType::LParen);
        let (ok, p2) = expect(ts, p1, TokenType::From);
        if !ok {
            Some(assert_message(ts, p1, "Expected FROM after DELETE"@))
        } else if tag_at(ts, p2) != Some(TokenType::Identifier) {
            Some("Expected table name after FROM"@)
        } else {
            clauses_error(ts, p2 + 1, false, no_clauses())
        }
    } else if ts[0].tag == TokenType::Insert {
        let (vals, p1) = p_values(ts, 1);
        let (ok, p2) = expect(ts, p1, TokenType::Into);
        if !ok {
            Some(assert_message(ts, p1, "Expected 'INTO' after 'VALUES' during 'INSERT' statement"@))
        } else {
            match p_primary(ts, p2).0 {
                Some(LitV::Utf8(_)) => None,
                Some(_) => Some("Failed to parse 'TABLE' name in 'INSERT' statement"@),
                None => Some(primary_error(ts, p2)),
            }
        }
    } else {
        Some("Unexpected token: "@ + tag_text(ts[0].tag))
    }
}


/// The name of a token kind, for error messages.
fn debug_tag(tag: TokenType) -> (s: String)
    ensures
        s@ == tag_text(tag),
{
    match tag {
        TokenType::Eof => "Eof".to_string(),
        TokenType::Identifier => "Identifier".to_string(),
        TokenType::Number => "Number".to_string(),
        TokenType::String => "String".to_string(),
        TokenType::Insert => "Insert".to_string(),
        TokenType::Select => "Select".to_string(),
        TokenType::Delete => "Delete".to_string(),
        TokenType::Into => "Into".to_string(),
        TokenType::From => "From".to_string(),
        TokenType::Where => "Where".to_string(),
        TokenType::On => "On".to_string(),
        TokenType::Limit => "Limit".to_string(),
        TokenType::OrderBy => "OrderBy".to_string(),
        TokenType::True => "True".to_string(),
        TokenType::False => "False".to_string(),
        TokenType::Join => "Join".to_string(),
        TokenType::InnerJoin => "InnerJoin".to_string(),
        TokenType::LeftOuterJoin => "LeftOuterJoin".to_string(),
        TokenType::RightOuterJoin => "RightOuterJoin".to_string(),
        TokenType::FullOuterJoin => "FullOuterJoin".to_string(),
        TokenType::CrossJoin => "CrossJoin".to_string(),
        TokenType::LParen => "LParen".to_string(),
        TokenType::RParen => "RParen".to_string(),
        TokenType::Comma => "Comma".to_string(),
        TokenType::Dot => "Dot".to_string(),
        TokenType::Star => "Star".to_string(),
        TokenType::Plus => "Plus".to_string(),
        TokenType::Minus => "Minus".to_string(),
        TokenType::Slash => "Slash".to_string(),
        TokenType::Less => "Less".to_string(),
        TokenType::Greater => "Greater".to_string(),
        TokenType::Equal => "Equal".to_string(),
        TokenType::NotEqual => "NotEqual".to_string(),
        TokenType::LessEqual => "LessEqual".to_string(),
        TokenType::GreaterEqual => "GreaterEqual".to_string(),
        TokenType::And => "And".to_string(),
        TokenType::Or => "Or".to_string(),
    }
}

fn parse_error(message: &str) -> (e: Error)
    ensures
        e@ == ErrorV::Parse(message@),
{
    Error::Parse(String::from_str(message))
}

/// The clauses that follow the table of a statement.
#[derive(Debug)]
pub struct Clauses {
    pub filter: Option<Box<Expression>>,
    pub joins: Vec<Join>,
    pub limit: Option<usize>,
    pub offset: Option<usize>,
    pub order_by: Option<QualifiedIdentifier>,
}

impl View for Clauses {
    type V = ClausesV;

    open spec fn view(&self) -> ClausesV {
        ClausesV {
            filter: opt_expr_view(self.filter),
            joins: self.joins@.map_values(|j: Join| j@),
            limit: self.limit,
            offset: self.offset,
            order_by: opt_qid_view(self.order_by),
        }
    }
}

/// The parser context that maintains state during parsing.
pub struct ParserContext<'a> {
    pub tokens: &'a Vec<Token>,
    pub position: usize,
}

impl<'a> ParserContext<'a> {
    pub closed spec fn ts(&self) -> Seq<TokenV> {
        token_views(self.tokens@)
    }

    pub closed spec fn pos(&self) -> int {
        self.position as int
    }

    pub closed spec fn wf(&self) -> bool {
        self.position <= self.tokens@.len()
    }

    fn peek(&self) -> (r: Option<&Token>)
        requires
            self.wf(),
        ensures
            match r {
                Some(t) => self.position < self.tokens@.len() && *t == self.tokens@[self.position as int],
                None => self.position >= self.tokens@.len(),
            },
    {
        self.peek_offset(0)
    }

    fn peek_offset(&self, offset: usize) -> (r: Option<&Token>)
        requires
            self.wf(),
        ensures
            match r {
                Some(t) => self.position + offset < self.tokens@.len() && *t == self.tokens@[self.position
                    + offset],
                None => self.position + offset >= self.tokens@.len(),
            },
    {
        if offset < self.tokens.len() - self.position {
            Some(&self.tokens[self.position + offset])
        } else {
            None
        }
    }

    fn consume(&mut self) -> (r: Option<Token>)
        requires
            old(self).wf(),
        ensures
            final(self).wf(),
            final(self).tokens == old(self).tokens,
            match r {
                Some(t) => old(self).position < old(self).tokens@.len() && t@ == old(self).ts()[old(
                    self,
                ).position as int] && final(self).position == old(self).position + 1,
                None => old(self).position >= old(self).tokens@.len() && final(self).position
                    == old(self).position,
            },
    {
        if self.position < self.tokens.len() {
            let token = copy_token(&self.tokens[self.position]);
            self.position = self.position + 1;
            Some(token)
        } else {
            None
        }
    }

    fn consume_optional(&mut self, expected_type: TokenType) -> (r: Option<Token>)
        requires
            old(self).wf(),
        ensures
            final(self).wf(),
            final(self).tokens == old(self).tokens,
            final(self).pos() == skip_if(old(self).ts(), old(self).pos(), expected_type),
            r is Some <==> tag_at(old(self).ts(), old(self).pos()) == Some(expected_type),
    {
        match self.peek() {
            Some(token) => {
                if token.tag == expected_type {
                    self.consume()
                } else {
                    None
                }
            },
            None => None,
        }
    }

    fn consume_assert(&mut self, expected_type: TokenType, message: String) -> (r: Result<
        Token,
        Error,
    >)
        requires
            old(self).wf(),
        ensures
            final(self).wf(),
            final(self).tokens == old(self).tokens,
            final(self).pos() == expect(old(self).ts(), old(self).pos(), expected_type).1,
            match r {
                Ok(t) => expect(old(self).ts(), old(self).pos(), expected_type).0 && t@ == old(
                    self,
                ).ts()[old(self).pos()],
                Err(e) => !expect(old(self).ts(), old(self).pos(), expected_type).0 && e@
                    == ErrorV::Parse(assert_message(old(self).ts(), old(self).pos(), message@)),
            },
    {
        match self.consume() {
            Some(tok) => {
                if tok.tag == expected_type {
                    Ok(tok)
                } else {
                    let mut m = message;
                    m.append(" at ");
                    m.append(usize_text(tok.row).as_str());
                    m.append(":");
                    m.append(usize_text(tok.column).as_str());
                    m.append(" (got ");
                    m.append(debug_tag(tok.tag).as_str());
                    m.append(")");
                    Err(Error::Parse(m))
                }
            },
            None => {
                let mut m = message;
                m.append(" (unexpected end of input)");
                Err(Error::Parse(m))
            },
        }
    }

    fn consume_identifier(&mut self) -> (r: Option<String>)
        requires
            old(self).wf(),
        ensures
            final(self).wf(),
            final(self).tokens == old(self).tokens,
            match r {
                Some(name) => tag_at(old(self).ts(), old(self).pos()) == Some(TokenType::Identifier)
                    && name@ == old(self).ts()[old(self).pos()].lexeme && final(self).pos() == old(
                    self,
                ).pos() + 1,
                None => tag_at(old(self).ts(), old(self).pos()) != Some(TokenType::Identifier)
                    && final(self).pos() == old(self).pos(),
            },
    {
        match self.peek() {
            Some(token) => {
                if token.tag == TokenType::Identifier {
                    let lexeme = token.lexeme.clone();
                    self.consume();
                    Some(lexeme)
                } else {
                    None
                }
            },
            None => None,
        }
    }

    /// Parses a possibly qualified identifier (`column` or `table.column`).
    fn parse_qualified_identifier(&mut self) -> (r: Option<QualifiedIdentifier>)
        requires
            old(self).wf(),
        ensures
            final(self).wf(),
            final(self).tokens == old(self).tokens,
            final(self).pos() == p_qualified(old(self).ts(), old(self).pos()).1,
            match r {
                Some(q) => p_qualified(old(self).ts(), old(self).pos()).0 == Some(q@),
                None => p_qualified(old(self).ts(), old(self).pos()).0 is None,
            },
    {
        let first = match self.consume_identifier() {
            Some(f) => f,
            None => return None,
        };
        match self.consume_optional(TokenType::Dot) {
            Some(_) => {
                let name = match self.consume_identifier() {
                    Some(n) => n,
                    None => return None,
                };
                Some(QualifiedIdentifier { qualifier: Some(first), name })
            },
            None => Some(QualifiedIdentifier { qualifier: None, name: first }),
        }
    }

    /// Parses one value of an INSERT.
    fn parse_primary(&mut self) -> (r: Result<Literal, Error>)
        requires
            old(self).wf(),
        ensures
            final(self).wf(),
            final(self).tokens == old(self).tokens,
            final(self).pos() == p_primary(old(self).ts(), old(self).pos()).1,
            match r {
                Ok(l) => p_primary(old(self).ts(), old(self).pos()).0 == Some(l@),
                Err(e) => p_primary(old(self).ts(), old(self).pos()).0 is None && e@ == ErrorV::Parse(
                    primary_error(old(self).ts(), old(self).pos()),
                ),
            },
        decreases old(self).tokens@.len() - old(self).position,
    {
        let ghost ts = self.ts();
        let ghost p = self.pos();
        match self.peek() {
            Some(token) => {
                let tag = token.tag;
                match tag {
                    TokenType::LParen => {
                        self.consume();
                        let val = match self.parse_primary() {
                            Ok(v) => v,
                            Err(e) => return Err(e),
                        };
                        match self.consume_assert(
                            TokenType::RParen,
                            String::from_str("Expected ')' after value"),
                        ) {
                            Ok(_) => {},
                            Err(e) => return Err(e),
                        }
                        Ok(val)
                    },
                    TokenType::Number => {
                        let tok = self.consume().unwrap();
                        Ok(Literal::Float64(tok.lexeme))
                    },
                    TokenType::String => {
                        let tok = self.consume().unwrap();
                        Ok(Literal::Utf8(tok.lexeme))
                    },
                    TokenType::Identifier => {
                        let tok = self.consume().unwrap();
                        Ok(Literal::Utf8(tok.lexeme))
                    },
                    TokenType::True => {
                        self.consume();
                        Ok(Literal::Boolean(true))
                    },
                    TokenType::False => {
                        self.consume();
                        Ok(Literal::Boolean(false))
                    },
                    _ => {
                        let mut m = String::from_str("Unexpected token in expression: ");
                        m.append(debug_tag(tag).as_str());
                        Err(Error::Parse(m))
                    },
                }
            },
            None => Err(parse_error("Unexpected end of input in expression")),
        }
    }

    /// Parses the values of an INSERT; parsing stops at the first token that is not a value.
    fn parse_values(&mut self) -> (r: Result<Vec<Literal>, Error>)
        requires
            old(self).wf(),
        ensures
            final(self).wf(),
            final(self).tokens == old(self).tokens,
            final(self).pos() == p_values(old(self).ts(), old(self).pos()).1,
            match r {
                Ok(vals) => vals@.map_values(|l: Literal| l@) == p_values(
                    old(self).ts(),
                    old(self).pos(),
                ).0,
                Err(_) => false,
            },
    {
        let ghost ts = self.ts();
        self.consume_optional(TokenType::LParen);
        let ghost p0 = self.pos();
        let mut vals: Vec<Literal> = Vec::new();
        proof {
            assert(vals@.map_values(|l: Literal| l@) =~= Seq::<LitV>::empty());
        }
        loop
            invariant_except_break
                p_values_loop(ts, p0, seq![]) == p_values_loop(
                    ts,
                    self.pos(),
                    vals@.map_values(|l: Literal| l@),
                ),
            invariant
                self.wf(),
                self.tokens == old(self).tokens,
                ts == self.ts(),
            ensures
                self.wf(),
                self.tokens == old(self).tokens,
                p_values_loop(ts, p0, seq![]) == (vals@.map_values(|l: Literal| l@), self.pos()),
            decreases ts.len() - self.pos(),
        {
            let ghost before = self.pos();
            let ghost acc = vals@.map_values(|l: Literal| l@);
            proof {
                lemma_primary_bounds(ts, before);
            }
            match self.parse_primary() {
                Ok(val) => {
                    let ghost lv = val@;
                    vals.push(val);
                    self.consume_optional(TokenType::Comma);
                    proof {
                        assert(vals@.map_values(|l: Literal| l@) =~= acc.push(lv));
                    }
                },
                Err(_) => break,
            }
        }
        self.consume_optional(TokenType::RParen);
        Ok(vals)
    }

    fn parse_expr_primary(&mut self) -> (r: Result<Expression, Error>)
        requires
            old(self).wf(),
        ensures
            final(self).wf(),
            final(self).tokens == old(self).tokens,
            final(self).pos() == p_expr_primary(old(self).ts(), old(self).pos()).1,
            match r {
                Ok(e) => p_expr_primary(old(self).ts(), old(self).pos()).0 == Some(e@),
                Err(e) => p_expr_primary(old(self).ts(), old(self).pos()).0 is None && e is Parse,
            },
        decreases old(self).tokens@.len() - old(self).position, 0nat,
    {
        match self.peek() {
            Some(token) => {
                let tag = token.tag;
                match tag {
                    TokenType::LParen => {
                        self.consume();
                        let expr = match self.parse_expression() {
                            Ok(e) => e,
                            Err(e) => return Err(e),
                        };
                        match self.consume_assert(
                            TokenType::RParen,
                            String::from_str("Expected ')' after expression"),
                        ) {
                            Ok(_) => {},
                            Err(e) => return Err(e),
                        }
                        Ok(expr)
                    },
                    TokenType::Number => {
                        let tok = self.consume().unwrap();
                        Ok(Expression::Literal(Literal::Float64(tok.lexeme)))
                    },
                    TokenType::String => {
                        let tok = self.consume().unwrap();
                        Ok(Expression::Literal(Literal::Utf8(tok.lexeme)))
                    },
                    TokenType::True => {
                        self.consume();
                        Ok(Expression::Literal(Literal::Boolean(true)))
                    },
                    TokenType::False => {
                        self.consume();
                        Ok(Expression::Literal(Literal::Boolean(false)))
                    },
                    TokenType::Identifier => {
                        let tok = self.consume().unwrap();
                        match self.consume_optional(TokenType::Dot) {
                            Some(_) => {
                                let name = match self.consume_assert(
                                    TokenType::Identifier,
                                    String::new(),
                                ) {
                                    Ok(n) => n,
                                    Err(e) => return Err(e),
                                };
                                Ok(
                                    Expression::Identifier(
                                        QualifiedIdentifier {
                                            qualifier: Some(tok.lexeme),
                                            name: name.lexeme,
                                        },
                                    ),
                                )
                            },
                            None => Ok(
                                Expression::Identifier(
                                    QualifiedIdentifier { qualifier: None, name: tok.lexeme },
                                ),
                            ),
                        }
                    },
                    _ => {
                        let mut m = String::from_str("Unexpected token in expression: ");
                        m.append(debug_tag(tag).as_str());
                        Err(Error::Parse(m))
                    },
                }
            },
            None => Err(parse_error("Unexpected end of input in expression")),
        }
    }

    fn parse_expression_prec(&mut self, min_prec: i8) -> (r: Result<Expression, Error>)
        requires
            old(self).wf(),
            0 <= min_prec <= 7,
        ensures
            final(self).wf(),
            final(self).tokens == old(self).tokens,
            final(self).pos() == p_expr_prec(old(self).ts(), old(self).pos(), min_prec as int).1,
            match r {
                Ok(e) => p_expr_prec(old(self).ts(), old(self).pos(), min_prec as int).0 == Some(
                    e@,
                ),
                Err(e) => p_expr_prec(old(self).ts(), old(self).pos(), min_prec as int).0 is None
                    && e is Parse,
            },
        decreases old(self).tokens@.len() - old(self).position, 1nat,
    {
        let ghost ts = self.ts();
        let ghost p0 = self.pos();
        let ghost min = min_prec as int;
        proof {
            lemma_expr_primary_bounds(ts, p0);
        }
        let mut lhs = match self.parse_expr_primary() {
            Ok(e) => e,
            Err(e) => return Err(e),
        };
        loop
            invariant_except_break
                p_expr_prec(ts, p0, min) == p_prec_loop(ts, lhs@, self.pos(), min),
            invariant
                self.wf(),
                self.tokens == old(self).tokens,
                ts == self.ts(),
                p0 == old(self).pos(),
                min == min_prec as int,
                0 <= min_prec <= 7,
                p0 < self.pos(),
            ensures
                self.wf(),
                self.tokens == old(self).tokens,
                p_expr_prec(ts, p0, min) == (Some(lhs@), self.pos()),
            decreases ts.len() - self.pos(),
        {
            let ghost before = self.pos();
            let ghost lhs0 = lhs@;
            let prec = match self.peek() {
                Some(tok) => self.get_precedence(&tok.tag),
                None => -1,
            };
            if prec < min_prec {
                break;
            }
            let op_tok = self.consume().unwrap();
            let op = match self.token_to_operator(&op_tok.tag) {
                Some(op) => op,
                None => {
                    let mut m = String::from_str("Unknown operator: ");
                    m.append(debug_tag(op_tok.tag).as_str());
                    return Err(Error::Parse(m));
                },
            };
            proof {
                lemma_expr_prec_bounds(ts, before + 1, prec + 1);
            }
            let rhs = match self.parse_expression_prec(prec + 1) {
                Ok(e) => e,
                Err(e) => return Err(e),
            };
            lhs = Expression::BinaryOp { op, lhs: Box::new(lhs), rhs: Box::new(rhs) };
            proof {
                assert(lhs@ == ExprV::BinaryOp(op, Box::new(lhs0), Box::new(rhs@)));
            }
        }
        Ok(lhs)
    }

    pub fn parse_expression(&mut self) -> (r: Result<Expression, Error>)
        requires
            old(self).wf(),
        ensures
            final(self).wf(),
            final(self).tokens == old(self).tokens,
            final(self).pos() == p_expression(old(self).ts(), old(self).pos()).1,
            match r {
                Ok(e) => p_expression(old(self).ts(), old(self).pos()).0 == Some(e@),
                Err(e) => p_expression(old(self).ts(), old(self).pos()).0 is None && e is Parse,
            },
        decreases old(self).tokens@.len() - old(self).position, 2nat,
    {
        self.parse_expression_prec(0)
    }

    /// Consumes a number token and reads it as a `usize`.
    fn parse_count(&mut self, expected: &str, invalid: &str) -> (r: Result<usize, Error>)
        requires
            old(self).wf(),
        ensures
            final(self).wf(),
            final(self).tokens == old(self).tokens,
            final(self).pos() == p_count(old(self).ts(), old(self).pos()).1,
            match r {
                Ok(n) => p_count(old(self).ts(), old(self).pos()).0 == Some(n),
                Err(e) => p_count(old(self).ts(), old(self).pos()).0 is None && e@ == ErrorV::Parse(
                    count_error(old(self).ts(), old(self).pos(), expected@, invalid@),
                ),
            },
    {
        let tok = match self.consume_assert(TokenType::Number, String::from_str(expected)) {
            Ok(t) => t,
            Err(e) => return Err(e),
        };
        let digits = chars_of(tok.lexeme.as_str());
        match parse_usize(digits.as_slice()) {
            Some(n) => Ok(n),
            None => Err(parse_error(invalid)),
        }
    }

    /// Parses the clauses after the table name, in any order, until a token
    /// that starts none of them.
    fn parse_clauses(&mut self, allow_join: bool) -> (r: Result<Clauses, Error>)
        requires
            old(self).wf(),
        ensures
            final(self).wf(),
            final(self).tokens == old(self).tokens,
            match r {
                Ok(c) => p_clauses(old(self).ts(), old(self).pos(), allow_join, no_clauses()) == (
                    Some(c@),
                    final(self).pos(),
                ),
                Err(e) => p_clauses(old(self).ts(), old(self).pos(), allow_join, no_clauses()).0 is None
                    && e is Parse && (clauses_error(
                    old(self).ts(),
                    old(self).pos(),
                    allow_join,
                    no_clauses(),
                ) matches Some(m) ==> e@ == ErrorV::Parse(m)),
            },
    {
        let ghost ts = self.ts();
        let ghost p0 = self.pos();
        let mut clauses = Clauses {
            filter: None,
            joins: Vec::new(),
            limit: None,
            offset: None,
            order_by: None,
        };
        proof {
            assert(clauses.joins@.map_values(|j: Join| j@) =~= Seq::<JoinV>::empty());
            assert(clauses@ =~= no_clauses());
        }
        loop
            invariant_except_break
                p_clauses(ts, p0, allow_join, no_clauses()) == p_clauses(
                    ts,
                    self.pos(),
                    allow_join,
                    clauses@,
                ),
                clauses_error(ts, p0, allow_join, no_clauses()) == clauses_error(
                    ts,
                    self.pos(),
                    allow_join,
                    clauses@,
                ),
            invariant
                self.wf(),
                self.tokens == old(self).tokens,
                ts == self.ts(),
                p0 == old(self).pos(),
            ensures
                self.wf(),
                self.tokens == old(self).tokens,
                p_clauses(ts, p0, allow_join, no_clauses()) == (Some(clauses@), self.pos()),
            decreases ts.len() - self.pos(),
        {
            let ghost p = self.pos();
            let ghost c0 = clauses@;
            let tag = match self.peek() {
                Some(token) => token.tag,
                None => break,
            };
            proof {
                assert(ts[p].tag == tag);
            }
            match tag {
                TokenType::Where => {
                    if clauses.filter.is_some() {
                        return Err(parse_error("Duplicate WHERE clause"));
                    }
                    self.consume();
                    proof {
                        lemma_expr_prec_bounds(ts, p + 1, 0);
                    }
                    let expr = match self.parse_expression() {
                        Ok(e) => e,
                        Err(e) => return Err(e),
                    };
                    clauses.filter = Some(Box::new(expr));
                    proof {
                        assert(clauses@ =~= ClausesV { filter: Some(expr@), ..c0 });
                    }
                },
                TokenType::Join
                | TokenType::InnerJoin
                | TokenType::LeftOuterJoin
                | TokenType::RightOuterJoin
                | TokenType::FullOuterJoin
                | TokenType::CrossJoin => {
                    if !allow_join {
                        return Err(parse_error("JOIN not allowed in this statement"));
                    }
                    self.consume();
                    let table = match self.consume_identifier() {
                        Some(t) => t,
                        None => return Err(parse_error("Expected table name after JOIN")),
                    };
                    match self.consume_assert(TokenType::On, String::from_str("Expected ON after JOIN")) {
                        Ok(_) => {},
                        Err(e) => return Err(e),
                    }
                    let ghost p2 = self.pos();
                    proof {
                        lemma_expr_prec_bounds(ts, p2, 0);
                    }
                    let on = match self.parse_expression() {
                        Ok(e) => e,
                        Err(e) => return Err(e),
                    };
                    let kind = match JoinKind::from_token(&tag) {
                        Some(k) => k,
                        None => return Err(parse_error("unknown join kind")),
                    };
                    let ghost jv = JoinV { kind, table: table@, on: on@ };
                    clauses.joins.push(Join { kind, table, on: Box::new(on) });
                    proof {
                        assert(clauses.joins@.map_values(|j: Join| j@) =~= c0.joins.push(jv));
                        assert(clauses@ =~= ClausesV { joins: c0.joins.push(jv), ..c0 });
                    }
                },
                TokenType::Limit => {
                    if clauses.limit.is_some() {
                        return Err(parse_error("Duplicate LIMIT clause"));
                    }
                    self.consume();
                    let limit = match self.parse_count(
                        "Expected number after LIMIT",
                        "LIMIT should be a valid integer",
                    ) {
                        Ok(n) => n,
                        Err(e) => return Err(e),
                    };
                    if self.consume_optional(TokenType::Comma).is_some() {
                        let offset = match self.parse_count(
                            "Expected offset number",
                            "OFFSET should be a valid integer",
                        ) {
                            Ok(n) => n,
                            Err(e) => return Err(e),
                        };
                        clauses.offset = Some(offset);
                    }
                    clauses.limit = Some(limit);
                },
                TokenType::OrderBy => {
                    if clauses.order_by.is_some() {
                        return Err(parse_error("Duplicate ORDER BY clause"));
                    }
                    self.consume();
                    let column = match self.parse_qualified_identifier() {
                        Some(c) => c,
                        None => return Err(parse_error("Expected column after ORDER BY")),
                    };
                    clauses.order_by = Some(column);
                },
                _ => break,
            }
        }
        Ok(clauses)
    }

    /// Parses one statement from the first token on.
    #[verifier::rlimit(40)]
    fn parse_statement(&mut self) -> (r: Result<Statement, Error>)
        requires
            old(self).wf(),
            old(self).pos() == 0,
        ensures
            match r {
                Ok(st) => p_statement(old(self).ts()) == Some(st@),
                Err(e) => p_statement(old(self).ts()) is None && e is Parse && (statement_error(
                    old(self).ts(),
                ) matches Some(m) ==> e@ == ErrorV::Parse(m)),
            },
    {
        let ghost ts = self.ts();
        let tag = match self.peek() {
            Some(token) => token.tag,
            None => return Err(parse_error("Unexpected end of input")),
        };
        proof {
            assert(ts[0].tag == tag);
        }
        match tag {
            TokenType::Select => {
                self.consume();
                self.consume_optional(TokenType::LParen);
                let ghost p1 = self.pos();
                let mut columns: Vec<QualifiedIdentifier> = Vec::new();
                proof {
                    assert(columns@.map_values(|q: QualifiedIdentifier| q@) =~= Seq::<QIdV>::empty());
                }
                loop
                    invariant_except_break
                        p_columns_loop(ts, p1, seq![]) == p_columns_loop(
                            ts,
                            self.pos(),
                            columns@.map_values(|q: QualifiedIdentifier| q@),
                        ),
                    invariant
                        self.wf(),
                        self.tokens == old(self).tokens,
                        ts == self.ts(),
                    ensures
                        self.wf(),
                        self.tokens == old(self).tokens,
                        p_columns_loop(ts, p1, seq![]) == (
                            columns@.map_values(|q: QualifiedIdentifier| q@),
                            self.pos(),
                        ),
                    decreases ts.len() - self.pos(),
                {
                    let ghost before = self.pos();
                    let ghost acc = columns@.map_values(|q: QualifiedIdentifier| q@);
                    proof {
                        lemma_qualified_bounds(ts, before);
                    }
                    match self.parse_qualified_identifier() {
                        Some(col) => {
                            let ghost cv = col@;
                            columns.push(col);
                            self.consume_optional(TokenType::Comma);
                            proof {
                                assert(columns@.map_values(|q: QualifiedIdentifier| q@) =~= acc.push(
                                    cv,
                                ));
                            }
                        },
                        None => break,
                    }
                }
                if columns.len() == 0 && self.consume_optional(TokenType::Star).is_some() {
                    let star = String::from_str("*");
                    proof {
                        reveal_strlit("*");
                        assert(star@ =~= seq!['*']);
                    }
                    columns.push(QualifiedIdentifier { qualifier: None, name: star });
                    proof {
                        assert(columns@.map_values(|q: QualifiedIdentifier| q@) =~= seq![
                            star_column(),
                        ]);
                    }
                }
                self.consume_optional(TokenType::RParen);
                match self.consume_assert(
                    TokenType::From,
                    String::from_str("Expected FROM after SELECT"),
                ) {
                    Ok(_) => {},
                    Err(e) => return Err(e),
                }
                let table = match self.consume_identifier() {
                    Some(t) => t,
                    None => return Err(parse_error("Expected table name after FROM")),
                };
                let clauses = match self.parse_clauses(true) {
                    Ok(c) => c,
                    Err(e) => return Err(e),
                };
                Ok(
                    Statement::Select {
                        table,
                        columns,
                        joins: clauses.joins,
                        filter: clauses.filter,
                        limit: clauses.limit,
                        offset: clauses.offset,
                        order_by: clauses.order_by,
                    },
                )
            },
            TokenType::Delete => {
                self.consume();
                self.consume_optional(TokenType::LParen);
                match self.consume_assert(
                    TokenType::From,
                    String::from_str("Expected FROM after DELETE"),
                ) {
                    Ok(_) => {},
                    Err(e) => return Err(e),
                }
                let table = match self.consume_identifier() {
                    Some(t) => t,
                    None => return Err(parse_error("Expected table name after FROM")),
                };
                let clauses = match self.parse_clauses(false) {
                    Ok(c) => c,
                    Err(e) => return Err(e),
                };
                Ok(Statement::Delete { table, filter: clauses.filter })
            },
            TokenType::Insert => {
                self.consume();
                let values = match self.parse_values() {
                    Ok(v) => v,
                    Err(e) => return Err(e),
                };
                match self.consume_assert(
                    TokenType::Into,
                    String::from_str("Expected 'INTO' after 'VALUES' during 'INSERT' statement"),
                ) {
                    Ok(_) => {},
                    Err(e) => return Err(e),
                }
                let table = match self.parse_primary() {
                    Ok(Literal::Utf8(name)) => name,
                    Err(e) => return Err(e),
                    _ => return Err(parse_error("Failed to parse 'TABLE' name in 'INSERT' statement")),
                };
                Ok(Statement::Insert { table, values })
            },
            _ => {
                let mut m = String::from_str("Unexpected token: ");
                m.append(debug_tag(tag).as_str());
                Err(Error::Parse(m))
            },
        }
    }

    /// Parses the statement that `tokens` hold. It succeeds exactly when the
    /// tokens start with a statement of the grammar, and then gives that statement.
    pub fn parse(tokens: &'a Vec<Token>) -> (r: Result<Statement, Error>)
        ensures
            match r {
                Ok(st) => p_statement(token_views(tokens@)) == Some(st@),
                Err(e) => p_statement(token_views(tokens@)) is None && e is Parse && (statement_error(
                    token_views(tokens@),
                ) matches Some(m) ==> e@ == ErrorV::Parse(m)),
            },
    {
        let mut parser = ParserContext { tokens, position: 0 };
        parser.parse_statement()
    }

    fn get_precedence(&self, tag: &TokenType) -> (r: i8)
        ensures
            r == precedence(*tag),
    {
        match tag {
            TokenType::Or => 1,
            TokenType::And => 2,
            TokenType::Equal | TokenType::NotEqual => 3,
            TokenType::Less
            | TokenType::Greater
            | TokenType::LessEqual
            | TokenType::GreaterEqual => 4,
            TokenType::Plus | TokenType::Minus => 5,
            TokenType::Star | TokenType::Slash => 6,
            _ => -1,
        }
    }

    fn token_to_operator(&self, tag: &TokenType) -> (r: Option<Operator>)
        ensures
            r == operator_of(*tag),
    {
        match tag {
            TokenType::Equal => Some(Operator::Eq),
            TokenType::NotEqual => Some(Operator::Neq),
            TokenType::LessEqual => Some(Operator::Leq),
            TokenType::GreaterEqual => Some(Operator::Geq),
            TokenType::Less => Some(Operator::Lt),
            TokenType::Greater => Some(Operator::Gt),
            TokenType::Plus => Some(Operator::Add),
            TokenType::Minus => Some(Operator::Sub),
            TokenType::Star => Some(Operator::Mul),
            TokenType::Slash => Some(Operator::Div),
            TokenType::And => Some(Operator::And),
            TokenType::Or => Some(Operator::Or),
            _ => None,
        }
    }
}

} // verus!
