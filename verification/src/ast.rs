use vstd::prelude::*;

use crate::lexer::TokenType;

verus! {

#[derive(Debug, Clone, Copy, PartialEq, Eq, Structural)]
pub enum JoinKind {
    Inner,
    LeftOuter,
    RightOuter,
    FullOuter,
    Cross,
}

/// The join kind that a join keyword token stands for.
pub open spec fn join_kind_of(tag: TokenType) -> Option<JoinKind> {
    match tag {
        TokenType::Join | TokenType::InnerJoin => Some(JoinKind::Inner),
        TokenType::LeftOuterJoin => Some(JoinKind::LeftOuter),
        TokenType::RightOuterJoin => Some(JoinKind::RightOuter),
        TokenType::FullOuterJoin => Some(JoinKind::FullOuter),
        TokenType::CrossJoin => Some(JoinKind::Cross),
        _ => None,
    }
}

impl JoinKind {
    pub fn from_token(tag: &TokenType) -> (r: Option<Self>)
        ensures
            r == join_kind_of(*tag),
    {
        match tag {
            TokenType::Join | TokenType::InnerJoin => Some(JoinKind::Inner),
            TokenType::LeftOuterJoin => Some(JoinKind::LeftOuter),
            TokenType::RightOuterJoin => Some(JoinKind::RightOuter),
            TokenType::FullOuterJoin => Some(JoinKind::FullOuter),
            TokenType::CrossJoin => Some(JoinKind::Cross),
            _ => None,
        }
    }
}

#[derive(Debug, Clone)]
pub struct QualifiedIdentifier {
    pub qualifier: Option<String>,
    pub name: String,
}

#[derive(Debug, Clone, Copy, PartialEq, Eq, Structural)]
pub enum Operator {
    Eq,
    Neq,
    Leq,
    Geq,
    Lt,
    Gt,
    Add,
    Sub,
    Mul,
    Div,
    And,
    Or,
}

/// A literal as written in a query. A number keeps its decimal text: turning
/// it into a floating-point value is left to the code that evaluates queries.
#[derive(Debug, Clone)]
pub enum Literal {
    Float64(String),
    Utf8(String),
    Boolean(bool),
}

#[derive(Debug)]
pub enum Expression {
    Literal(Literal),
    Identifier(QualifiedIdentifier),
    BinaryOp { op: Operator, lhs: Box<Expression>, rhs: Box<Expression> },
}

#[derive(Debug)]
pub struct Join {
    pub kind: JoinKind,
    pub table: String,
    pub on: Box<Expression>,
}

#[derive(Debug)]
pub enum Statement {
    Insert { table: String, values: Vec<Literal> },
    Select {
        table: String,
        columns: Vec<QualifiedIdentifier>,
        joins: Vec<Join>,
        filter: Option<Box<Expression>>,
        limit: Option<usize>,
        offset: Option<usize>,
        order_by: Option<QualifiedIdentifier>,
    },
    Delete { table: String, filter: Option<Box<Expression>> },
}

// Mathematical content of the syntax tree.
pub ghost enum LitV {
    Float64(Seq<char>),
    Utf8(Seq<char>),
    Boolean(bool),
}

pub ghost struct QIdV {
    pub qualifier: Option<Seq<char>>,
    pub name: Seq<char>,
}

pub ghost enum ExprV {
    Literal(LitV),
    Identifier(QIdV),
    BinaryOp(Operator, Box<ExprV>, Box<ExprV>),
}

pub ghost struct JoinV {
    pub kind: JoinKind,
    pub table: Seq<char>,
    pub on: ExprV,
}

pub ghost enum StmtV {
    Insert { table: Seq<char>, values: Seq<LitV> },
    Select {
        table: Seq<char>,
        columns: Seq<QIdV>,
        joins: Seq<JoinV>,
        filter: Option<ExprV>,
        limit: Option<usize>,
        offset: Option<usize>,
        order_by: Option<QIdV>,
    },
    Delete { table: Seq<char>, filter: Option<ExprV> },
}

impl View for Literal {
    type V = LitV;

    open spec fn view(&self) -> LitV {
        match self {
            Literal::Float64(s) => LitV::Float64(s@),
            Literal::Utf8(s) => LitV::Utf8(s@),
            Literal::Boolean(b) => LitV::Boolean(*b),
        }
    }
}

impl View for QualifiedIdentifier {
    type V = QIdV;

    open spec fn view(&self) -> QIdV {
        QIdV {
            qualifier: match self.qualifier {
                Some(q) => Some(q@),
                None => None,
            },
            name: self.name@,
        }
    }
}

pub open spec fn expr_view(e: Expression) -> ExprV
    decreases e,
{
    match e {
        Expression::Literal(l) => ExprV::Literal(l@),
        Expression::Identifier(id) => ExprV::Identifier(id@),
        Expression::BinaryOp { op, lhs, rhs } => ExprV::BinaryOp(
            op,
            Box::new(expr_view(*lhs)),
            Box::new(expr_view(*rhs)),
        ),
    }
}

impl View for Expression {
    type V = ExprV;

    open spec fn view(&self) -> ExprV {
        expr_view(*self)
    }
}

impl View for Join {
    type V = JoinV;

    open spec fn view(&self) -> JoinV {
        JoinV { kind: self.kind, table: self.table@, on: expr_view(*self.on) }
    }
}

pub open spec fn opt_expr_view(e: Option<Box<Expression>>) -> Option<ExprV> {
    match e {
        Some(b) => Some(expr_view(*b)),
        None => None,
    }
}

pub open spec fn opt_qid_view(q: Option<QualifiedIdentifier>) -> Option<QIdV> {
    match q {
        Some(x) => Some(x@),
        None => None,
    }
}

impl View for Statement {
    type V = StmtV;

    open spec fn view(&self) -> StmtV {
        match self {
            Statement::Insert { table, values } => StmtV::Insert {
                table: table@,
                values: values@.map_values(|l: Literal| l@),
            },
            Statement::Select { table, columns, joins, filter, limit, offset, order_by } =>
                StmtV::Select {
                table: table@,
                columns: columns@.map_values(|q: QualifiedIdentifier| q@),
                joins: joins@.map_values(|j: Join| j@),
                filter: opt_expr_view(*filter),
                limit: *limit,
                offset: *offset,
                order_by: opt_qid_view(*order_by),
            },
            Statement::Delete { table, filter } => StmtV::Delete {
                table: table@,
                filter: opt_expr_view(*filter),
            },
        }
    }
}

} // verus!
