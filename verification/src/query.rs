use vstd::prelude::*;

use crate::ast::{
    expr_view, opt_expr_view, opt_qid_view, ExprV, Expression, Join, JoinKind, JoinV, LitV, Literal, Operator,
    QIdV, QualifiedIdentifier, Statement, StmtV,
};
use crate::error::{Error, ErrorV};
use crate::field::{Field, FieldV};
use crate::schema::{position_of, Schema, SchemaExt, SchemaV};
use crate::value::DataType;
use vstd::utf8::encode_utf8;

verus! {

/// An expression whose columns are bound to fields of the tables in scope.
#[derive(Debug)]
pub enum ResolvedExpression {
    Literal(Literal),
    Column(Field),
    BinaryOp { op: Operator, lhs: Box<ResolvedExpression>, rhs: Box<ResolvedExpression> },
}

pub ghost enum RExprV {
    Literal(LitV),
    Column(FieldV),
    BinaryOp(Operator, Box<RExprV>, Box<RExprV>),
}

pub open spec fn rexpr_view(e: ResolvedExpression) -> RExprV
    decreases e,
{
    match e {
        ResolvedExpression::Literal(l) => RExprV::Literal(l@),
        ResolvedExpression::Column(f) => RExprV::Column(f@),
        ResolvedExpression::BinaryOp { op, lhs, rhs } => RExprV::BinaryOp(
            op,
            Box::new(rexpr_view(*lhs)),
            Box::new(rexpr_view(*rhs)),
        ),
    }
}

impl View for ResolvedExpression {
    type V = RExprV;

    open spec fn view(&self) -> RExprV {
        rexpr_view(*self)
    }
}

/// A join with its table's schema and its bound condition.
#[derive(Debug)]
pub struct ResolvedJoin {
    pub kind: JoinKind,
    pub schema: Schema,
    pub on: ResolvedExpression,
}

pub ghost struct RJoinV {
    pub kind: JoinKind,
    pub schema: SchemaV,
    pub on: RExprV,
}

impl View for ResolvedJoin {
    type V = RJoinV;

    open spec fn view(&self) -> RJoinV {
        RJoinV { kind: self.kind, schema: self.schema@, on: rexpr_view(self.on) }
    }
}

/// What running a statement gives: the rows touched, or the rows selected.
#[derive(Debug)]
pub enum QueryResult {
    Insert { rows_affected: u64 },
    Select { rows: Vec<Vec<crate::value::Value>> },
    Delete { rows_affected: u64 },
}

/// A statement bound to the schemas of its tables.
#[derive(Debug)]
pub enum ResolvedStatement {
    Insert { schema: Schema, values: Vec<Literal> },
    Select {
        schema: Schema,
        columns: Vec<Field>,
        joins: Vec<ResolvedJoin>,
        filter: Option<ResolvedExpression>,
        limit: Option<usize>,
        offset: Option<usize>,
        order_by: Option<Field>,
    },
    Delete { schema: Schema, filter: Option<ResolvedExpression> },
}

pub ghost enum RStmtV {
    Insert { schema: SchemaV, values: Seq<LitV> },
    Select {
        schema: SchemaV,
        columns: Seq<FieldV>,
        joins: Seq<RJoinV>,
        filter: Option<RExprV>,
        limit: Option<usize>,
        offset: Option<usize>,
        order_by: Option<FieldV>,
    },
    Delete { schema: SchemaV, filter: Option<RExprV> },
}

pub open spec fn opt_rexpr_view(e: Option<ResolvedExpression>) -> Option<RExprV> {
    match e {
        Some(x) => Some(rexpr_view(x)),
        None => None,
    }
}

impl View for ResolvedStatement {
    type V = RStmtV;

    open spec fn view(&self) -> RStmtV {
        match self {
            ResolvedStatement::Insert { schema, values } => RStmtV::Insert {
                schema: schema@,
                values: values@.map_values(|l: Literal| l@),
            },
            ResolvedStatement::Select { schema, columns, joins, filter, limit, offset, order_by } =>
                RStmtV::Select {
                schema: schema@,
                columns: columns@.map_values(|f: Field| f@),
                joins: joins@.map_values(|j: ResolvedJoin| j@),
                filter: opt_rexpr_view(*filter),
                limit: *limit,
                offset: *offset,
                order_by: match order_by {
                    Some(f) => Some(f@),
                    None => None,
                },
            },
            ResolvedStatement::Delete { schema, filter } => RStmtV::Delete {
                schema: schema@,
                filter: opt_rexpr_view(*filter),
            },
        }
    }
}

/// Where the schemas of the tables come from.
pub trait Catalog {
    /// The schema of the table called `name`, if there is one.
    spec fn schema_named(&self, name: Seq<char>) -> Option<SchemaV>;

    /// The schemas of all tables, in order.
    spec fn schema_list(&self) -> Seq<SchemaV>;

    fn get_schema(&self, name: &str) -> (r: Option<Schema>)
        ensures
            match r {
                Some(s) => self.schema_named(name@) == Some(s@),
                None => self.schema_named(name@) is None,
            },
    ;

    fn get_schemas(&self) -> (r: Vec<Schema>)
        ensures
            r@.map_values(|s: Schema| s@) == self.schema_list(),
    ;
}

/// The type of a literal.
pub open spec fn literal_type(l: LitV) -> DataType {
    match l {
        LitV::Float64(_) => DataType::Float64,
        LitV::Utf8(_) => DataType::Utf8,
        LitV::Boolean(_) => DataType::Boolean,
    }
}

/// Whether a literal can be stored in a column of type `target`: the types
/// agree, and text for fixed-size bytes fits them.
pub open spec fn literal_check(l: LitV, target: DataType) -> Result<(), ErrorV> {
    match (l, target) {
        (LitV::Float64(_), DataType::Float64) => Ok(()),
        (LitV::Utf8(_), DataType::Utf8) => Ok(()),
        (LitV::Utf8(s), DataType::FixedSizeBinary(n)) => if encode_utf8(s).len() as usize <= n as usize {
            Ok(())
        } else {
            Err(ErrorV::VarcharTooLong { max: n as usize, got: encode_utf8(s).len() as usize })
        },
        (LitV::Boolean(_), DataType::Boolean) => Ok(()),
        _ => Err(ErrorV::TypeMismatch { expected: target, got: literal_type(l) }),
    }
}

fn literal_data_type(l: &Literal) -> (t: DataType)
    ensures
        t == literal_type(l@),
{
    match l {
        Literal::Float64(_) => DataType::Float64,
        Literal::Utf8(_) => DataType::Utf8,
        Literal::Boolean(_) => DataType::Boolean,
    }
}

/// Checks that a literal can be stored in a column of type `target`.
pub fn check_value(value: &Literal, target: &DataType) -> (r: Result<(), Error>)
    ensures
        match r {
            Ok(()) => literal_check(value@, *target) is Ok,
            Err(e) => literal_check(value@, *target) == Err::<(), ErrorV>(e@),
        },
{
    match (value, target) {
        (Literal::Float64(_), DataType::Float64) => Ok(()),
        (Literal::Utf8(_), DataType::Utf8) => Ok(()),
        (Literal::Utf8(s), DataType::FixedSizeBinary(n)) => {
            let len = s.as_str().len();
            if len <= *n as usize {
                Ok(())
            } else {
                Err(Error::VarcharTooLong { max: *n as usize, got: len })
            }
        },
        (Literal::Boolean(_), DataType::Boolean) => Ok(()),
        _ => Err(Error::TypeMismatch { expected: *target, got: literal_data_type(value) }),
    }
}

/// The first schema from `i` on of the table called `name`.
pub open spec fn schema_position_from(schemas: Seq<SchemaV>, name: Seq<char>, i: int) -> Option<int>
    decreases schemas.len() - i,
{
    if i < 0 || i >= schemas.len() {
        None
    } else if schemas[i].table_name == Some(name) {
        Some(i)
    } else {
        schema_position_from(schemas, name, i + 1)
    }
}

/// The first schema of the table called `name`.
pub open spec fn schema_position(schemas: Seq<SchemaV>, name: Seq<char>) -> Option<int> {
    schema_position_from(schemas, name, 0)
}

proof fn lemma_schema_skip(schemas: Seq<SchemaV>, name: Seq<char>, i: int, j: int)
    requires
        0 <= i <= j,
        forall|k: int| i <= k < j && k < schemas.len() ==> #[trigger] schemas[k].table_name != Some(name),
    ensures
        schema_position_from(schemas, name, i) == schema_position_from(schemas, name, j),
    decreases j - i,
{
    if i < j && i < schemas.len() {
        lemma_schema_skip(schemas, name, i + 1, j);
    }
}

proof fn lemma_schema_in(schemas: Seq<SchemaV>, name: Seq<char>, i: int)
    ensures
        schema_position_from(schemas, name, i) matches Some(k) ==> i <= k < schemas.len() && schemas[k].table_name
            == Some(name),
    decreases schemas.len() - i,
{
    if 0 <= i < schemas.len() && schemas[i].table_name != Some(name) {
        lemma_schema_in(schemas, name, i + 1);
    }
}

/// The field a column names: by name alone with one schema in scope, by
/// table and name with more.
pub open spec fn column_in(schemas: Seq<SchemaV>, id: QIdV) -> Result<FieldV, ErrorV> {
    if schemas.len() == 0 {
        Err(ErrorV::SchemaNotInScope("no schemas in scope"@))
    } else if schemas.len() == 1 {
        match position_of(schemas[0].fields, id.name) {
            Some(i) => Ok(schemas[0].fields[i]),
            None => Err(ErrorV::ColumnNotFound(id.name)),
        }
    } else {
        match id.qualifier {
            None => Err(ErrorV::QualifierRequired { column: id.name }),
            Some(q) => match schema_position(schemas, q) {
                None => Err(ErrorV::SchemaNotInScope(q)),
                Some(k) => match position_of(schemas[k].fields, id.name) {
                    Some(i) => Ok(schemas[k].fields[i]),
                    None => Err(ErrorV::ColumnNotFoundInSchema { column: id.name, schema: q }),
                },
            },
        }
    }
}

proof fn lemma_position_none(fs: Seq<FieldV>, name: Seq<char>, i: int)
    requires
        0 <= i,
    ensures
        crate::schema::position_from(fs, name, i) is None ==> forall|k: int| i <= k < fs.len() ==> #[trigger] fs[k].name
            != name,
    decreases fs.len() - i,
{
    if i < fs.len() && fs[i].name != name {
        lemma_position_none(fs, name, i + 1);
    }
}

/// What a column name resolves to: a field of that name, the first of that
/// name in the one schema in scope, or, with several in scope, in the
/// schema of the table the qualifier names. With one schema in scope a name
/// that a field has always resolves; with several, a name without a
/// qualifier never does.
pub proof fn lemma_column_resolution(schemas: Seq<SchemaV>, id: QIdV)
    ensures
        column_in(schemas, id) matches Ok(f) ==> {
            &&& f.name == id.name
            &&& exists|k: int, i: int|
                0 <= k < schemas.len() && 0 <= i < schemas[k].fields.len() && #[trigger] schemas[k].fields[i] == f
                    && (schemas.len() > 1 ==> schemas[k].table_name == id.qualifier)
                    && forall|j: int| 0 <= j < i ==> #[trigger] schemas[k].fields[j].name != id.name
        },
        schemas.len() == 1 && (exists|i: int| 0 <= i < schemas[0].fields.len() && #[trigger] schemas[0].fields[i].name
            == id.name) ==> column_in(schemas, id) is Ok,
        schemas.len() > 1 && id.qualifier is None ==> column_in(schemas, id) == Err::<FieldV, ErrorV>(
            ErrorV::QualifierRequired { column: id.name },
        ),
{
    if schemas.len() == 1 {
        let fs = schemas[0].fields;
        crate::schema::lemma_position_in(fs, id.name, 0);
        lemma_position_none(fs, id.name, 0);
        if let Some(i) = position_of(fs, id.name) {
            assert forall|j: int| 0 <= j < i implies #[trigger] fs[j].name != id.name by {
                lemma_first_position(fs, id.name, 0, j);
            }
            assert(schemas[0].fields[i] == fs[i]);
        }
    } else if schemas.len() > 1 {
        if let Some(q) = id.qualifier {
            lemma_schema_in(schemas, q, 0);
            if let Some(k) = schema_position(schemas, q) {
                let fs = schemas[k].fields;
                crate::schema::lemma_position_in(fs, id.name, 0);
                if let Some(i) = position_of(fs, id.name) {
                    assert forall|j: int| 0 <= j < i implies #[trigger] fs[j].name != id.name by {
                        lemma_first_position(fs, id.name, 0, j);
                    }
                    assert(schemas[k].fields[i] == fs[i]);
                }
            }
        }
    }
}

/// No field before the first one called `name` has that name.
proof fn lemma_first_position(fs: Seq<FieldV>, name: Seq<char>, i: int, j: int)
    requires
        0 <= i <= j < fs.len(),
        crate::schema::position_from(fs, name, i) matches Some(k) && j < k,
    ensures
        fs[j].name != name,
    decreases j - i,
{
    if fs[i].name != name && i < j {
        lemma_first_position(fs, name, i + 1, j);
    }
}

/// The views of the schemas.
pub open spec fn schema_seq(schemas: Seq<Schema>) -> Seq<SchemaV> {
    schemas.map_values(|s: Schema| s@)
}

/// The first schema of the table called `name`.
fn find_schema<'a>(schemas: &'a [Schema], name: &str) -> (r: Option<&'a Schema>)
    ensures
        match schema_position(schema_seq(schemas@), name@) {
            Some(k) => 0 <= k < schemas@.len() && (r matches Some(s) && s@ == schemas@[k]@),
            None => r is None,
        },
{
    let ghost sv = schema_seq(schemas@);
    let mut i: usize = 0;
    while i < schemas.len()
        invariant
            0 <= i <= schemas@.len(),
            sv == schema_seq(schemas@),
            forall|j: int| 0 <= j < i ==> #[trigger] sv[j].table_name != Some(name@),
        decreases schemas@.len() - i,
    {
        let t = schemas[i].table_name();
        let hit = match t {
            Some(n) => crate::text::str_equal(n, name),
            None => false,
        };
        proof {
            assert(sv[i as int] == schemas@[i as int]@);
        }
        if hit {
            proof {
                lemma_schema_skip(sv, name@, 0, i as int);
            }
            return Some(&schemas[i]);
        }
        i = i + 1;
    }
    proof {
        lemma_schema_skip(sv, name@, 0, i as int);
    }
    None
}

/// Resolves a column against the schemas in scope.
#[verifier::rlimit(50)]
pub fn resolve_column(id: &QualifiedIdentifier, schemas: &[Schema]) -> (r: Result<Field, Error>)
    ensures
        match r {
            Ok(f) => column_in(schema_seq(schemas@), id@) == Ok::<FieldV, ErrorV>(f@),
            Err(e) => column_in(schema_seq(schemas@), id@) == Err::<FieldV, ErrorV>(e@),
        },
{
    let ghost sv = schema_seq(schemas@);
    proof {
        reveal_strlit("no schemas in scope");
    }
    if schemas.len() == 0 {
        return Err(Error::SchemaNotInScope("no schemas in scope".to_string()));
    }
    if schemas.len() == 1 {
        proof {
            assert(sv[0] == schemas@[0]@);
        }
        return match schemas[0].field_with_name(id.name.as_str()) {
            Some(f) => Ok(f.copy()),
            None => Err(Error::ColumnNotFound(id.name.clone())),
        };
    }
    let qualifier = match &id.qualifier {
        Some(q) => q,
        None => return Err(Error::QualifierRequired { column: id.name.clone() }),
    };
    let schema = match find_schema(schemas, qualifier.as_str()) {
        Some(s) => s,
        None => return Err(Error::SchemaNotInScope(qualifier.clone())),
    };
    let ghost k = schema_position(sv, qualifier@)->0;
    proof {
        assert(sv[k] == schemas@[k]@);
        assert(schema@ == sv[k]);
    }
    match schema.field_with_name(id.name.as_str()) {
        Some(f) => {
            let g = f.copy();
            Ok(g)
        },
        None => Err(Error::ColumnNotFoundInSchema { column: id.name.clone(), schema: qualifier.clone() }),
    }
}

/// The bound expression and its type, or why it does not bind: a column
/// that does not resolve, or operands of the wrong types.
pub open spec fn resolved_expr(e: ExprV, schemas: Seq<SchemaV>) -> Result<(RExprV, DataType), ErrorV>
    decreases e,
{
    match e {
        ExprV::Literal(l) => Ok((RExprV::Literal(l), literal_type(l))),
        ExprV::Identifier(id) => match column_in(schemas, id) {
            Ok(f) => Ok((RExprV::Column(f), f.data_type)),
            Err(err) => Err(err),
        },
        ExprV::BinaryOp(op, lhs, rhs) => match resolved_expr(*lhs, schemas) {
            Err(err) => Err(err),
            Ok((l, lt)) => match resolved_expr(*rhs, schemas) {
                Err(err) => Err(err),
                Ok((r, rt)) => match op_type(op, lt, rt) {
                    Ok(t) => Ok((RExprV::BinaryOp(op, Box::new(l), Box::new(r)), t)),
                    Err(err) => Err(err),
                },
            },
        },
    }
}

/// The types of literals: a number is a `Float64`, text is `Utf8`, `true` and
/// `false` are `Boolean`. A literal binds as itself with that type, and goes
/// into a column exactly when the column has that type (text also into fixed
/// bytes it fits), and is otherwise refused as a mismatch naming both types.
pub proof fn lemma_literal_types(l: LitV, target: DataType, schemas: Seq<SchemaV>)
    ensures
        l is Float64 ==> resolved_expr(ExprV::Literal(l), schemas) == Ok::<(RExprV, DataType), ErrorV>(
            (RExprV::Literal(l), DataType::Float64),
        ),
        l is Utf8 ==> resolved_expr(ExprV::Literal(l), schemas) == Ok::<(RExprV, DataType), ErrorV>(
            (RExprV::Literal(l), DataType::Utf8),
        ),
        l is Boolean ==> resolved_expr(ExprV::Literal(l), schemas) == Ok::<(RExprV, DataType), ErrorV>(
            (RExprV::Literal(l), DataType::Boolean),
        ),
        l is Float64 ==> (literal_check(l, target) is Ok <==> target == DataType::Float64),
        l is Boolean ==> (literal_check(l, target) is Ok <==> target == DataType::Boolean),
        l is Utf8 && target == DataType::Utf8 ==> literal_check(l, target) is Ok,
        l is Utf8 && literal_check(l, target) is Ok ==> target == DataType::Utf8 || target is FixedSizeBinary,
        l is Float64 && target != DataType::Float64 ==> literal_check(l, target) == Err::<(), ErrorV>(
            ErrorV::TypeMismatch { expected: target, got: DataType::Float64 },
        ),
        l is Boolean && target != DataType::Boolean ==> literal_check(l, target) == Err::<(), ErrorV>(
            ErrorV::TypeMismatch { expected: target, got: DataType::Boolean },
        ),
        l is Utf8 && target != DataType::Utf8 && !(target is FixedSizeBinary) ==> literal_check(l, target)
            == Err::<(), ErrorV>(ErrorV::TypeMismatch { expected: target, got: DataType::Utf8 }),
{
}

/// The type of `lhs op rhs`: equality of two values of one type, order and
/// arithmetic on numbers, logic on booleans.
pub open spec fn op_type(op: Operator, lt: DataType, rt: DataType) -> Result<DataType, ErrorV> {
    match op {
        Operator::Eq | Operator::Neq => if lt != rt {
            Err(ErrorV::TypeMismatch { expected: lt, got: rt })
        } else {
            Ok(DataType::Boolean)
        },
        Operator::Lt | Operator::Gt | Operator::Leq | Operator::Geq => if lt == DataType::Float64 && rt
            == DataType::Float64 {
            Ok(DataType::Boolean)
        } else {
            Err(ErrorV::TypeMismatch { expected: DataType::Float64, got: lt })
        },
        Operator::Add | Operator::Sub | Operator::Mul | Operator::Div => if lt == DataType::Float64 && rt
            == DataType::Float64 {
            Ok(DataType::Float64)
        } else {
            Err(ErrorV::TypeMismatch { expected: DataType::Float64, got: lt })
        },
        Operator::And | Operator::Or => if lt == DataType::Boolean && rt == DataType::Boolean {
            Ok(DataType::Boolean)
        } else {
            Err(ErrorV::TypeMismatch { expected: DataType::Boolean, got: lt })
        },
    }
}

/// The types of the operators: a comparison of two numbers, an equality of
/// two values of one type and a conjunction or disjunction of two truth
/// values are truth values; arithmetic on two numbers is a number; and
/// whatever type checks has the type of its kind of operator.
pub proof fn lemma_operator_types(op: Operator, lt: DataType, rt: DataType)
    ensures
        (op == Operator::Lt || op == Operator::Gt || op == Operator::Leq || op == Operator::Geq) && lt
            == DataType::Float64 && rt == DataType::Float64 ==> op_type(op, lt, rt) == Ok::<DataType, ErrorV>(
            DataType::Boolean,
        ),
        (op == Operator::Eq || op == Operator::Neq) && lt == rt ==> op_type(op, lt, rt) == Ok::<
            DataType,
            ErrorV,
        >(DataType::Boolean),
        (op == Operator::And || op == Operator::Or) && lt == DataType::Boolean && rt == DataType::Boolean
            ==> op_type(op, lt, rt) == Ok::<DataType, ErrorV>(DataType::Boolean),
        (op == Operator::Add || op == Operator::Sub || op == Operator::Mul || op == Operator::Div) && lt
            == DataType::Float64 && rt == DataType::Float64 ==> op_type(op, lt, rt) == Ok::<DataType, ErrorV>(
            DataType::Float64,
        ),
        op_type(op, lt, rt) matches Ok(t) ==> {
            &&& (op == Operator::Add || op == Operator::Sub || op == Operator::Mul || op == Operator::Div)
                ==> t == DataType::Float64 && lt == DataType::Float64 && rt == DataType::Float64
            &&& !(op == Operator::Add || op == Operator::Sub || op == Operator::Mul || op == Operator::Div)
                ==> t == DataType::Boolean
            &&& (op == Operator::Lt || op == Operator::Gt || op == Operator::Leq || op == Operator::Geq)
                ==> lt == DataType::Float64 && rt == DataType::Float64
            &&& (op == Operator::And || op == Operator::Or) ==> lt == DataType::Boolean && rt
                == DataType::Boolean
            &&& (op == Operator::Eq || op == Operator::Neq) ==> lt == rt
        },
{
}

fn check_op(op: Operator, lt: DataType, rt: DataType) -> (r: Result<DataType, Error>)
    ensures
        match r {
            Ok(t) => op_type(op, lt, rt) == Ok::<DataType, ErrorV>(t),
            Err(e) => op_type(op, lt, rt) == Err::<DataType, ErrorV>(e@),
        },
{
    match op {
        Operator::Eq | Operator::Neq => {
            if lt != rt {
                Err(Error::TypeMismatch { expected: lt, got: rt })
            } else {
                Ok(DataType::Boolean)
            }
        },
        Operator::Lt | Operator::Gt | Operator::Leq | Operator::Geq => {
            if lt == DataType::Float64 && rt == DataType::Float64 {
                Ok(DataType::Boolean)
            } else {
                Err(Error::TypeMismatch { expected: DataType::Float64, got: lt })
            }
        },
        Operator::Add | Operator::Sub | Operator::Mul | Operator::Div => {
            if lt == DataType::Float64 && rt == DataType::Float64 {
                Ok(DataType::Float64)
            } else {
                Err(Error::TypeMismatch { expected: DataType::Float64, got: lt })
            }
        },
        Operator::And | Operator::Or => {
            if lt == DataType::Boolean && rt == DataType::Boolean {
                Ok(DataType::Boolean)
            } else {
                Err(Error::TypeMismatch { expected: DataType::Boolean, got: lt })
            }
        },
    }
}

fn copy_literal(l: &Literal) -> (r: Literal)
    ensures
        r@ == l@,
{
    match l {
        Literal::Float64(s) => Literal::Float64(s.clone()),
        Literal::Utf8(s) => Literal::Utf8(s.clone()),
        Literal::Boolean(b) => Literal::Boolean(*b),
    }
}

/// Binds an expression to the schemas in scope and gives its type.
pub fn resolve_expression_typed(expr: Box<Expression>, schemas: &[Schema]) -> (r: Result<
    (ResolvedExpression, DataType),
    Error,
>)
    ensures
        match r {
            Ok((e, t)) => resolved_expr(expr_view(*expr), schema_seq(schemas@)) == Ok::<
                (RExprV, DataType),
                ErrorV,
            >((e@, t)),
            Err(err) => resolved_expr(expr_view(*expr), schema_seq(schemas@)) == Err::<
                (RExprV, DataType),
                ErrorV,
            >(err@),
        },
    decreases *expr,
{
    match *expr {
        Expression::Literal(value) => {
            let typ = literal_data_type(&value);
            Ok((ResolvedExpression::Literal(value), typ))
        },
        Expression::Identifier(id) => {
            let field = match resolve_column(&id, schemas) {
                Ok(f) => f,
                Err(e) => return Err(e),
            };
            let typ = field.data_type;
            Ok((ResolvedExpression::Column(field), typ))
        },
        Expression::BinaryOp { op, lhs, rhs } => {
            let (lhs_resolved, lhs_type) = match resolve_expression_typed(lhs, schemas) {
                Ok(t) => t,
                Err(e) => return Err(e),
            };
            let (rhs_resolved, rhs_type) = match resolve_expression_typed(rhs, schemas) {
                Ok(t) => t,
                Err(e) => return Err(e),
            };
            let result_type = match check_op(op, lhs_type, rhs_type) {
                Ok(t) => t,
                Err(e) => return Err(e),
            };
            Ok((
                ResolvedExpression::BinaryOp { op, lhs: Box::new(lhs_resolved), rhs: Box::new(rhs_resolved) },
                result_type,
            ))
        },
    }
}

/// Binds an expression to the schemas in scope.
pub fn resolve_expression(expr: Box<Expression>, schemas: &[Schema]) -> (r: Result<ResolvedExpression, Error>)
    ensures
        match r {
            Ok(e) => resolved_expr(expr_view(*expr), schema_seq(schemas@)) matches Ok((ev, _))
                && ev == e@,
            Err(err) => resolved_expr(expr_view(*expr), schema_seq(schemas@)) == Err::<
                (RExprV, DataType),
                ErrorV,
            >(err@),
        },
{
    match resolve_expression_typed(expr, schemas) {
        Ok((resolved, _)) => Ok(resolved),
        Err(e) => Err(e),
    }
}

/// The bound join: its table's schema among `schemas` and its condition.
pub open spec fn resolved_join(j: JoinV, schemas: Seq<SchemaV>) -> Result<RJoinV, ErrorV> {
    match schema_position(schemas, j.table) {
        None => Err(ErrorV::TableNotFound(j.table)),
        Some(k) => match resolved_expr(j.on, schemas) {
            Ok((on, _)) => Ok(RJoinV { kind: j.kind, schema: schemas[k], on }),
            Err(e) => Err(e),
        },
    }
}

/// Binds a join to the table it names among `schemas`.
#[verifier::rlimit(50)]
pub fn resolve_join(join: Join, schemas: &[Schema]) -> (r: Result<ResolvedJoin, Error>)
    ensures
        match r {
            Ok(j) => resolved_join(join@, schema_seq(schemas@)) == Ok::<RJoinV, ErrorV>(j@),
            Err(e) => resolved_join(join@, schema_seq(schemas@)) == Err::<RJoinV, ErrorV>(e@),
        },
{
    let schema = match find_schema(schemas, join.table.as_str()) {
        Some(s) => s.copy(),
        None => return Err(Error::TableNotFound(join.table.clone())),
    };
    let ghost on_v = expr_view(*join.on);
    let res_expr = match resolve_expression(join.on, schemas) {
        Ok(e) => e,
        Err(e) => return Err(e),
    };
    Ok(ResolvedJoin { kind: join.kind, schema, on: res_expr })
}

/// Each literal, in order, can be stored in the column at its place: the
/// first one that cannot gives the error.
pub open spec fn literals_check(values: Seq<LitV>, fields: Seq<FieldV>, i: int) -> Result<(), ErrorV>
    decreases values.len() - i,
{
    if i < 0 || i >= values.len() {
        Ok(())
    } else {
        match literal_check(values[i], fields[i].data_type) {
            Err(e) => Err(e),
            Ok(()) => match width_check(values[i], fields[i]) {
                Err(e) => Err(e),
                Ok(()) => literals_check(values, fields, i + 1),
            },
        }
    }
}

/// A value fits a column: a number in a number column, text in a text column
/// within the column's width in bytes when it has one, text in fixed bytes it
/// fits, a truth value in a boolean column (lengths taken as `usize`).
pub open spec fn value_fits(l: LitV, f: FieldV) -> bool {
    match (l, f.data_type) {
        (LitV::Float64(_), DataType::Float64) => true,
        (LitV::Utf8(s), DataType::Utf8) => f.size matches Some(n) ==> encode_utf8(s).len() as usize <= n,
        (LitV::Utf8(s), DataType::FixedSizeBinary(n)) => encode_utf8(s).len() as usize <= n as usize,
        (LitV::Boolean(_), DataType::Boolean) => true,
        _ => false,
    }
}

proof fn lemma_literals_fit(values: Seq<LitV>, fields: Seq<FieldV>, i: int)
    requires
        0 <= i <= values.len(),
        values.len() <= fields.len(),
    ensures
        literals_check(values, fields, i) is Ok <==> forall|j: int| i <= j < values.len() ==> value_fits(
            #[trigger] values[j],
            fields[j],
        ),
    decreases values.len() - i,
{
    if i < values.len() {
        lemma_literals_fit(values, fields, i + 1);
        assert((literal_check(values[i], fields[i].data_type) is Ok && width_check(values[i], fields[i]) is Ok)
            <==> value_fits(values[i], fields[i]));
        if !value_fits(values[i], fields[i]) {
            assert(!(forall|j: int| i <= j < values.len() ==> value_fits(#[trigger] values[j], fields[j])));
        }
    }
}

/// What an INSERT binds to: when its table is there, it binds exactly when
/// it gives one value per column and each value fits its column, and then to
/// the table's schema with the values as they are; a wrong number of values
/// is refused with both numbers.
pub proof fn lemma_insert_resolution<C: Catalog>(table: Seq<char>, values: Seq<LitV>, c: &C)
    ensures
        c.schema_named(table) is None ==> resolved_statement(StmtV::Insert { table, values }, c) == Err::<
            RStmtV,
            ErrorV,
        >(ErrorV::TableNotFound(table)),
        c.schema_named(table) matches Some(sc) ==> {
            &&& values.len() != sc.fields.len() ==> resolved_statement(StmtV::Insert { table, values }, c) == Err::<
                RStmtV,
                ErrorV,
            >(ErrorV::WrongColumnCount { expected: sc.fields.len() as usize, got: values.len() as usize })
            &&& values.len() == sc.fields.len() ==> (resolved_statement(StmtV::Insert { table, values }, c) is Ok
                <==> forall|j: int| 0 <= j < values.len() ==> value_fits(#[trigger] values[j], sc.fields[j]))
            &&& resolved_statement(StmtV::Insert { table, values }, c) is Ok ==> resolved_statement(
                StmtV::Insert { table, values },
                c,
            ) == Ok::<RStmtV, ErrorV>(RStmtV::Insert { schema: sc, values })
        },
{
    if let Some(sc) = c.schema_named(table) {
        if values.len() == sc.fields.len() {
            lemma_literals_fit(values, sc.fields, 0);
        }
    }
}

/// The joins bound in order; the first that does not bind gives the error.
pub open spec fn resolved_joins(js: Seq<JoinV>, schemas: Seq<SchemaV>) -> Result<Seq<RJoinV>, ErrorV>
    decreases js.len(),
{
    if js.len() == 0 {
        Ok(Seq::empty())
    } else {
        match resolved_join(js[0], schemas) {
            Err(e) => Err(e),
            Ok(j) => match resolved_joins(js.drop_first(), schemas) {
                Err(e) => Err(e),
                Ok(rest) => Ok(seq![j] + rest),
            },
        }
    }
}

/// The columns resolved in order; the first that does not resolve gives the error.
pub open spec fn resolved_columns(cs: Seq<QIdV>, schemas: Seq<SchemaV>) -> Result<Seq<FieldV>, ErrorV>
    decreases cs.len(),
{
    if cs.len() == 0 {
        Ok(Seq::empty())
    } else {
        match column_in(schemas, cs[0]) {
            Err(e) => Err(e),
            Ok(f) => match resolved_columns(cs.drop_first(), schemas) {
                Err(e) => Err(e),
                Ok(rest) => Ok(seq![f] + rest),
            },
        }
    }
}

/// An optional expression bound to the schemas.
pub open spec fn resolved_filter(f: Option<ExprV>, schemas: Seq<SchemaV>) -> Result<Option<RExprV>, ErrorV> {
    match f {
        None => Ok(None),
        Some(e) => match resolved_expr(e, schemas) {
            Ok((r, _)) => Ok(Some(r)),
            Err(err) => Err(err),
        },
    }
}

/// An optional column resolved against the schemas.
pub open spec fn resolved_order(o: Option<QIdV>, schemas: Seq<SchemaV>) -> Result<Option<FieldV>, ErrorV> {
    match o {
        None => Ok(None),
        Some(id) => match column_in(schemas, id) {
            Ok(f) => Ok(Some(f)),
            Err(err) => Err(err),
        },
    }
}

/// The schemas in scope of a select: its table's, then those of its joins.
pub open spec fn scope_of(schema: SchemaV, joins: Seq<RJoinV>) -> Seq<SchemaV> {
    seq![schema] + joins.map_values(|j: RJoinV| j.schema)
}

/// A statement bound to the catalog's schemas, or the first reason it
/// does not bind.
pub open spec fn resolved_statement<C: Catalog>(s: StmtV, c: &C) -> Result<RStmtV, ErrorV> {
    match s {
        StmtV::Insert { table, values } => match c.schema_named(table) {
            None => Err(ErrorV::TableNotFound(table)),
            Some(sc) => if values.len() != sc.fields.len() {
                Err(ErrorV::WrongColumnCount { expected: sc.fields.len() as usize, got: values.len() as usize })
            } else {
                match literals_check(values, sc.fields, 0) {
                    Err(e) => Err(e),
                    Ok(()) => Ok(RStmtV::Insert { schema: sc, values }),
                }
            },
        },
        StmtV::Select { table, columns, joins, filter, limit, offset, order_by } => match c.schema_named(table) {
            None => Err(ErrorV::TableNotFound(table)),
            Some(sc) => match resolved_joins(joins, c.schema_list()) {
                Err(e) => Err(e),
                Ok(rj) => match resolved_columns(columns, scope_of(sc, rj)) {
                    Err(e) => Err(e),
                    Ok(cols) => match resolved_filter(filter, scope_of(sc, rj)) {
                        Err(e) => Err(e),
                        Ok(f) => match resolved_order(order_by, scope_of(sc, rj)) {
                            Err(e) => Err(e),
                            Ok(o) => Ok(
                                RStmtV::Select {
                                    schema: sc,
                                    columns: cols,
                                    joins: rj,
                                    filter: f,
                                    limit,
                                    offset,
                                    order_by: o,
                                },
                            ),
                        },
                    },
                },
            },
        },
        StmtV::Delete { table, filter } => match c.schema_named(table) {
            None => Err(ErrorV::TableNotFound(table)),
            Some(sc) => match resolved_filter(filter, seq![sc]) {
                Err(e) => Err(e),
                Ok(f) => Ok(RStmtV::Delete { schema: sc, filter: f }),
            },
        },
    }
}

fn resolve_optional(f: Option<Box<Expression>>, schemas: &[Schema]) -> (r: Result<Option<ResolvedExpression>, Error>)
    ensures
        match r {
            Ok(x) => resolved_filter(opt_expr_view(f), schema_seq(schemas@)) == Ok::<Option<RExprV>, ErrorV>(
                opt_rexpr_view(x),
            ),
            Err(e) => resolved_filter(opt_expr_view(f), schema_seq(schemas@)) == Err::<Option<RExprV>, ErrorV>(e@),
        },
{
    match f {
        None => Ok(None),
        Some(e) => match resolve_expression(e, schemas) {
            Ok(x) => Ok(Some(x)),
            Err(err) => Err(err),
        },
    }
}

fn resolve_order(o: Option<QualifiedIdentifier>, schemas: &[Schema]) -> (r: Result<Option<Field>, Error>)
    ensures
        match r {
            Ok(x) => resolved_order(opt_qid_view(o), schema_seq(schemas@)) == Ok::<Option<FieldV>, ErrorV>(
                match x {
                    Some(f) => Some(f@),
                    None => None,
                },
            ),
            Err(e) => resolved_order(opt_qid_view(o), schema_seq(schemas@)) == Err::<Option<FieldV>, ErrorV>(e@),
        },
{
    match o {
        None => Ok(None),
        Some(id) => match resolve_column(&id, schemas) {
            Ok(f) => Ok(Some(f)),
            Err(err) => Err(err),
        },
    }
}

/// Whether text fits the width of a text column: a `Varchar(n)` column is
/// a text field of `n` bytes, and longer text is refused.
pub open spec fn width_check(l: LitV, f: FieldV) -> Result<(), ErrorV> {
    match (l, f.data_type, f.size) {
        (LitV::Utf8(s), DataType::Utf8, Some(n)) => if encode_utf8(s).len() as usize <= n {
            Ok(())
        } else {
            Err(ErrorV::VarcharTooLong { max: n, got: encode_utf8(s).len() as usize })
        },
        _ => Ok(()),
    }
}

/// Checks that text fits the width of the text column `field`.
fn check_width(value: &Literal, field: &Field) -> (r: Result<(), Error>)
    ensures
        match r {
            Ok(()) => width_check(value@, field@) is Ok,
            Err(e) => width_check(value@, field@) == Err::<(), ErrorV>(e@),
        },
{
    match (value, &field.data_type, field.size) {
        (Literal::Utf8(s), DataType::Utf8, Some(n)) => {
            let len = s.as_str().len();
            if len <= n {
                Ok(())
            } else {
                Err(Error::VarcharTooLong { max: n, got: len })
            }
        },
        _ => Ok(()),
    }
}

/// Checks each literal against the column at its place.
fn check_values(values: &Vec<Literal>, fields: &Vec<Field>) -> (r: Result<(), Error>)
    requires
        values@.len() == fields@.len(),
    ensures
        match r {
            Ok(()) => literals_check(values@.map_values(|l: Literal| l@), crate::schema::field_views(fields@), 0) is Ok,
            Err(e) => literals_check(values@.map_values(|l: Literal| l@), crate::schema::field_views(fields@), 0)
                == Err::<(), ErrorV>(e@),
        },
{
    let ghost lv = values@.map_values(|l: Literal| l@);
    let ghost fv = crate::schema::field_views(fields@);
    let mut i: usize = 0;
    while i < values.len()
        invariant
            0 <= i <= values@.len(),
            values@.len() == fields@.len(),
            lv == values@.map_values(|l: Literal| l@),
            fv == crate::schema::field_views(fields@),
            literals_check(lv, fv, 0) == literals_check(lv, fv, i as int),
        decreases values@.len() - i,
    {
        proof {
            assert(lv[i as int] == values@[i as int]@);
            assert(fv[i as int] == fields@[i as int]@);
        }
        match check_value(&values[i], &fields[i].data_type) {
            Ok(()) => {},
            Err(e) => return Err(e),
        }
        match check_width(&values[i], &fields[i]) {
            Ok(()) => {},
            Err(e) => return Err(e),
        }
        i = i + 1;
    }
    Ok(())
}

/// Binds the columns in order to the schemas in scope.
fn resolve_columns(cs: &Vec<QualifiedIdentifier>, schemas: &[Schema]) -> (r: Result<Vec<Field>, Error>)
    ensures
        match r {
            Ok(v) => resolved_columns(cs@.map_values(|q: QualifiedIdentifier| q@), schema_seq(schemas@)) == Ok::<
                Seq<FieldV>,
                ErrorV,
            >(v@.map_values(|f: Field| f@)),
            Err(e) => resolved_columns(cs@.map_values(|q: QualifiedIdentifier| q@), schema_seq(schemas@)) == Err::<
                Seq<FieldV>,
                ErrorV,
            >(e@),
        },
{
    let ghost qv = cs@.map_values(|q: QualifiedIdentifier| q@);
    let ghost sv = schema_seq(schemas@);
    let mut out: Vec<Field> = Vec::new();
    let mut i: usize = 0;
    proof {
        assert(qv.skip(0) =~= qv);
        assert(out@.map_values(|f: Field| f@) =~= Seq::<FieldV>::empty());
        assert forall|rest: Seq<FieldV>| #[trigger] (Seq::<FieldV>::empty() + rest) =~= rest by {}
    }
    while i < cs.len()
        invariant
            0 <= i <= cs@.len(),
            qv == cs@.map_values(|q: QualifiedIdentifier| q@),
            sv == schema_seq(schemas@),
            resolved_columns(qv, sv) == match resolved_columns(qv.skip(i as int), sv) {
                Ok(rest) => Ok::<Seq<FieldV>, ErrorV>(out@.map_values(|f: Field| f@) + rest),
                Err(e) => Err(e),
            },
        decreases cs@.len() - i,
    {
        proof {
            assert(qv.skip(i as int)[0] == cs@[i as int]@);
            assert(qv.skip(i as int).drop_first() =~= qv.skip(i + 1));
        }
        let f = match resolve_column(&cs[i], schemas) {
            Ok(f) => f,
            Err(e) => return Err(e),
        };
        let ghost o0 = out@.map_values(|f: Field| f@);
        let ghost fv = f@;
        out.push(f);
        proof {
            assert(out@.map_values(|f: Field| f@) =~= o0.push(fv));
            assert forall|rest: Seq<FieldV>| #[trigger] (o0 + (seq![fv] + rest)) =~= o0.push(fv) + rest by {}
        }
        i = i + 1;
    }
    proof {
        assert(qv.skip(i as int) =~= Seq::<QIdV>::empty());
        assert(out@.map_values(|f: Field| f@) + Seq::<FieldV>::empty() =~= out@.map_values(|f: Field| f@));
    }
    Ok(out)
}

/// The views of the joins.
pub open spec fn join_views(js: Seq<Join>) -> Seq<JoinV> {
    js.map_values(|j: Join| j@)
}

/// Binds the joins in order to the tables of `schemas`.
fn resolve_joins(joins: Vec<Join>, schemas: &[Schema]) -> (r: Result<Vec<ResolvedJoin>, Error>)
    ensures
        match r {
            Ok(v) => resolved_joins(join_views(joins@), schema_seq(schemas@)) == Ok::<
                Seq<RJoinV>,
                ErrorV,
            >(v@.map_values(|j: ResolvedJoin| j@)),
            Err(e) => resolved_joins(join_views(joins@), schema_seq(schemas@)) == Err::<
                Seq<RJoinV>,
                ErrorV,
            >(e@),
        },
{
    let ghost jv = join_views(joins@);
    let ghost j0 = joins@;
    let ghost sv = schema_seq(schemas@);
    let mut rest = joins;
    let mut out: Vec<ResolvedJoin> = Vec::new();
    let ghost mut i: int = 0;
    proof {
        assert(jv.skip(0) =~= jv);
        assert(out@.map_values(|j: ResolvedJoin| j@) =~= Seq::<RJoinV>::empty());
        assert forall|tail: Seq<RJoinV>| #[trigger] (Seq::<RJoinV>::empty() + tail) =~= tail by {}
    }
    while rest.len() > 0
        invariant
            0 <= i <= jv.len(),
            jv == join_views(j0),
            j0 == joins@,
            join_views(rest@) == jv.skip(i),
            sv == schema_seq(schemas@),
            resolved_joins(jv, sv) == match resolved_joins(jv.skip(i), sv) {
                Ok(tail) => Ok::<Seq<RJoinV>, ErrorV>(out@.map_values(|j: ResolvedJoin| j@) + tail),
                Err(e) => Err(e),
            },
        decreases rest@.len(),
    {
        let ghost r0 = rest@;
        let j = rest.remove(0);
        proof {
            assert(jv.skip(i)[0] == r0[0]@);
            assert(jv.skip(i)[0] == j@);
            assert(jv.skip(i).drop_first() =~= jv.skip(i + 1));
            assert(join_views(rest@) =~= jv.skip(i + 1)) by {
                assert(rest@ == r0.subrange(1, r0.len() as int));
                assert(join_views(r0) == jv.skip(i));
            }
        }
        let ghost jw = j@;
        let rj = match resolve_join(j, schemas) {
            Ok(x) => x,
            Err(e) => {
                proof {
                    assert(resolved_join(jw, sv) == Err::<RJoinV, ErrorV>(e@));
                    assert(jv.skip(i).len() > 0);
                    assert(resolved_joins(jv.skip(i), sv) == Err::<Seq<RJoinV>, ErrorV>(e@));
                    assert(resolved_joins(jv, sv) == Err::<Seq<RJoinV>, ErrorV>(e@));
                }
                return Err(e);
            },
        };
        let ghost o0 = out@.map_values(|j: ResolvedJoin| j@);
        let ghost rv = rj@;
        out.push(rj);
        proof {
            assert(out@.map_values(|j: ResolvedJoin| j@) =~= o0.push(rv));
            assert forall|tail: Seq<RJoinV>| #[trigger] (o0 + (seq![rv] + tail)) =~= o0.push(rv) + tail by {}
            i = i + 1;
        }
    }
    proof {
        assert(jv.skip(i).len() == 0);
        assert(jv.skip(i) =~= Seq::<JoinV>::empty());
        assert(out@.map_values(|j: ResolvedJoin| j@) + Seq::<RJoinV>::empty() =~= out@.map_values(|j: ResolvedJoin| j@));
    }
    Ok(out)
}

/// Binds a statement to the schemas of the catalog: its table must exist,
/// an insert must give a fitting literal for each column, and every column
/// and expression of a select or delete must bind to the tables in scope.
pub fn resolve<C: Catalog>(stmt: Statement, catalog: &C) -> (r: Result<ResolvedStatement, Error>)
    ensures
        match r {
            Ok(s) => resolved_statement(stmt@, catalog) == Ok::<RStmtV, ErrorV>(s@),
            Err(e) => resolved_statement(stmt@, catalog) == Err::<RStmtV, ErrorV>(e@),
        },
{
    match stmt {
        Statement::Insert { table, values } => {
            let schema = match catalog.get_schema(table.as_str()) {
                Some(s) => s,
                None => return Err(Error::TableNotFound(table)),
            };
            if values.len() != schema.fields.len() {
                return Err(Error::WrongColumnCount { expected: schema.fields.len(), got: values.len() });
            }
            match check_values(&values, &schema.fields) {
                Ok(()) => {},
                Err(e) => return Err(e),
            }
            Ok(ResolvedStatement::Insert { schema, values })
        },
        Statement::Select { table, columns, joins, filter, limit, offset, order_by } => {
            let schema = match catalog.get_schema(table.as_str()) {
                Some(s) => s,
                None => return Err(Error::TableNotFound(table)),
            };
            let all_schemas = catalog.get_schemas();
            let res_joins = match resolve_joins(joins, all_schemas.as_slice()) {
                Ok(v) => v,
                Err(e) => return Err(e),
            };
            let mut available_schemas: Vec<Schema> = Vec::new();
            available_schemas.push(schema.copy());
            let mut k: usize = 0;
            while k < res_joins.len()
                invariant
                    0 <= k <= res_joins@.len(),
                    schema_seq(available_schemas@) =~= seq![schema@] + res_joins@.take(k as int).map_values(
                        |j: ResolvedJoin| j@.schema,
                    ),
                decreases res_joins@.len() - k,
            {
                let c = res_joins[k].schema.copy();
                let ghost a0 = available_schemas@;
                available_schemas.push(c);
                proof {
                    assert(schema_seq(available_schemas@) =~= schema_seq(a0).push(c@));
                    assert(res_joins@.take(k + 1).map_values(|j: ResolvedJoin| j@.schema) =~= res_joins@.take(
                        k as int,
                    ).map_values(|j: ResolvedJoin| j@.schema).push(res_joins@[k as int]@.schema));
                }
                k = k + 1;
            }
            proof {
                assert(res_joins@.take(k as int) =~= res_joins@);
                assert(res_joins@.map_values(|j: ResolvedJoin| j@.schema) =~= res_joins@.map_values(
                    |j: ResolvedJoin| j@,
                ).map_values(|j: RJoinV| j.schema));
            }
            let res_columns = match resolve_columns(&columns, available_schemas.as_slice()) {
                Ok(v) => v,
                Err(e) => return Err(e),
            };
            let filter = match resolve_optional(filter, available_schemas.as_slice()) {
                Ok(f) => f,
                Err(e) => return Err(e),
            };
            let order_by = match resolve_order(order_by, available_schemas.as_slice()) {
                Ok(o) => o,
                Err(e) => return Err(e),
            };
            Ok(
                ResolvedStatement::Select {
                    schema,
                    columns: res_columns,
                    joins: res_joins,
                    filter,
                    limit,
                    offset,
                    order_by,
                },
            )
        },
        Statement::Delete { table, filter } => {
            let schema = match catalog.get_schema(table.as_str()) {
                Some(s) => s,
                None => return Err(Error::TableNotFound(table)),
            };
            let mut scope: Vec<Schema> = Vec::new();
            scope.push(schema.copy());
            proof {
                assert(schema_seq(scope@) =~= seq![schema@]);
            }
            let filter = match resolve_optional(filter, scope.as_slice()) {
                Ok(f) => f,
                Err(e) => return Err(e),
            };
            Ok(ResolvedStatement::Delete { schema, filter })
        },
    }
}

} // verus!
