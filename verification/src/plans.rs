use vstd::prelude::*;

use crate::ast::{JoinKind, LitV, Literal};
use crate::error::{Error, ErrorV};
use crate::field::{Field, FieldV};
use crate::query::{opt_rexpr_view, rexpr_view, RExprV, RJoinV, RStmtV, ResolvedExpression, ResolvedJoin, ResolvedStatement};
use crate::schema::{Schema, SchemaExt, SchemaV};

verus! {

/// A tree of relational operators that computes a statement.
#[derive(Debug)]
pub enum LogicalPlan {
    Scan { table_name: String, schema: Schema, projection: Option<Vec<usize>> },
    Insert { table_name: String, schema: Schema, values: Vec<Literal> },
    Filter { predicate: ResolvedExpression, input: Box<LogicalPlan> },
    Projection { expr: Vec<ResolvedExpression>, input: Box<LogicalPlan> },
    Join { left: Box<LogicalPlan>, right: Box<LogicalPlan>, on: ResolvedExpression, join_type: JoinKind },
    Sort { by: Vec<(ResolvedExpression, bool)>, input: Box<LogicalPlan> },
    Limit { limit: Option<usize>, offset: Option<usize>, input: Box<LogicalPlan> },
}

pub ghost enum PlanV {
    Scan { table_name: Seq<char>, schema: SchemaV, projection: Option<Seq<usize>> },
    Insert { table_name: Seq<char>, schema: SchemaV, values: Seq<LitV> },
    Filter { predicate: RExprV, input: Box<PlanV> },
    Projection { expr: Seq<RExprV>, input: Box<PlanV> },
    Join { left: Box<PlanV>, right: Box<PlanV>, on: RExprV, join_type: JoinKind },
    Sort { by: Seq<(RExprV, bool)>, input: Box<PlanV> },
    Limit { limit: Option<usize>, offset: Option<usize>, input: Box<PlanV> },
}

pub open spec fn plan_view(p: LogicalPlan) -> PlanV
    decreases p,
{
    match p {
        LogicalPlan::Scan { table_name, schema, projection } => PlanV::Scan {
            table_name: table_name@,
            schema: schema@,
            projection: match projection {
                Some(v) => Some(v@),
                None => None,
            },
        },
        LogicalPlan::Insert { table_name, schema, values } => PlanV::Insert {
            table_name: table_name@,
            schema: schema@,
            values: values@.map_values(|l: Literal| l@),
        },
        LogicalPlan::Filter { predicate, input } => PlanV::Filter {
            predicate: rexpr_view(predicate),
            input: Box::new(plan_view(*input)),
        },
        LogicalPlan::Projection { expr, input } => PlanV::Projection {
            expr: expr@.map_values(|e: ResolvedExpression| rexpr_view(e)),
            input: Box::new(plan_view(*input)),
        },
        LogicalPlan::Join { left, right, on, join_type } => PlanV::Join {
            left: Box::new(plan_view(*left)),
            right: Box::new(plan_view(*right)),
            on: rexpr_view(on),
            join_type,
        },
        LogicalPlan::Sort { by, input } => PlanV::Sort {
            by: by@.map_values(|b: (ResolvedExpression, bool)| (rexpr_view(b.0), b.1)),
            input: Box::new(plan_view(*input)),
        },
        LogicalPlan::Limit { limit, offset, input } => PlanV::Limit {
            limit,
            offset,
            input: Box::new(plan_view(*input)),
        },
    }
}

impl View for LogicalPlan {
    type V = PlanV;

    open spec fn view(&self) -> PlanV {
        plan_view(*self)
    }
}

/// A scan of a whole table.
pub open spec fn scan(name: Seq<char>, schema: SchemaV) -> PlanV {
    PlanV::Scan { table_name: name, schema, projection: None }
}

/// `root` joined in order with the tables of the joins; a joined table
/// whose schema has no table name cannot be scanned.
pub open spec fn joined_plan(root: PlanV, js: Seq<RJoinV>) -> Result<PlanV, ErrorV>
    decreases js.len(),
{
    if js.len() == 0 {
        Ok(root)
    } else {
        match js[0].schema.table_name {
            None => Err(ErrorV::Parse(Seq::empty())),
            Some(n) => joined_plan(
                PlanV::Join {
                    left: Box::new(root),
                    right: Box::new(scan(n, js[0].schema)),
                    on: js[0].on,
                    join_type: js[0].kind,
                },
                js.drop_first(),
            ),
        }
    }
}

/// The plan above the scans and joins of a select: its filter, the
/// projection of its columns, its sort (by one column, descending) and its
/// limit and offset.
pub open spec fn select_top(
    root: PlanV,
    columns: Seq<FieldV>,
    filter: Option<RExprV>,
    limit: Option<usize>,
    offset: Option<usize>,
    order_by: Option<FieldV>,
) -> PlanV {
    let filtered = match filter {
        Some(f) => PlanV::Filter { predicate: f, input: Box::new(root) },
        None => root,
    };
    let projected = PlanV::Projection {
        expr: columns.map_values(|c: FieldV| RExprV::Column(c)),
        input: Box::new(filtered),
    };
    let sorted = match order_by {
        Some(s) => PlanV::Sort { by: seq![(RExprV::Column(s), false)], input: Box::new(projected) },
        None => projected,
    };
    if limit is Some || offset is Some {
        PlanV::Limit { limit, offset, input: Box::new(sorted) }
    } else {
        sorted
    }
}

/// The plan of a resolved statement; its table needs a name.
pub open spec fn planned(s: RStmtV) -> Result<PlanV, ErrorV> {
    let schema = match s {
        RStmtV::Insert { schema, .. } => schema,
        RStmtV::Select { schema, .. } => schema,
        RStmtV::Delete { schema, .. } => schema,
    };
    match schema.table_name {
        None => Err(ErrorV::Parse(Seq::empty())),
        Some(name) => match s {
            RStmtV::Select { columns, joins, filter, limit, offset, order_by, .. } => match joined_plan(
                scan(name, schema),
                joins,
            ) {
                Err(e) => Err(e),
                Ok(root) => Ok(select_top(root, columns, filter, limit, offset, order_by)),
            },
            RStmtV::Delete { filter, .. } => Ok(
                match filter {
                    Some(f) => PlanV::Filter { predicate: f, input: Box::new(scan(name, schema)) },
                    None => scan(name, schema),
                },
            ),
            RStmtV::Insert { values, .. } => Ok(PlanV::Insert { table_name: name, schema, values }),
        },
    }
}

/// The predicates of the filters of a plan, from the top down and left to right.
pub open spec fn filters_of(p: PlanV) -> Seq<RExprV>
    decreases p,
{
    match p {
        PlanV::Scan { .. } => seq![],
        PlanV::Insert { .. } => seq![],
        PlanV::Filter { predicate, input } => seq![predicate] + filters_of(*input),
        PlanV::Projection { input, .. } => filters_of(*input),
        PlanV::Sort { input, .. } => filters_of(*input),
        PlanV::Limit { input, .. } => filters_of(*input),
        PlanV::Join { left, right, .. } => filters_of(*left) + filters_of(*right),
    }
}

/// The filter of a statement, if it has one, as a sequence.
pub open spec fn filter_seq(f: Option<RExprV>) -> Seq<RExprV> {
    match f {
        Some(x) => seq![x],
        None => seq![],
    }
}

proof fn lemma_joined_filters(root: PlanV, js: Seq<RJoinV>)
    ensures
        joined_plan(root, js) matches Ok(q) ==> filters_of(q) == filters_of(root),
    decreases js.len(),
{
    if js.len() > 0 {
        if let Some(n) = js[0].schema.table_name {
            let j = PlanV::Join {
                left: Box::new(root),
                right: Box::new(scan(n, js[0].schema)),
                on: js[0].on,
                join_type: js[0].kind,
            };
            lemma_joined_filters(j, js.drop_first());
            assert(filters_of(scan(n, js[0].schema)) =~= Seq::<RExprV>::empty());
            assert(filters_of(j) =~= filters_of(root));
        }
    }
}

/// A plan keeps its statement's filter and no other: the predicates of its
/// filters are exactly the statement's filter, if it has one. The plan of a
/// DELETE is the filter, when there is one, directly over the scan of its table.
pub proof fn lemma_plan_filters(s: RStmtV)
    ensures
        planned(s) matches Ok(p) ==> filters_of(p) == match s {
            RStmtV::Select { filter, .. } => filter_seq(filter),
            RStmtV::Delete { filter, .. } => filter_seq(filter),
            RStmtV::Insert { .. } => Seq::<RExprV>::empty(),
        },
        s matches RStmtV::Delete { schema, filter } ==> (schema.table_name matches Some(n) ==> planned(s)
            == Ok::<PlanV, ErrorV>(
            match filter {
                Some(f) => PlanV::Filter {
                    predicate: f,
                    input: Box::new(PlanV::Scan { table_name: n, schema, projection: None }),
                },
                None => PlanV::Scan { table_name: n, schema, projection: None },
            },
        )),
{
    match s {
        RStmtV::Select { schema, columns, joins, filter, limit, offset, order_by } => {
            if let Some(name) = schema.table_name {
                let root = scan(name, schema);
                lemma_joined_filters(root, joins);
                if let Ok(j) = joined_plan(root, joins) {
                    assert(filters_of(root) =~= Seq::<RExprV>::empty());
                    let filtered = match filter {
                        Some(f) => PlanV::Filter { predicate: f, input: Box::new(j) },
                        None => j,
                    };
                    assert(filters_of(filtered) =~= filter_seq(filter));
                    let projected = PlanV::Projection {
                        expr: columns.map_values(|c: FieldV| RExprV::Column(c)),
                        input: Box::new(filtered),
                    };
                    assert(filters_of(projected) == filters_of(filtered));
                    let sorted = match order_by {
                        Some(o) => PlanV::Sort { by: seq![(RExprV::Column(o), false)], input: Box::new(projected) },
                        None => projected,
                    };
                    assert(filters_of(sorted) == filters_of(filtered));
                    assert(select_top(j, columns, filter, limit, offset, order_by) == (if limit is Some || offset is Some {
                        PlanV::Limit { limit, offset, input: Box::new(sorted) }
                    } else {
                        sorted
                    }));
                }
            }
        },
        RStmtV::Delete { schema, filter } => {
            if let Some(name) = schema.table_name {
                assert(filters_of(scan(name, schema)) =~= Seq::<RExprV>::empty());
                match filter {
                    Some(f) => {
                        assert(filters_of(PlanV::Filter { predicate: f, input: Box::new(scan(name, schema)) })
                            =~= seq![f]);
                    },
                    None => {},
                }
            }
        },
        RStmtV::Insert { .. } => {},
    }
}

/// The tables a plan scans, left to right.
pub open spec fn scans_of(p: PlanV) -> Seq<Seq<char>>
    decreases p,
{
    match p {
        PlanV::Scan { table_name, .. } => seq![table_name],
        PlanV::Insert { .. } => seq![],
        PlanV::Filter { input, .. } => scans_of(*input),
        PlanV::Projection { input, .. } => scans_of(*input),
        PlanV::Sort { input, .. } => scans_of(*input),
        PlanV::Limit { input, .. } => scans_of(*input),
        PlanV::Join { left, right, .. } => scans_of(*left) + scans_of(*right),
    }
}

/// The names of the tables of joins.
pub open spec fn join_tables(js: Seq<RJoinV>) -> Seq<Seq<char>> {
    js.map_values(|j: RJoinV| j.schema.table_name->0)
}

proof fn lemma_joined_scans(root: PlanV, js: Seq<RJoinV>)
    ensures
        joined_plan(root, js) matches Ok(q) ==> scans_of(q) == scans_of(root) + join_tables(js),
    decreases js.len(),
{
    if js.len() == 0 {
        assert(join_tables(js) =~= Seq::<Seq<char>>::empty());
        assert(scans_of(root) + join_tables(js) =~= scans_of(root));
    } else if let Some(n) = js[0].schema.table_name {
        let j = PlanV::Join {
            left: Box::new(root),
            right: Box::new(scan(n, js[0].schema)),
            on: js[0].on,
            join_type: js[0].kind,
        };
        lemma_joined_scans(j, js.drop_first());
        assert(join_tables(js) =~= seq![n] + join_tables(js.drop_first()));
        assert(scans_of(scan(n, js[0].schema)) == seq![n]);
        assert(scans_of(j) == scans_of(root) + seq![n]);
        assert(scans_of(root) + seq![n] + join_tables(js.drop_first()) =~= scans_of(root) + join_tables(js));
    }
}

/// The plan of a SELECT: its limit and offset on top when it has either,
/// then its sort by the order column (descending) when it has one, then
/// the projection of its columns, over the filter and the scans of its
/// table and of its joined tables, in order.
pub proof fn lemma_select_plan(s: RStmtV)
    requires
        s is Select,
    ensures
        planned(s) matches Ok(p) ==> {
            let limited = s->Select_limit is Some || s->Select_offset is Some;
            let q = if p is Limit { *p->Limit_input } else { p };
            let r = if q is Sort { *q->Sort_input } else { q };
            &&& (p is Limit <==> limited)
            &&& p is Limit ==> p->Limit_limit == s->Select_limit && p->Limit_offset == s->Select_offset
            &&& (q is Sort <==> s->Select_order_by is Some)
            &&& (s->Select_order_by matches Some(o) ==> q->Sort_by == seq![(RExprV::Column(o), false)])
            &&& r is Projection
            &&& r->Projection_expr == s->Select_columns.map_values(|c: FieldV| RExprV::Column(c))
            &&& scans_of(p) == seq![s->Select_schema.table_name->0] + join_tables(s->Select_joins)
        },
{
    match s {
        RStmtV::Select { schema, columns, joins, filter, limit, offset, order_by } => {
            if let Some(name) = schema.table_name {
                let root = scan(name, schema);
                lemma_joined_scans(root, joins);
                if let Ok(j) = joined_plan(root, joins) {
                    let filtered = match filter {
                        Some(f) => PlanV::Filter { predicate: f, input: Box::new(j) },
                        None => j,
                    };
                    assert(scans_of(filtered) == scans_of(j));
                    let projected = PlanV::Projection {
                        expr: columns.map_values(|c: FieldV| RExprV::Column(c)),
                        input: Box::new(filtered),
                    };
                    let sorted = match order_by {
                        Some(o) => PlanV::Sort { by: seq![(RExprV::Column(o), false)], input: Box::new(projected) },
                        None => projected,
                    };
                    assert(scans_of(projected) == scans_of(filtered));
                    assert(scans_of(sorted) == scans_of(projected));
                }
            }
        },
        _ => {},
    }
}

/// The views of the joins.
pub open spec fn rjoin_views(js: Seq<ResolvedJoin>) -> Seq<RJoinV> {
    js.map_values(|j: ResolvedJoin| j@)
}

/// Joins `root` with the tables of `joins`, in order.
fn join_all(root: LogicalPlan, joins: Vec<ResolvedJoin>) -> (r: Result<LogicalPlan, Error>)
    ensures
        match r {
            Ok(p) => joined_plan(root@, rjoin_views(joins@)) == Ok::<PlanV, ErrorV>(p@),
            Err(e) => joined_plan(root@, rjoin_views(joins@)) == Err::<PlanV, ErrorV>(e@),
        },
{
    let ghost j0 = joins@;
    let ghost r0 = root@;
    let mut rest = joins;
    let mut acc = root;
    let ghost mut i: int = 0;
    proof {
        assert(rjoin_views(j0).skip(0) =~= rjoin_views(j0));
    }
    while rest.len() > 0
        invariant
            0 <= i <= j0.len(),
            j0 == joins@,
            r0 == root@,
            rjoin_views(rest@) == rjoin_views(j0).skip(i),
            joined_plan(r0, rjoin_views(j0)) == joined_plan(acc@, rjoin_views(j0).skip(i)),
        decreases rest@.len(),
    {
        let ghost jv = rjoin_views(j0).skip(i);
        let ghost rs0 = rest@;
        let j = rest.remove(0);
        proof {
            assert(jv[0] == j@);
            assert(jv.drop_first() =~= rjoin_views(j0).skip(i + 1));
            assert(rjoin_views(rest@) =~= rjoin_views(j0).skip(i + 1)) by {
                assert(rest@ == rs0.subrange(1, rs0.len() as int));
            }
        }
        let ghost a0 = acc@;
        let ghost jw = j@;
        let ResolvedJoin { kind, schema, on } = j;
        let name = match schema.table_name() {
            Some(n) => n.to_string(),
            None => {
                let empty = String::new();
                proof {
                    assert(empty@ =~= Seq::<char>::empty());
                }
                return Err(Error::Parse(empty));
            },
        };
        acc = LogicalPlan::Join {
            left: Box::new(acc),
            right: Box::new(LogicalPlan::Scan { table_name: name, schema, projection: None }),
            on,
            join_type: kind,
        };
        proof {
            assert(jw.schema.table_name == Some(name@));
            assert(jw.kind == kind);
            assert(acc is Join);
            assert(plan_view(*acc->Join_left) == a0);
            assert(plan_view(*acc->Join_right) == scan(name@, jw.schema));
            assert(rexpr_view(acc->Join_on) == jw.on);
            assert(acc@ == PlanV::Join {
                left: Box::new(a0),
                right: Box::new(scan(name@, jw.schema)),
                on: jw.on,
                join_type: jw.kind,
            });
            assert(joined_plan(a0, jv) == joined_plan(acc@, jv.drop_first()));
            i = i + 1;
        }
    }
    proof {
        assert(rjoin_views(j0).skip(i).len() == 0);
    }
    Ok(acc)
}

/// The plan of a resolved statement: a scan of its table, joined with the
/// tables of its joins, filtered, projected onto its columns, sorted and
/// limited for a select; a filtered scan for a delete; an insert of its
/// values otherwise. A table without a name cannot be scanned.
pub fn structure(stmt: ResolvedStatement) -> (r: Result<LogicalPlan, Error>)
    ensures
        match r {
            Ok(p) => planned(stmt@) == Ok::<PlanV, ErrorV>(p@),
            Err(e) => planned(stmt@) == Err::<PlanV, ErrorV>(e@),
        },
{
    proof {
        reveal_strlit("");
    }
    let ghost sv = stmt@;
    let table_name = {
        let schema = match &stmt {
            ResolvedStatement::Insert { schema, .. } => schema,
            ResolvedStatement::Delete { schema, .. } => schema,
            ResolvedStatement::Select { schema, .. } => schema,
        };
        match schema.table_name() {
            Some(n) => n.to_string(),
            None => {
                let empty = String::new();
                proof {
                    assert(empty@ =~= Seq::<char>::empty());
                }
                return Err(Error::Parse(empty));
            },
        }
    };
    match stmt {
        ResolvedStatement::Select { schema, columns, joins, filter, limit, offset, order_by } => {
            let lplan = LogicalPlan::Scan { table_name: table_name.clone(), schema, projection: None };
            proof {
                assert(rjoin_views(joins@) =~= sv->Select_joins);
                assert(lplan@ == scan(table_name@, sv->Select_schema));
            }
            let mut root = match join_all(lplan, joins) {
                Ok(p) => p,
                Err(e) => return Err(e),
            };
            let ghost r1 = root@;
            let ghost f1 = opt_rexpr_view(filter);
            proof {
                assert(f1 == sv->Select_filter);
            }
            match filter {
                Some(f) => {
                    root = LogicalPlan::Filter { predicate: f, input: Box::new(root) };
                },
                None => {},
            }
            let ghost r2 = root@;
            proof {
                assert(r2 == match f1 {
                    Some(f) => PlanV::Filter { predicate: f, input: Box::new(r1) },
                    None => r1,
                });
            }
            let mut expr: Vec<ResolvedExpression> = Vec::new();
            let mut k: usize = 0;
            while k < columns.len()
                invariant
                    0 <= k <= columns@.len(),
                    expr@.map_values(|e: ResolvedExpression| rexpr_view(e)) =~= columns@.take(k as int).map_values(
                        |f: Field| RExprV::Column(f@),
                    ),
                decreases columns@.len() - k,
            {
                let ghost e0 = expr@;
                expr.push(ResolvedExpression::Column(columns[k].copy()));
                proof {
                    assert(expr@.map_values(|e: ResolvedExpression| rexpr_view(e)) =~= e0.map_values(
                        |e: ResolvedExpression| rexpr_view(e),
                    ).push(RExprV::Column(columns@[k as int]@)));
                    assert(columns@.take(k + 1).map_values(|f: Field| RExprV::Column(f@)) =~= columns@.take(
                        k as int,
                    ).map_values(|f: Field| RExprV::Column(f@)).push(RExprV::Column(columns@[k as int]@)));
                }
                k = k + 1;
            }
            proof {
                assert(columns@.take(k as int) =~= columns@);
                assert(columns@.map_values(|f: Field| RExprV::Column(f@)) =~= sv->Select_columns.map_values(
                    |c: FieldV| RExprV::Column(c),
                ));
            }
            root = LogicalPlan::Projection { expr, input: Box::new(root) };
            let ghost r3 = root@;
            proof {
                assert(r3 == PlanV::Projection {
                    expr: sv->Select_columns.map_values(|c: FieldV| RExprV::Column(c)),
                    input: Box::new(r2),
                });
            }
            let ghost o1 = match &order_by {
                Some(f) => Some(f@),
                None => None,
            };
            proof {
                assert(o1 == sv->Select_order_by);
            }
            match order_by {
                Some(s) => {
                    let mut by: Vec<(ResolvedExpression, bool)> = Vec::new();
                    by.push((ResolvedExpression::Column(s), false));
                    proof {
                        assert(by@.map_values(|b: (ResolvedExpression, bool)| (rexpr_view(b.0), b.1)) =~= seq![
                            (RExprV::Column(s@), false),
                        ]);
                    }
                    root = LogicalPlan::Sort { by, input: Box::new(root) };
                },
                None => {},
            }
            let ghost r4 = root@;
            proof {
                assert(r4 == match o1 {
                    Some(s) => PlanV::Sort { by: seq![(RExprV::Column(s), false)], input: Box::new(r3) },
                    None => r3,
                });
            }
            if limit.is_some() || offset.is_some() {
                root = LogicalPlan::Limit { limit, offset, input: Box::new(root) };
            }
            proof {
                assert(root@ == select_top(r1, sv->Select_columns, sv->Select_filter, sv->Select_limit, sv->Select_offset, sv->Select_order_by));
                assert(sv->Select_schema.table_name == Some(table_name@));
                assert(joined_plan(scan(table_name@, sv->Select_schema), sv->Select_joins) == Ok::<PlanV, ErrorV>(r1));
                assert(planned(sv) == Ok::<PlanV, ErrorV>(root@));
            }
            Ok(root)
        },
        ResolvedStatement::Delete { schema, filter } => {
            let ghost f1 = opt_rexpr_view(filter);
            proof {
                assert(f1 == sv->Delete_filter);
                assert(schema@.table_name == Some(table_name@));
            }
            let mut root = LogicalPlan::Scan { table_name, schema, projection: None };
            let ghost r0 = root@;
            match filter {
                Some(f) => {
                    root = LogicalPlan::Filter { predicate: f, input: Box::new(root) };
                },
                None => {},
            }
            proof {
                assert(r0 == scan(sv->Delete_schema.table_name->0, sv->Delete_schema));
                assert(root@ == match f1 {
                    Some(f) => PlanV::Filter { predicate: f, input: Box::new(r0) },
                    None => r0,
                });
                assert(planned(sv) == Ok::<PlanV, ErrorV>(root@));
            }
            Ok(root)
        },
        ResolvedStatement::Insert { schema, values } => {
            let p = LogicalPlan::Insert { table_name, schema, values };
            proof {
                assert(planned(sv) == Ok::<PlanV, ErrorV>(p@));
            }
            Ok(p)
        },
    }
}

} // verus!
