use nabu::ast::{Expression, Literal, Operator, Statement};
use nabu::error::Error;
use nabu::lexer::LexerContext;
use nabu::parser::ParserContext;

fn parse_expr(input: &str) -> Result<Expression, Error> {
    let tokens = LexerContext::lex(input).unwrap();
    let mut parser = ParserContext { tokens: &tokens, position: 0 };
    parser.parse_expression()
}

fn number(lit: &Literal) -> Option<f64> {
    match lit {
        Literal::Float64(text) => text.parse::<f64>().ok(),
        _ => None,
    }
}

#[test]
fn parser_test_parse_insert() {
    let tokens = LexerContext::lex("INSERT (1, 2) INTO users").unwrap();
    let stmt = ParserContext::parse(&tokens).unwrap();
    assert!(matches!(stmt, Statement::Insert { table: _, values: _ }));
}

#[test]
fn parser_test_parse_insert_with_string() {
    let tokens = LexerContext::lex("INSERT (1, \"hello\") INTO users").unwrap();
    let stmt = ParserContext::parse(&tokens).unwrap();
    if let Statement::Insert { table, values } = stmt {
        assert_eq!(values.len(), 2);
        assert_eq!(table, "users");
    } else {
        panic!("Expected Insert statement");
    }
}

#[test]
fn parser_test_parse_insert_missing_into() {
    let tokens = LexerContext::lex("INSERT (1, 2) users").unwrap();
    let result = ParserContext::parse(&tokens);
    assert!(result.is_err());
}

#[test]
fn parser_test_parse_expr_number() {
    let expr = parse_expr("42").unwrap();
    assert!(matches!(&expr, Expression::Literal(lit) if number(lit) == Some(42.0)));
}

#[test]
fn parser_test_parse_expr_string() {
    let expr = parse_expr("\"hello\"").unwrap();
    assert!(matches!(expr, Expression::Literal(Literal::Utf8(s)) if s == "hello"));
}

#[test]
fn parser_test_parse_expr_identifier() {
    let expr = parse_expr("age").unwrap();
    assert!(matches!(expr, Expression::Identifier(id) if id.name == "age"));
}

#[test]
fn parser_test_parse_expr_binary_eq() {
    let expr = parse_expr("age == 25").unwrap();
    assert!(matches!(expr, Expression::BinaryOp { op: Operator::Eq, .. }));
}

#[test]
fn parser_test_parse_expr_binary_and() {
    let expr = parse_expr("age == 25 && name == \"alice\"").unwrap();
    assert!(matches!(expr, Expression::BinaryOp { op: Operator::And, .. }));
}

#[test]
fn parser_test_parse_expr_precedence() {
    let expr = parse_expr("1 + 2 * 3").unwrap();
    if let Expression::BinaryOp { op, lhs, rhs } = expr {
        assert!(matches!(op, Operator::Add));
        assert!(matches!(&*lhs, Expression::Literal(lit) if number(lit) == Some(1.0)));
        assert!(matches!(*rhs, Expression::BinaryOp { op: Operator::Mul, .. }));
    } else {
        panic!("Expected BinaryOp");
    }
}

#[test]
fn parser_test_parse_expr_parens() {
    let expr = parse_expr("(1 + 2) * 3").unwrap();
    if let Expression::BinaryOp { op, lhs, rhs } = expr {
        assert!(matches!(op, Operator::Mul));
        assert!(matches!(*lhs, Expression::BinaryOp { op: Operator::Add, .. }));
        assert!(matches!(&*rhs, Expression::Literal(lit) if number(lit) == Some(3.0)));
    } else {
        panic!("Expected BinaryOp");
    }
}

#[test]
fn parse_select_with_clauses() {
    let tokens = LexerContext::lex("SELECT name, age FROM users WHERE age > 30 LIMIT 5").unwrap();
    let stmt = ParserContext::parse(&tokens).unwrap();
    if let Statement::Select { table, columns, joins, filter, limit, offset, order_by } = stmt {
        assert_eq!(table, "users");
        assert_eq!(columns.len(), 2);
        assert_eq!(columns[0].name, "name");
        assert!(joins.is_empty());
        assert!(matches!(filter.as_deref(), Some(Expression::BinaryOp { op: Operator::Gt, .. })));
        assert_eq!(limit, Some(5));
        assert_eq!(offset, None);
        assert!(order_by.is_none());
    } else {
        panic!("Expected Select statement");
    }
}

#[test]
fn parse_delete_without_filter() {
    let tokens = LexerContext::lex("DELETE FROM users").unwrap();
    let stmt = ParserContext::parse(&tokens).unwrap();
    assert!(matches!(stmt, Statement::Delete { ref table, filter: None } if table == "users"));
}

#[test]
fn parse_empty_input_fails() {
    let tokens = LexerContext::lex("").unwrap();
    assert!(matches!(ParserContext::parse(&tokens), Err(Error::Parse(_))));
}

#[test]
fn lex_unterminated_string() {
    let result = LexerContext::lex("SELECT \"abc");
    assert!(matches!(result, Err(Error::UnterminatedString { .. })));
}

#[test]
fn lex_invalid_character() {
    let result = LexerContext::lex("SELECT $");
    assert!(matches!(result, Err(Error::InvalidCharacter { ch: '$', row: 1, col: 8 })));
}

fn parse_message(input: &str) -> String {
    let tokens = LexerContext::lex(input).unwrap();
    match ParserContext::parse(&tokens) {
        Err(Error::Parse(m)) => m,
        other => panic!("expected a parse error, got {:?}", other),
    }
}

#[test]
fn missing_into_names_the_offending_token() {
    assert_eq!(
        parse_message("INSERT (1, 2) users"),
        "Expected 'INTO' after 'VALUES' during 'INSERT' statement at 0:14 (got Identifier)"
    );
}

#[test]
fn clause_errors_have_their_messages() {
    assert_eq!(parse_message("SELECT * FROM t WHERE a == 1 WHERE b == 2"), "Duplicate WHERE clause");
    assert_eq!(parse_message("SELECT * FROM t LIMIT 1 LIMIT 2"), "Duplicate LIMIT clause");
    assert_eq!(parse_message("DELETE FROM t JOIN u ON a == b"), "JOIN not allowed in this statement");
    assert_eq!(parse_message("SELECT * FROM t LIMIT x"), "Expected number after LIMIT at 0:22 (got Identifier)");
    assert_eq!(parse_message("SELECT * FROM t ORDER BY"), "Expected column after ORDER BY");
    assert_eq!(parse_message("UPDATE t"), "Unexpected token: Identifier");
}

#[test]
fn lexemes_rebuild_the_input_without_whitespace() {
    let tokens = LexerContext::lex("x ORDER\n  BY y # note\n\"a b\"").unwrap();
    let text: String = tokens
        .iter()
        .map(|t| match t.tag {
            nabu::lexer::TokenType::String => format!("\"{}\"", t.lexeme),
            _ => t.lexeme.clone(),
        })
        .collect();
    assert_eq!(text, "xORDERBYy\"a b\"");
    assert!(matches!(tokens[1].tag, nabu::lexer::TokenType::OrderBy));
    assert_eq!((tokens[1].row, tokens[1].column), (0, 2));
    assert_eq!(tokens[1].lexeme, "ORDERBY");
    assert_eq!((tokens[2].row, tokens[2].column), (1, 5));
    assert_eq!((tokens[3].row, tokens[3].column), (2, 0));
}
