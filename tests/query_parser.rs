use search_lib::parser::parse;
use search_lib::query::{Operator, UserAST, UserFilter};

fn test_parse_query_to_ast_helper(query: &str, expected: &str) {
    let query = parse(query).ok().unwrap();
    assert_eq!(query.to_string(), expected);
}

#[test]
fn test_simplify() {
    let leaf = UserAST::Leaf(Box::new(UserFilter { field_name: None, phrase: "test".to_string(), levenshtein: None }));
    let ast = UserAST::Clause(Operator::Or, vec![UserAST::Clause(Operator::Or, vec![leaf])]);

    assert_eq!(ast.to_string(), "((\"test\"))");
    assert_eq!(ast.simplify().to_string(), "\"test\"");
}

#[test]
fn test_multi_spaces() {
    test_parse_query_to_ast_helper("a AND  b", "(\"a\" AND \"b\")");
}

#[test]
fn test_special_chars() {
    test_parse_query_to_ast_helper("die drei ???", "(\"die\" OR \"drei\" OR \"???\")");
    test_parse_query_to_ast_helper("a+", "\"a+\"");
}

#[test]
fn test_multi_and_to_flat() {
    test_parse_query_to_ast_helper("a AND b AND c", "(\"a\" AND \"b\" AND \"c\")");
}

#[test]
fn test_multi_or_to_flat() {
    test_parse_query_to_ast_helper("a OR b OR c", "(\"a\" OR \"b\" OR \"c\")");
}

#[test]
fn test_precedence_by_parentheses() {
    test_parse_query_to_ast_helper("(a AND b) OR c", "((\"a\" AND \"b\") OR \"c\")");
    test_parse_query_to_ast_helper("c OR (a AND b)", "(\"c\" OR (\"a\" AND \"b\"))");
}

#[test]
fn test_parse_query() {
    test_parse_query_to_ast_helper("a AND b", "(\"a\" AND \"b\")");
    test_parse_query_to_ast_helper("a:b", "a:\"b\"");
    test_parse_query_to_ast_helper("a:b OR c", "(a:\"b\" OR \"c\")");
    test_parse_query_to_ast_helper("a", "\"a\"");
    test_parse_query_to_ast_helper("食べる AND b", "(\"食べる\" AND \"b\")");

    //no precendence yet
    test_parse_query_to_ast_helper("a OR b AND c", "((\"a\" OR \"b\") AND \"c\")");
}

#[test]
fn test_parse_multi_literals() {
    test_parse_query_to_ast_helper("a b", "(\"a\" OR \"b\")");
    test_parse_query_to_ast_helper("\"a b\"", "\"a b\"");
    test_parse_query_to_ast_helper("feld:10 b", "(feld:\"10\" OR \"b\")");
}

#[test]
fn test_parse_levenshtein() {
    test_parse_query_to_ast_helper("buch~2", "\"buch\"~2");
}

#[test]
fn test_parse_field_with_levenshtein() {
    test_parse_query_to_ast_helper("feld:buch~2", "feld:\"buch\"~2");
}

#[test]
fn parse_errors_carry_positions() {
    let err = parse("\"open").err().unwrap();
    assert_eq!(err.position, 0);
    let err = parse("(a AND b").err().unwrap();
    assert_eq!(err.position, 8);
    let err = parse("a AND").err().unwrap();
    assert_eq!(err.position, 1);
}

#[test]
fn simplify_after_parse_is_stable_on_flat_results() {
    let once = parse("(a OR b) OR (c AND d)").ok().unwrap().simplify();
    let text = once.to_string();
    assert_eq!(text, "(\"a\" OR \"b\" OR (\"c\" AND \"d\"))");
    assert_eq!(once.simplify().to_string(), text);
}

#[test]
fn simplify_flattens_deep_same_operator_nesting() {
    let once = parse("(a OR b) OR ((c OR d) OR (e OR f))").ok().unwrap().simplify();
    assert_eq!(once.to_string(), "(\"a\" OR \"b\" OR \"c\" OR \"d\" OR \"e\" OR \"f\")");
    let text = once.to_string();
    assert_eq!(once.simplify().to_string(), text);
}

#[test]
fn simplify_lifts_after_collapsing_single_children() {
    let leaf = |p: &str| UserAST::Leaf(Box::new(UserFilter { field_name: None, phrase: p.to_string(), levenshtein: None }));
    let ast = UserAST::Clause(
        Operator::Or,
        vec![UserAST::Clause(Operator::And, vec![UserAST::Clause(Operator::Or, vec![leaf("a"), leaf("b")])]), leaf("c")],
    );
    assert_eq!(ast.simplify().to_string(), "(\"a\" OR \"b\" OR \"c\")");
}

#[test]
fn empty_queries_are_errors() {
    assert_eq!(parse("").err().unwrap().position, 0);
    assert_eq!(parse("()").err().unwrap().position, 1);
    assert_eq!(parse("AND").err().unwrap().position, 0);
    assert_eq!(parse("buch~x").err().unwrap().position, 4);
}
