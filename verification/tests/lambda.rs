use lambda_eval::ast::{AST, Stat};
use lambda_eval::eval::evaluate;
use lambda_eval::parser::{error_message, tokenize, Parser, Token};

fn var(s: &str) -> AST {
    AST::Var(s.to_string())
}

fn app(a: AST, b: AST) -> AST {
    AST::App(Box::new(a), Box::new(b))
}

fn abs(x: &str, b: AST) -> AST {
    AST::Abs(x.to_string(), Box::new(b))
}

fn parse(input: &str) -> Option<Stat> {
    let mut parser = Parser::new();
    parser.parse(&input.to_string())
}

#[test]
fn identity_is_already_normal() {
    assert_eq!(evaluate(&"\\x.x".to_string(), 1), "\\x.x");
}

#[test]
fn identity_applied_reduces_to_argument() {
    assert_eq!(evaluate(&"(\\x.x) y".to_string(), 1), "y");
}

#[test]
fn self_application_times_out() {
    assert_eq!(
        evaluate(&"(\\x.x x)(\\x.x x)".to_string(), 0),
        "time limit exceeded"
    );
}

#[test]
fn self_application_times_out_with_one_second() {
    assert_eq!(
        evaluate(&"(\\x.x x)(\\x.x x)".to_string(), 1),
        "time limit exceeded"
    );
}

#[test]
fn multi_parameter_sugar_desugars_to_nested_abstractions() {
    assert_eq!(evaluate(&"\\x y.x y".to_string(), 1), "\\x.\\y.x y");
}

#[test]
fn two_step_reduction_selects_first_argument() {
    assert_eq!(evaluate(&"(\\x.\\y.x)a b".to_string(), 1), "a");
}

#[test]
fn capture_is_avoided_by_renaming_to_v0() {
    assert_eq!(evaluate(&"(\\y.\\x.y)(x)".to_string(), 1), "\\v0.x");
}

#[test]
fn unterminated_parenthesis_is_a_parse_error() {
    assert_eq!(evaluate(&"(a".to_string(), 1), "parse error");
    assert!(parse("(a").is_none());
    assert!(tokenize(&"(a".to_string()).is_ok());
}

#[test]
fn empty_abstraction_parameter_is_a_lex_error() {
    assert_eq!(evaluate(&"\\.x".to_string(), 1), "parse error");
    let err = tokenize(&"\\.x".to_string()).unwrap_err();
    assert_eq!(err, "error:1\n\\.x\n_^ variable must be at least 1 character");
}

#[test]
fn invalid_character_is_reported_with_a_caret() {
    let err = tokenize(&"a + b".to_string()).unwrap_err();
    assert_eq!(err, "error:2\na + b\n__^ invalid char:'+'");
}

#[test]
fn abstraction_header_cut_off_at_end_of_input() {
    let err = tokenize(&"\\x".to_string()).unwrap_err();
    assert_eq!(err, "error:2\n\\x\n__^ expected '.',found EOF");
}

#[test]
fn abstraction_header_interrupted_by_a_parenthesis() {
    let err = tokenize(&"\\x(y".to_string()).unwrap_err();
    assert_eq!(err, "error:2\n\\x(y\n__^ expected '.',found '('");
}

#[test]
fn tokenize_splits_abstractions_variables_and_parens() {
    let toks = tokenize(&"(\\x y.x y)".to_string()).unwrap();
    assert_eq!(
        toks,
        vec![
            Token::Lpar,
            Token::Abs("x".to_string()),
            Token::Abs("y".to_string()),
            Token::Var("x".to_string()),
            Token::Var("y".to_string()),
            Token::Rpar,
        ]
    );
}

#[test]
fn tokenize_folds_the_let_keyword_into_one_token() {
    let toks = tokenize(&"let foo bar".to_string()).unwrap();
    assert_eq!(
        toks,
        vec![Token::Let("foo".to_string()), Token::Var("bar".to_string())]
    );
}

#[test]
fn let_cannot_be_an_ordinary_variable() {
    let toks = tokenize(&"let".to_string()).unwrap();
    assert_eq!(toks, vec![Token::Let(String::new())]);
    assert!(parse("let").is_none());
}

#[test]
fn parse_builds_left_associative_applications() {
    let st = parse("a b c").unwrap();
    assert_eq!(
        st,
        Stat::Exp(Box::new(app(app(var("a"), var("b")), var("c"))))
    );
}

#[test]
fn parse_groups_parenthesized_arguments() {
    let st = parse("a (b c)").unwrap();
    assert_eq!(
        st,
        Stat::Exp(Box::new(app(var("a"), app(var("b"), var("c")))))
    );
}

#[test]
fn parse_keeps_the_let_bound_name_in_the_statement() {
    let st = parse("let id \\x.x").unwrap();
    assert_eq!(
        st,
        Stat::Let("id".to_string(), Box::new(abs("x", var("x"))))
    );
    assert_eq!(st.get_expr(), abs("x", var("x")));
}

#[test]
fn let_bound_name_is_discarded_by_evaluation() {
    assert_eq!(evaluate(&"let id \\x.x".to_string(), 1), "\\x.x");
}

#[test]
fn empty_input_is_a_parse_error() {
    assert!(parse("").is_none());
    assert_eq!(evaluate(&"".to_string(), 1), "parse error");
}

#[test]
fn stray_closing_parenthesis_ends_the_expression() {
    let st = parse("a ) b").unwrap();
    assert_eq!(st, Stat::Exp(Box::new(var("a"))));
}

#[test]
fn abstraction_body_extends_to_the_right() {
    let st = parse("\\x.x y").unwrap();
    assert_eq!(
        st,
        Stat::Exp(Box::new(abs("x", app(var("x"), var("y")))))
    );
}

#[test]
fn to_string_parenthesizes_non_variables() {
    assert_eq!(app(app(var("a"), var("b")), var("c")).to_string(), "(a b) c");
    assert_eq!(app(var("a"), app(var("b"), var("c"))).to_string(), "a (b c)");
    assert_eq!(app(abs("x", var("x")), var("y")).to_string(), "(\\x.x) y");
    assert_eq!(abs("x", app(var("x"), var("y"))).to_string(), "\\x.x y");
}

#[test]
fn variables_collects_every_occurrence() {
    let t = abs("x", app(var("x"), var("y")));
    let mut vars: Vec<String> = Vec::new();
    t.variables(&mut vars);
    assert_eq!(vars, vec!["x".to_string(), "y".to_string()]);
}

#[test]
fn free_variables_keeps_only_unshadowed_names() {
    let t = abs("x", app(var("x"), var("y")));
    let mut fv: Vec<String> = Vec::new();
    t.free_variables(&mut fv);
    assert_eq!(fv, vec!["y".to_string()]);
}

#[test]
fn free_variables_keeps_multiplicity() {
    let t = app(var("x"), var("x"));
    let mut fv: Vec<String> = Vec::new();
    t.free_variables(&mut fv);
    assert_eq!(fv, vec!["x".to_string(), "x".to_string()]);
}

#[test]
fn assign_replaces_free_occurrences() {
    let t = app(var("x"), abs("x", var("x")));
    let r = t.assign(&var("y"), &"x".to_string());
    assert_eq!(r, app(var("y"), abs("x", var("x"))));
}

#[test]
fn assign_of_an_absent_name_changes_nothing() {
    let t = abs("x", app(var("x"), var("y")));
    let r = t.assign(&var("z"), &"w".to_string());
    assert_eq!(r, t);
}

#[test]
fn assign_renames_a_binder_that_would_capture() {
    let t = abs("x", var("y"));
    let r = t.assign(&var("x"), &"y".to_string());
    assert_eq!(r, abs("v0", var("x")));
}

#[test]
fn assign_picks_the_next_candidate_when_v0_is_taken() {
    let t = abs("x", var("y"));
    let replacement = app(var("x"), var("v0"));
    let r = t.assign(&replacement, &"y".to_string());
    assert_eq!(r, abs("v1", app(var("x"), var("v0"))));
}

#[test]
fn step_contracts_the_leftmost_outermost_redex() {
    let t = app(app(abs("x", var("x")), var("a")), app(abs("y", var("y")), var("b")));
    let s1 = t.step();
    assert_eq!(
        s1,
        app(var("a"), app(abs("y", var("y")), var("b")))
    );
    assert_eq!(s1.step(), app(var("a"), var("b")));
}

#[test]
fn step_is_deterministic_on_equal_terms() {
    let t1 = app(abs("x", var("x")), var("a"));
    let t2 = app(abs("x", var("x")), var("a"));
    assert_eq!(t1.step(), t2.step());
}

#[test]
fn reductive_detects_a_redex_anywhere() {
    assert!(!var("x").reductive());
    assert!(!abs("x", var("x")).reductive());
    assert!(app(abs("x", var("x")), var("y")).reductive());
    assert!(abs("z", app(abs("x", var("x")), var("y"))).reductive());
    assert!(!app(var("f"), var("y")).reductive());
}

#[test]
fn beta_reduction_returns_a_term_without_redexes() {
    let t = app(abs("x", var("x")), var("y"));
    let nf = t.beta_reduction(1).unwrap();
    assert_eq!(nf, var("y"));
    assert!(!nf.reductive());
}

#[test]
fn beta_reduction_of_a_normal_form_returns_it() {
    let t = abs("x", var("x"));
    assert_eq!(t.beta_reduction(1).unwrap(), t);
}

#[test]
fn printing_then_parsing_returns_the_reduced_term() {
    for input in [
        "(\\x.\\y.x y) a",
        "\\x y.x y",
        "(\\y.\\x.y)(x)",
        "(\\x.\\y.x)a b",
        "(\\f.\\g.\\x.f (g x)) u w",
    ] {
        let st = parse(input).unwrap();
        let nf = st.get_expr().beta_reduction(1).unwrap();
        let printed = nf.to_string();
        let reparsed = parse(&printed).unwrap();
        assert_eq!(reparsed, Stat::Exp(Box::new(nf)));
    }
}

#[test]
fn printing_then_parsing_is_exact_for_built_terms() {
    let shapes = [
        var("a"),
        abs("x", var("x")),
        app(var("a"), var("b")),
        app(app(var("a"), var("b")), var("c")),
        app(var("a"), app(var("b"), var("c"))),
        app(abs("x", var("x")), abs("y", var("y"))),
        abs("x", abs("y", app(var("x"), app(var("y"), var("z"))))),
        app(abs("x", app(var("x"), var("x"))), var("q")),
    ];
    for t in shapes {
        let reparsed = parse(&t.to_string()).unwrap();
        assert_eq!(reparsed, Stat::Exp(Box::new(t)));
    }
}

#[test]
fn error_message_points_at_the_failure() {
    let msg = error_message(&"ab".to_string(), ("boom".to_string(), 1));
    assert_eq!(msg, "error:1\nab\n_^ boom");
}

#[test]
fn spaces_between_parameters_are_allowed() {
    let toks = tokenize(&"\\x  y.x".to_string()).unwrap();
    assert_eq!(
        toks,
        vec![
            Token::Abs("x".to_string()),
            Token::Abs("y".to_string()),
            Token::Var("x".to_string()),
        ]
    );
}

#[test]
fn church_successor_of_zero_is_one() {
    assert_eq!(
        evaluate(&"(\\n.\\f.\\x.f (n f x)) (\\f.\\x.x)".to_string(), 1),
        "\\f.\\x.f x"
    );
}
