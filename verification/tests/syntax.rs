use lamb::error::LambError;
use lamb::parser::ast::{Expr, Statement};
use lamb::parser::grammar::Expected;
use lamb::parser;
use lamb::parser::{expr, parse, repl, term, ParseFailure};

fn var(c: char) -> Expr {
    Expr::Var(c)
}

fn ident(s: &str) -> Expr {
    Expr::Ident(s.to_string())
}

fn abs(c: char, b: Expr) -> Expr {
    Expr::Abs(c, Box::new(b))
}

fn app(f: Expr, a: Expr) -> Expr {
    Expr::App(Box::new(f), Box::new(a))
}

#[test]
fn a_lowercase_letter_is_a_variable() {
    assert_eq!(expr("x"), Some(("", var('x'))));
    assert_eq!(expr("  x"), Some(("", var('x'))));
    assert_eq!(expr("\t\r\n x )"), Some((" )", var('x'))));
}

#[test]
fn a_lowercase_character_beyond_ascii_is_a_variable() {
    assert_eq!(expr("\u{df}"), Some(("", var('\u{df}'))));
    assert_eq!(expr("\u{3bb}."), Some((".", var('\u{3bb}'))));
}

#[test]
fn an_uppercase_letter_alone_is_an_identifier() {
    assert_eq!(expr("X"), Some(("", ident("X"))));
}

#[test]
fn nothing_to_read_is_no_expression() {
    assert_eq!(expr(""), None);
    assert_eq!(expr("   "), None);
    assert_eq!(expr(")"), None);
    assert_eq!(expr("."), None);
    assert_eq!(expr("="), None);
}

#[test]
fn a_run_of_letters_and_digits_is_an_identifier() {
    assert_eq!(expr("succ"), Some(("", ident("succ"))));
    assert_eq!(expr("x1"), Some(("", ident("x1"))));
    assert_eq!(expr("True"), Some(("", ident("True"))));
    assert_eq!(expr("ab)"), Some((")", ident("ab"))));
}

#[test]
fn the_word_let_is_no_expression() {
    assert_eq!(expr("let"), None);
    assert_eq!(expr("letter"), None);
    assert_eq!(expr("le"), Some(("", ident("le"))));
    assert_eq!(expr("l"), Some(("", var('l'))));
}

#[test]
fn digits_are_a_numeral() {
    assert_eq!(expr("0"), Some(("", Expr::Num(0))));
    assert_eq!(expr("42"), Some(("", Expr::Num(42))));
    assert_eq!(expr("007"), Some(("", Expr::Num(7))));
    assert_eq!(expr("18446744073709551615"), Some(("", Expr::Num(u64::MAX))));
    assert_eq!(expr("12ab"), Some(("ab", Expr::Num(12))));
}

#[test]
fn a_numeral_that_does_not_fit_is_no_expression() {
    assert_eq!(expr("18446744073709551616"), None);
    assert_eq!(expr("99999999999999999999999"), None);
}

#[test]
fn a_backslash_opens_an_abstraction() {
    assert_eq!(expr("\\x.x"), Some(("", abs('x', var('x')))));
    assert_eq!(expr("\\ x. x"), Some(("", abs('x', var('x')))));
    assert_eq!(expr("\\x.\\y.x"), Some(("", abs('x', abs('y', var('x'))))));
}

#[test]
fn an_abstraction_needs_its_dot_right_behind_the_variable() {
    assert_eq!(expr("\\x .x"), None);
    assert_eq!(expr("\\x"), None);
    assert_eq!(expr("\\X.x"), None);
    assert_eq!(expr("\\.x"), None);
    assert_eq!(expr("\\x."), None);
}

#[test]
fn the_body_of_an_abstraction_runs_as_far_as_it_can() {
    assert_eq!(expr("\\x.x y"), Some(("", abs('x', app(var('x'), var('y'))))));
}

#[test]
fn blanks_separate_the_parts_of_an_application() {
    assert_eq!(expr("x y"), Some(("", app(var('x'), var('y')))));
    assert_eq!(expr("x \t\n y"), Some(("", app(var('x'), var('y')))));
    assert_eq!(expr("xy"), Some(("", ident("xy"))));
}

#[test]
fn application_associates_to_the_left() {
    assert_eq!(expr("x y z"), Some(("", app(app(var('x'), var('y')), var('z')))));
    assert_eq!(
        expr("f 1 two x"),
        Some(("", app(app(app(var('f'), Expr::Num(1)), ident("two")), var('x'))))
    );
}

#[test]
fn parentheses_group() {
    assert_eq!(expr("(x)"), Some(("", var('x'))));
    assert_eq!(expr("x (y z)"), Some(("", app(var('x'), app(var('y'), var('z'))))));
    assert_eq!(expr("(x y) z"), Some(("", app(app(var('x'), var('y')), var('z')))));
    assert_eq!(expr("((x))"), Some(("", var('x'))));
    assert_eq!(
        expr("(\\x.x) y"),
        Some(("", app(abs('x', var('x')), var('y'))))
    );
}

#[test]
fn blanks_before_a_closing_parenthesis_are_allowed_inside_an_application_only() {
    assert_eq!(expr("(x ) y"), Some(("", app(var('x'), var('y')))));
    assert_eq!(expr("(x )"), None);
    assert_eq!(expr("( x)"), Some(("", var('x'))));
}

#[test]
fn an_unclosed_parenthesis_is_no_expression() {
    assert_eq!(expr("(x"), None);
    assert_eq!(expr("(x y"), None);
    assert_eq!(expr("()"), None);
}

#[test]
fn an_application_ends_before_what_is_no_expression() {
    assert_eq!(expr("x y )"), Some((" )", app(var('x'), var('y')))));
    assert_eq!(expr("x y = z"), Some((" = z", app(var('x'), var('y')))));
    assert_eq!(expr("x  "), Some(("  ", var('x'))));
    assert_eq!(expr("x let"), Some((" let", var('x'))));
}

#[test]
fn written_applications_read_back_as_written() {
    for text in ["(x y)", "((x y) z)", "(x (y z))", "x"] {
        let (rest, e) = expr(text).unwrap();
        assert_eq!(rest, "");
        let t = e.to_term(&lamb::evaluate::Environment::new()).unwrap();
        assert_eq!(t.to_string(), text);
    }
}

#[test]
fn term_wants_the_whole_text() {
    assert_eq!(term(" x y  "), Ok(("", app(var('x'), var('y')))));
    assert_eq!(term("x )"), Err(ParseFailure { rest: ")", expected: Expected::End }));
    assert_eq!(term("  )"), Err(ParseFailure { rest: ")", expected: Expected::Expression }));
    assert_eq!(term(""), Err(ParseFailure { rest: "", expected: Expected::Expression }));
}

#[test]
fn a_line_is_one_statement() {
    assert_eq!(repl("x y"), Ok(("", Statement::Expr(app(var('x'), var('y'))))));
    assert_eq!(
        repl("let id = \\x.x"),
        Ok(("", Statement::Let("id".to_string(), abs('x', var('x')))))
    );
    assert_eq!(repl("import lib/base"), Ok(("", Statement::Import("lib/base".to_string()))));
    assert_eq!(repl("  let two = 2 \n"), Ok(("", Statement::Let("two".to_string(), Expr::Num(2)))));
}

#[test]
fn a_definition_needs_a_name_an_equals_sign_and_an_expression() {
    assert_eq!(
        repl("let x = y"),
        Err(ParseFailure { rest: "let x = y", expected: Expected::Statement })
    );
    assert_eq!(
        repl("let id \\x.x"),
        Err(ParseFailure { rest: "let id \\x.x", expected: Expected::Statement })
    );
    assert_eq!(
        repl("let id ="),
        Err(ParseFailure { rest: "let id =", expected: Expected::Statement })
    );
    assert_eq!(
        repl("  letid = x"),
        Err(ParseFailure { rest: "letid = x", expected: Expected::Statement })
    );
    assert_eq!(repl("let Id=x"), Ok(("", Statement::Let("Id".to_string(), var('x')))));
}

#[test]
fn an_import_takes_the_path_up_to_the_next_white_space() {
    assert_eq!(repl("import a.b/c  "), Ok(("", Statement::Import("a.b/c".to_string()))));
    assert_eq!(repl("import \t x"), Ok(("", Statement::Import("x".to_string()))));
    assert_eq!(repl("import "), Ok(("", Statement::Import(String::new()))));
    assert_eq!(
        repl("import a b"),
        Err(ParseFailure { rest: "b", expected: Expected::End })
    );
    assert_eq!(
        repl("import a\u{a0}b"),
        Err(ParseFailure { rest: "\u{a0}b", expected: Expected::End })
    );
}

#[test]
fn import_without_a_blank_behind_it_is_an_identifier() {
    assert_eq!(repl("import"), Ok(("", Statement::Expr(ident("import")))));
    assert_eq!(repl("imports"), Ok(("", Statement::Expr(ident("imports")))));
}

#[test]
fn what_follows_a_statement_is_at_fault() {
    assert_eq!(repl("x )"), Err(ParseFailure { rest: ")", expected: Expected::End }));
    assert_eq!(repl(""), Err(ParseFailure { rest: "", expected: Expected::Statement }));
    assert_eq!(repl("  ?"), Err(ParseFailure { rest: "?", expected: Expected::Statement }));
}

#[test]
fn a_file_is_definitions_and_imports() {
    let text = "import other\nlet id = \\x.x\n  let two = 2\n";
    assert_eq!(
        parser::file(text),
        Ok((
            "",
            vec![
                Statement::Import("other".to_string()),
                Statement::Let("id".to_string(), abs('x', var('x'))),
                Statement::Let("two".to_string(), Expr::Num(2)),
            ]
        ))
    );
    assert_eq!(parser::file(""), Ok(("", vec![])));
    assert_eq!(parser::file(" \n "), Ok(("", vec![])));
}

#[test]
fn an_expression_in_a_file_is_at_fault() {
    assert_eq!(
        parser::file("let id = \\x.x\n)"),
        Err(ParseFailure { rest: ")", expected: Expected::Definition })
    );
    assert_eq!(parser::file("x"), Err(ParseFailure { rest: "x", expected: Expected::Definition }));
}

#[test]
fn a_definition_runs_on_over_line_ends() {
    assert_eq!(
        parser::file("let ap = f\n x"),
        Ok(("", vec![Statement::Let("ap".to_string(), app(var('f'), var('x')))]))
    );
}

#[test]
fn a_definition_takes_a_following_import_for_an_argument() {
    assert_eq!(
        parser::file("let ap = f\nimport x"),
        Ok((
            "",
            vec![Statement::Let("ap".to_string(), app(app(var('f'), ident("import")), var('x')))]
        ))
    );
}

#[test]
fn a_definition_ends_before_the_next_one() {
    assert_eq!(
        parser::file("let ap = f x\nlet id = y"),
        Ok((
            "",
            vec![
                Statement::Let("ap".to_string(), app(var('f'), var('x'))),
                Statement::Let("id".to_string(), var('y')),
            ]
        ))
    );
}

#[test]
fn parse_hands_a_success_through() {
    assert_eq!(parse(repl, "x"), Ok(("", Statement::Expr(var('x')))));
    assert_eq!(parse(term, "x"), Ok(("", var('x'))));
    assert_eq!(parse(parser::file, ""), Ok(("", vec![])));
}

#[test]
fn parse_reports_what_was_expected_and_where() {
    assert_eq!(
        parse(repl, "x )"),
        Err(LambError::Parse("expected the end of the input at: )".to_string()))
    );
    assert_eq!(
        parse(repl, " ?!"),
        Err(LambError::Parse("expected a statement at: ?!".to_string()))
    );
    assert_eq!(
        parse(term, " ?!"),
        Err(LambError::Parse("expected an expression at: ?!".to_string()))
    );
    assert_eq!(
        parse(parser::file, "let ab = b\n)c"),
        Err(LambError::Parse("expected a definition or an import at: )c".to_string()))
    );
}

#[test]
fn expressions_can_be_copied() {
    let e = app(abs('x', ident("succ")), Expr::Num(3));
    assert_eq!(e.clone(), e);
}
