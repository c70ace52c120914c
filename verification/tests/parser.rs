use aic::ast::{BinOp, Expr, FunctionParameter, Program, Stmt, Type, UnaryOp};
use aic::grammar::{ParseError, ParseErrorKind};
use aic::parser::{parse, parse_expr, parse_integer, parser};
use aic::token::{lex, Span};

fn lit(n: i64) -> Box<Expr<'static>> {
    Box::new(Expr::IntLit(n))
}

fn var(name: &str) -> Box<Expr<'_>> {
    Box::new(Expr::VarRef { name })
}

fn bin<'a>(lhs: Box<Expr<'a>>, op: BinOp, rhs: Box<Expr<'a>>) -> Box<Expr<'a>> {
    Box::new(Expr::BinOp { lhs, op, rhs })
}

fn expr_of(src: &str) -> Expr<'_> {
    let mut program = parse(src).expect("the text is a program");
    assert_eq!(program.statements.len(), 1);
    match program.statements.pop().unwrap() {
        Stmt::Expr { expr } => *expr,
        other => panic!("not an expression: {:?}", other),
    }
}

fn first_error(src: &str) -> ParseError {
    let errors = parse(src).expect_err("the text is no program");
    assert!(!errors.is_empty());
    errors[0]
}

#[test]
fn multiplication_binds_tighter_than_addition() {
    assert_eq!(expr_of("2 + 3 * 4"), *bin(lit(2), BinOp::Add, bin(lit(3), BinOp::Mul, lit(4))));
    assert_eq!(expr_of("2 * 3 + 4"), *bin(bin(lit(2), BinOp::Mul, lit(3)), BinOp::Add, lit(4)));
}

#[test]
fn unary_minus_binds_tighter_than_multiplication() {
    assert_eq!(
        expr_of("-2 * 3"),
        *bin(Box::new(Expr::UnaryOp { op: UnaryOp::Neg, expr: lit(2) }), BinOp::Mul, lit(3))
    );
    assert_eq!(
        expr_of("!a && b"),
        *bin(Box::new(Expr::UnaryOp { op: UnaryOp::Not, expr: var("a") }), BinOp::And, var("b"))
    );
    assert_eq!(
        expr_of("- - 1"),
        Expr::UnaryOp {
            op: UnaryOp::Neg,
            expr: Box::new(Expr::UnaryOp { op: UnaryOp::Neg, expr: lit(1) }),
        }
    );
}

#[test]
fn binary_operators_associate_to_the_left() {
    assert_eq!(expr_of("1 - 2 - 3"), *bin(bin(lit(1), BinOp::Sub, lit(2)), BinOp::Sub, lit(3)));
    assert_eq!(expr_of("8 / 4 / 2"), *bin(bin(lit(8), BinOp::Div, lit(4)), BinOp::Div, lit(2)));
    assert_eq!(
        expr_of("a == b != c"),
        *bin(bin(var("a"), BinOp::Equal, var("b")), BinOp::NotEqual, var("c"))
    );
    assert_eq!(
        expr_of("a || b || c"),
        *bin(bin(var("a"), BinOp::Or, var("b")), BinOp::Or, var("c"))
    );
}

#[test]
fn the_levels_of_precedence() {
    // a || b && c == d < e + f * g
    assert_eq!(
        expr_of("a || b && c == d < e + f * g"),
        *bin(
            var("a"),
            BinOp::Or,
            bin(
                var("b"),
                BinOp::And,
                bin(
                    var("c"),
                    BinOp::Equal,
                    bin(
                        var("d"),
                        BinOp::LessThan,
                        bin(var("e"), BinOp::Add, bin(var("f"), BinOp::Mul, var("g")))
                    )
                )
            )
        )
    );
    assert_eq!(
        expr_of("a * b + c < d == e && f || g"),
        *bin(
            bin(
                bin(
                    bin(
                        bin(bin(var("a"), BinOp::Mul, var("b")), BinOp::Add, var("c")),
                        BinOp::LessThan,
                        var("d")
                    ),
                    BinOp::Equal,
                    var("e")
                ),
                BinOp::And,
                var("f")
            ),
            BinOp::Or,
            var("g")
        )
    );
    assert_eq!(
        expr_of("a <= b"),
        *bin(var("a"), BinOp::LessThanOrEqual, var("b"))
    );
    assert_eq!(expr_of("a > b"), *bin(var("a"), BinOp::GreaterThan, var("b")));
    assert_eq!(expr_of("a >= b"), *bin(var("a"), BinOp::GreaterThanOrEqual, var("b")));
}

#[test]
fn parentheses_group() {
    assert_eq!(expr_of("(2 + 3) * 4"), *bin(bin(lit(2), BinOp::Add, lit(3)), BinOp::Mul, lit(4)));
    assert_eq!(expr_of("((7))"), Expr::IntLit(7));
    assert_eq!(
        expr_of("-(1)"),
        Expr::UnaryOp { op: UnaryOp::Neg, expr: lit(1) }
    );
}

#[test]
fn literals_variables_and_calls() {
    assert_eq!(expr_of("true"), Expr::BoolLit(true));
    assert_eq!(expr_of("false"), Expr::BoolLit(false));
    assert_eq!(expr_of("x"), Expr::VarRef { name: "x" });
    assert_eq!(expr_of("f()"), Expr::FnCall { name: "f", args: vec![] });
    assert_eq!(
        expr_of("f(1, g(x), 2 + 3)"),
        Expr::FnCall {
            name: "f",
            args: vec![
                Expr::IntLit(1),
                Expr::FnCall { name: "g", args: vec![Expr::VarRef { name: "x" }] },
                *bin(lit(2), BinOp::Add, lit(3)),
            ],
        }
    );
}

#[test]
fn parsing_twice_gives_equal_trees() {
    let src = "fn add(a: i32, b: i32) -> i32 { a + b }\nlet x = add(1, 2);\nvar y: i32;\ny = x;\nif y == 3 { 1 } else if y < 3 { 2 } else { 3 }";
    let first = parse(src).expect("a program");
    let second = parse(src).expect("a program");
    assert_eq!(first, second);
    assert_eq!(parse("1 +"), parse("1 +"));
}

#[test]
fn an_empty_text_is_an_empty_program() {
    assert_eq!(parse(""), Ok(Program { statements: vec![] }));
    assert_eq!(parse("  // nothing here\n"), Ok(Program { statements: vec![] }));
}

#[test]
fn statements_and_the_tail_expression() {
    assert_eq!(
        parse("1; x = 2; return; return 3; 4"),
        Ok(Program {
            statements: vec![
                Stmt::ExprStmt { expr: lit(1) },
                Stmt::Assign { name: "x", value: lit(2) },
                Stmt::Return { expr: None },
                Stmt::Return { expr: Some(lit(3)) },
                Stmt::Expr { expr: lit(4) },
            ],
        })
    );
}

#[test]
fn declarations_of_variables() {
    assert_eq!(
        parse("let a = 1; let b: i64 = 2; var c = 3; var d: i32 = 4; var e: i32;"),
        Ok(Program {
            statements: vec![
                Stmt::LetDecl { name: "a", ty: None, value: Some(Expr::IntLit(1)) },
                Stmt::LetDecl { name: "b", ty: Some(Type::I64), value: Some(Expr::IntLit(2)) },
                Stmt::VarDecl { name: "c", ty: None, value: Some(Expr::IntLit(3)) },
                Stmt::VarDecl { name: "d", ty: Some(Type::I32), value: Some(Expr::IntLit(4)) },
                Stmt::VarDecl { name: "e", ty: Some(Type::I32), value: None },
            ],
        })
    );
}

#[test]
fn the_names_of_the_types() {
    assert_eq!(
        parse("fn f(a: i32, b: i64, c: f32, d: f64, e: string) -> void { }"),
        Ok(Program {
            statements: vec![Stmt::FnDecl {
                name: "f",
                params: vec![
                    FunctionParameter { name: "a", ty: Type::I32 },
                    FunctionParameter { name: "b", ty: Type::I64 },
                    FunctionParameter { name: "c", ty: Type::F32 },
                    FunctionParameter { name: "d", ty: Type::F64 },
                    FunctionParameter { name: "e", ty: Type::String },
                ],
                ty: Type::Void,
                body: vec![],
            }],
        })
    );
}

#[test]
fn a_function_with_a_tail_value() {
    assert_eq!(
        parse("fn add(a: i32, b: i32) -> i32 { let c = a + b; c } add(1, 2)"),
        Ok(Program {
            statements: vec![
                Stmt::FnDecl {
                    name: "add",
                    params: vec![
                        FunctionParameter { name: "a", ty: Type::I32 },
                        FunctionParameter { name: "b", ty: Type::I32 },
                    ],
                    ty: Type::I32,
                    body: vec![
                        Stmt::LetDecl {
                            name: "c",
                            ty: None,
                            value: Some(*bin(var("a"), BinOp::Add, var("b"))),
                        },
                        Stmt::Expr { expr: var("c") },
                    ],
                },
                Stmt::Expr {
                    expr: Box::new(Expr::FnCall {
                        name: "add",
                        args: vec![Expr::IntLit(1), Expr::IntLit(2)],
                    }),
                },
            ],
        })
    );
}

#[test]
fn a_chain_of_conditionals_nests_in_the_else_branch() {
    assert_eq!(
        parse("if a { 1 } else if b { 2 } else { 3 }"),
        Ok(Program {
            statements: vec![Stmt::If {
                condition: var("a"),
                then_branch: vec![Stmt::Expr { expr: lit(1) }],
                else_branch: Some(vec![Stmt::If {
                    condition: var("b"),
                    then_branch: vec![Stmt::Expr { expr: lit(2) }],
                    else_branch: Some(vec![Stmt::Expr { expr: lit(3) }]),
                }]),
            }],
        })
    );
    assert_eq!(
        parse("if a { return 1; } 2"),
        Ok(Program {
            statements: vec![
                Stmt::If {
                    condition: var("a"),
                    then_branch: vec![Stmt::Return { expr: Some(lit(1)) }],
                    else_branch: None,
                },
                Stmt::Expr { expr: lit(2) },
            ],
        })
    );
}

#[test]
fn a_compound_statement_needs_no_terminator() {
    let program = parse("fn f() -> i32 { 1 } fn g() -> i32 { 2 } if true { } f(); g()").expect("a program");
    assert_eq!(program.statements.len(), 5);
}

#[test]
fn an_unexpected_token_is_reported_at_its_place() {
    assert_eq!(
        first_error("1 + ;"),
        ParseError { span: Span { start: 4, end: 5 }, kind: ParseErrorKind::UnexpectedToken }
    );
    assert_eq!(
        first_error("1 2"),
        ParseError { span: Span { start: 2, end: 3 }, kind: ParseErrorKind::UnexpectedToken }
    );
    assert_eq!(
        first_error("}"),
        ParseError { span: Span { start: 0, end: 1 }, kind: ParseErrorKind::UnexpectedToken }
    );
    assert_eq!(
        first_error("let x: i32;"),
        ParseError { span: Span { start: 10, end: 11 }, kind: ParseErrorKind::UnexpectedToken }
    );
    assert_eq!(
        first_error("var x;"),
        ParseError { span: Span { start: 5, end: 6 }, kind: ParseErrorKind::UnexpectedToken }
    );
    assert_eq!(
        first_error("let x: int = 1;"),
        ParseError { span: Span { start: 7, end: 10 }, kind: ParseErrorKind::UnexpectedToken }
    );
    assert_eq!(
        first_error("fn f(a) -> i32 { }"),
        ParseError { span: Span { start: 6, end: 7 }, kind: ParseErrorKind::UnexpectedToken }
    );
    assert_eq!(
        first_error("fn f() { }"),
        ParseError { span: Span { start: 7, end: 8 }, kind: ParseErrorKind::UnexpectedToken }
    );
    assert_eq!(
        first_error("f(1,)"),
        ParseError { span: Span { start: 4, end: 5 }, kind: ParseErrorKind::UnexpectedToken }
    );
    assert_eq!(
        first_error("if a { 1 2 }"),
        ParseError { span: Span { start: 9, end: 10 }, kind: ParseErrorKind::UnexpectedToken }
    );
}

#[test]
fn the_end_of_the_input_is_reported_with_the_span_of_the_text() {
    assert_eq!(
        first_error("1 +"),
        ParseError { span: Span { start: 0, end: 3 }, kind: ParseErrorKind::UnexpectedEnd }
    );
    assert_eq!(
        first_error("if a { 1"),
        ParseError { span: Span { start: 0, end: 8 }, kind: ParseErrorKind::UnexpectedEnd }
    );
    assert_eq!(
        first_error("(1"),
        ParseError { span: Span { start: 0, end: 2 }, kind: ParseErrorKind::UnexpectedEnd }
    );
    assert_eq!(first_error("let").kind, ParseErrorKind::UnexpectedEnd);
    assert_eq!(first_error("fn f() -> i32 {").kind, ParseErrorKind::UnexpectedEnd);
}

#[test]
fn every_error_token_is_reported() {
    assert_eq!(
        parse("1 @ 2 # 3 +"),
        Err(vec![
            ParseError { span: Span { start: 2, end: 3 }, kind: ParseErrorKind::UnrecognizedInput },
            ParseError { span: Span { start: 6, end: 7 }, kind: ParseErrorKind::UnrecognizedInput },
        ])
    );
}

#[test]
fn an_integer_literal_must_fit_in_64_bits() {
    assert_eq!(expr_of("9223372036854775807"), Expr::IntLit(i64::MAX));
    assert_eq!(expr_of("0000000000000000000000000000012"), Expr::IntLit(12));
    assert_eq!(
        first_error("9223372036854775808"),
        ParseError { span: Span { start: 0, end: 19 }, kind: ParseErrorKind::InvalidInteger }
    );
    assert_eq!(first_error("1 + 99999999999999999999999").kind, ParseErrorKind::InvalidInteger);
}

#[test]
fn the_value_of_an_integer_literal() {
    assert_eq!(parse_integer("0"), Some(0));
    assert_eq!(parse_integer("42"), Some(42));
    assert_eq!(parse_integer("9223372036854775807"), Some(i64::MAX));
    assert_eq!(parse_integer("9223372036854775808"), None);
    assert_eq!(parse_integer("92233720368547758070"), None);
    assert_eq!(parse_integer(""), None);
    assert_eq!(parse_integer("12a"), None);
    assert_eq!(parse_integer("-1"), None);
    assert_eq!(parse_integer("\u{661}"), None);
}

#[test]
fn the_message_of_each_kind_of_error() {
    let span = Span { start: 0, end: 0 };
    assert_eq!(ParseError { span, kind: ParseErrorKind::UnrecognizedInput }.message(), "unrecognized input");
    assert_eq!(ParseError { span, kind: ParseErrorKind::UnexpectedToken }.message(), "unexpected token");
    assert_eq!(ParseError { span, kind: ParseErrorKind::UnexpectedEnd }.message(), "unexpected end of input");
    assert_eq!(ParseError { span, kind: ParseErrorKind::InvalidInteger }.message(), "integer literal out of range");
}

#[test]
fn parsing_tokens_is_parsing_the_text() {
    let src = "let a = 1; a + 2";
    let tokens = lex(src);
    assert_eq!(parser(&tokens, Span { start: 0, end: src.len() }), parse(src));
    let broken = "let a = ";
    let tokens = lex(broken);
    assert_eq!(
        parser(&tokens, Span { start: 7, end: 7 }),
        Err(vec![ParseError { span: Span { start: 7, end: 7 }, kind: ParseErrorKind::UnexpectedEnd }])
    );
}

#[test]
fn an_expression_is_parsed_up_to_where_it_ends() {
    let src = "1 + 2 * 3 ; 4";
    let tokens = lex(src);
    let (expr, next) = parse_expr(&tokens, Span { start: 0, end: src.len() }, 0).expect("an expression");
    assert_eq!(expr, *bin(lit(1), BinOp::Add, bin(lit(2), BinOp::Mul, lit(3))));
    assert_eq!(next, 5);
    let (expr, next) = parse_expr(&tokens, Span { start: 0, end: src.len() }, 6).expect("an expression");
    assert_eq!(expr, Expr::IntLit(4));
    assert_eq!(next, 7);
    assert!(parse_expr(&tokens, Span { start: 0, end: src.len() }, 5).is_err());
    assert!(parse_expr(&tokens, Span { start: 0, end: src.len() }, 7).is_err());
}

#[test]
fn a_copy_of_a_tree_is_equal_to_it() {
    let src = "fn f(a: i32, b: i64) -> i32 { if a < 1 { return -a; } else if !(a == 2) { f(a - 1, b) } else { 3 } }\nlet x = f(1, 2);\nvar y: i32;\ny = x * 2;\nreturn;\nf(y, 0);\ny";
    let program = parse(src).expect("a program");
    let copy = program.clone();
    assert_eq!(copy, program);
    assert_eq!(copy.statements.len(), 7);
    for (statement, first) in copy.statements.iter().zip(program.statements.iter()) {
        assert_eq!(&statement.clone(), first);
    }
    let expr = expr_of("f(1, g(x), 2 + 3) * -y");
    assert_eq!(expr.clone(), expr);
}
