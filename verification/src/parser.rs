//! The parser: makes a syntax tree of a sequence of tokens, as the grammar
//! says.

use crate::ast::{exprs_view, params_view, stmts_view, tail_only_at_end};
use crate::ast::{
    BinOp, Expr, ExprView, FunctionParameter, ParamView, Program, Stmt, StmtView, Type, UnaryOp,
};
use crate::grammar::{
    arguments, binary, binary_operator, binary_rest, block, block_ends, conditional,
    digits_value, expr, function, integer_value, is_digit_char, lemma_program_well_formed,
    let_decl, lexical_errors,
    more_arguments, more_parameters, parameter, parameters, primary, program, return_stmt,
    simple_statement, starts_simple_statement, statements, terminated_expr, type_of_name, unary,
    var_decl, Input, ParseError, ParseErrorKind, Parsed,
};
use crate::ir::str_eq;
use crate::token::{lex, tokenize, tokens_view, Span, Token, TokenView};
use vstd::prelude::*;
use vstd::string::StringSliceAdditionalSpecFns;

verus! {

/// The input that the parser reads: the models of the tokens, and the span
/// that stands for the end of the input.
pub open spec fn input_of(tokens: Seq<(Token, Span)>, end: Span) -> Input {
    Input { tokens: tokens_view(tokens), end }
}

/// What the parser gives for an expression, as the grammar states it.
pub open spec fn expr_result(r: Result<(Expr, usize), ParseError>) -> Parsed<ExprView> {
    match r {
        Ok((e, next)) => Ok((e@, next as int)),
        Err(err) => Err(err),
    }
}

/// What the parser gives for a list of expressions, as the grammar states
/// it.
pub open spec fn exprs_result(r: Result<(Vec<Expr>, usize), ParseError>) -> Parsed<Seq<ExprView>> {
    match r {
        Ok((es, next)) => Ok((exprs_view(es@), next as int)),
        Err(err) => Err(err),
    }
}

/// What the parser gives for a statement, as the grammar states it.
pub open spec fn stmt_result(r: Result<(Stmt, usize), ParseError>) -> Parsed<StmtView> {
    match r {
        Ok((s, next)) => Ok((s@, next as int)),
        Err(err) => Err(err),
    }
}

/// What the parser gives for a list of statements, as the grammar states
/// it.
pub open spec fn stmts_result(r: Result<(Vec<Stmt>, usize), ParseError>) -> Parsed<Seq<StmtView>> {
    match r {
        Ok((ss, next)) => Ok((stmts_view(ss@), next as int)),
        Err(err) => Err(err),
    }
}

/// Whether the parser has read on: a result that is not an error gives a
/// position of the input behind `pos`.
pub open spec fn reads_on<T>(r: Result<(T, usize), ParseError>, pos: usize, len: nat) -> bool {
    r matches Ok(p) ==> pos < p.1 <= len
}

fn unexpected(tokens: &Vec<(Token, Span)>, end: Span, pos: usize) -> (err: ParseError)
    ensures
        err == input_of(tokens@, end).unexpected(pos as int),
{
    if pos < tokens.len() {
        ParseError { span: tokens[pos].1, kind: ParseErrorKind::UnexpectedToken }
    } else {
        ParseError { span: end, kind: ParseErrorKind::UnexpectedEnd }
    }
}

/// A token without text: what the parser can ask for by name.
#[derive(Debug, Clone, Copy, PartialEq, Eq, Structural)]
enum Mark {
    LParen,
    RParen,
    LBrace,
    RBrace,
    Comma,
    Colon,
    Semicolon,
    Assign,
    RightArrow,
    Else,
    If,
}

impl Mark {
    spec fn token(self) -> TokenView {
        match self {
            Mark::LParen => TokenView::LParen,
            Mark::RParen => TokenView::RParen,
            Mark::LBrace => TokenView::LBrace,
            Mark::RBrace => TokenView::RBrace,
            Mark::Comma => TokenView::Comma,
            Mark::Colon => TokenView::Colon,
            Mark::Semicolon => TokenView::Semicolon,
            Mark::Assign => TokenView::Assign,
            Mark::RightArrow => TokenView::RightArrow,
            Mark::Else => TokenView::Else,
            Mark::If => TokenView::If,
        }
    }
}

fn at(tokens: &Vec<(Token, Span)>, pos: usize, mark: Mark) -> (r: bool)
    ensures
        r == (input_of(tokens@, Span { start: 0, end: 0 }).peek(pos as int) == Some(mark.token())),
        r ==> pos < tokens@.len(),
        tokens@.len() <= usize::MAX,
{
    if pos >= tokens.len() {
        return false;
    }
    match (tokens[pos].0, mark) {
        (Token::LParen, Mark::LParen) => true,
        (Token::RParen, Mark::RParen) => true,
        (Token::LBrace, Mark::LBrace) => true,
        (Token::RBrace, Mark::RBrace) => true,
        (Token::Comma, Mark::Comma) => true,
        (Token::Colon, Mark::Colon) => true,
        (Token::Semicolon, Mark::Semicolon) => true,
        (Token::Assign, Mark::Assign) => true,
        (Token::RightArrow, Mark::RightArrow) => true,
        (Token::Else, Mark::Else) => true,
        (Token::If, Mark::If) => true,
        _ => false,
    }
}

fn expect(tokens: &Vec<(Token, Span)>, end: Span, pos: usize, mark: Mark) -> (r: Result<
    usize,
    ParseError,
>)
    ensures
        match r {
            Ok(next) => input_of(tokens@, end).expect(pos as int, mark.token()) == Ok::<
                int,
                ParseError,
            >(next as int) && next == pos + 1 && next <= tokens@.len(),
            Err(err) => input_of(tokens@, end).expect(pos as int, mark.token()) == Err::<
                int,
                ParseError,
            >(err),
        },
{
    if at(tokens, pos, mark) {
        Ok(pos + 1)
    } else {
        Err(unexpected(tokens, end, pos))
    }
}

fn name<'a>(tokens: &Vec<(Token<'a>, Span)>, end: Span, pos: usize) -> (r: Result<
    (&'a str, usize),
    ParseError,
>)
    ensures
        match r {
            Ok((text, next)) => input_of(tokens@, end).name(pos as int) == Ok::<
                (Seq<char>, int),
                ParseError,
            >((text@, next as int)) && next == pos + 1 && next <= tokens@.len(),
            Err(err) => input_of(tokens@, end).name(pos as int) == Err::<
                (Seq<char>, int),
                ParseError,
            >(err),
        },
{
    if pos < tokens.len() {
        match tokens[pos].0 {
            Token::Identifier(text) => {
                return Ok((text, pos + 1));
            },
            _ => {},
        }
    }
    Err(unexpected(tokens, end, pos))
}

fn type_from_name(text: &str) -> (r: Option<Type>)
    ensures
        r == type_of_name(text@),
{
    if str_eq(text, "i32") {
        Some(Type::I32)
    } else if str_eq(text, "i64") {
        Some(Type::I64)
    } else if str_eq(text, "f32") {
        Some(Type::F32)
    } else if str_eq(text, "f64") {
        Some(Type::F64)
    } else if str_eq(text, "void") {
        Some(Type::Void)
    } else if str_eq(text, "string") {
        Some(Type::String)
    } else {
        None
    }
}

fn ty(tokens: &Vec<(Token, Span)>, end: Span, pos: usize) -> (r: Result<(Type, usize), ParseError>)
    ensures
        match r {
            Ok((t, next)) => input_of(tokens@, end).ty(pos as int) == Ok::<(Type, int), ParseError>(
                (t, next as int),
            ) && next == pos + 1 && next <= tokens@.len(),
            Err(err) => input_of(tokens@, end).ty(pos as int) == Err::<(Type, int), ParseError>(
                err,
            ),
        },
{
    if pos < tokens.len() {
        match tokens[pos].0 {
            Token::Identifier(text) => match type_from_name(text) {
                Some(t) => {
                    return Ok((t, pos + 1));
                },
                None => {},
            },
            _ => {},
        }
    }
    Err(unexpected(tokens, end, pos))
}

proof fn lemma_digits_value_grows(text: Seq<char>, k: int)
    requires
        0 <= k <= text.len(),
        forall|i: int| 0 <= i < text.len() ==> is_digit_char(#[trigger] text[i]),
    ensures
        0 <= digits_value(text.take(k)) <= digits_value(text),
    decreases text.len() - k,
{
    if k == text.len() {
        assert(text.take(k) =~= text);
        lemma_digits_value_nonnegative(text);
    } else {
        lemma_digits_value_grows(text, k + 1);
        assert(text.take(k + 1).drop_last() =~= text.take(k));
        lemma_digits_value_nonnegative(text.take(k));
    }
}

proof fn lemma_digits_value_nonnegative(text: Seq<char>)
    requires
        forall|i: int| 0 <= i < text.len() ==> is_digit_char(#[trigger] text[i]),
    ensures
        0 <= digits_value(text),
    decreases text.len(),
{
    if text.len() > 0 {
        lemma_digits_value_nonnegative(text.drop_last());
    }
}

/// The value of an integer literal, if its text is one or more digits and
/// their number fits in 64 bits.
pub fn parse_integer(text: &str) -> (r: Option<i64>)
    ensures
        r == integer_value(text@),
{
    if !text.is_ascii() {
        proof {
            let i = choose|i: int|
                0 <= i < text@.len() && !('\0' <= #[trigger] text@[i] <= '\u{7f}');
            assert(!is_digit_char(text@[i]));
        }
        return None;
    }
    let bytes = text.as_bytes();
    proof {
        vstd::string::is_ascii_spec_bytes(text);
    }
    if bytes.len() == 0 {
        return None;
    }
    let mut value: i64 = 0;
    let mut i: usize = 0;
    assert(text@.take(0) =~= Seq::<char>::empty());
    while i < bytes.len()
        invariant
            0 <= i <= bytes@.len(),
            bytes@.len() == text@.len(),
            forall|j: int| 0 <= j < text@.len() ==> text@[j] as u8 == #[trigger] bytes@[j],
            forall|j: int| 0 <= j < text@.len() ==> '\0' <= #[trigger] text@[j] <= '\u{7f}',
            forall|j: int| 0 <= j < i ==> is_digit_char(#[trigger] text@[j]),
            value == digits_value(text@.take(i as int)),
            0 <= value,
        decreases bytes@.len() - i,
    {
        let b = bytes[i];
        if b < 48 || b > 57 {
            assert(!is_digit_char(text@[i as int]));
            return None;
        }
        let digit: i64 = (b - 48) as i64;
        assert(is_digit_char(text@[i as int]));
        assert(text@.take(i + 1).drop_last() =~= text@.take(i as int));
        assert(text@.take(i + 1).last() == text@[i as int]);
        assert(digits_value(text@.take(i + 1)) == value * 10 + digit);
        if value > (i64::MAX - digit) / 10 {
            proof {
                if forall|j: int| 0 <= j < text@.len() ==> is_digit_char(#[trigger] text@[j]) {
                    lemma_digits_value_grows(text@, i + 1);
                }
            }
            return None;
        }
        value = value * 10 + digit;
        i += 1;
    }
    assert(text@.take(i as int) =~= text@);
    Some(value)
}

fn binary_op(level: u8, token: &Token) -> (r: Option<BinOp>)
    ensures
        r == binary_operator(level as int, token@),
{
    match (level, token) {
        (0, Token::Or) => Some(BinOp::Or),
        (1, Token::And) => Some(BinOp::And),
        (2, Token::Equal) => Some(BinOp::Equal),
        (2, Token::NotEqual) => Some(BinOp::NotEqual),
        (3, Token::LessThan) => Some(BinOp::LessThan),
        (3, Token::LessThanOrEqual) => Some(BinOp::LessThanOrEqual),
        (3, Token::GreaterThan) => Some(BinOp::GreaterThan),
        (3, Token::GreaterThanOrEqual) => Some(BinOp::GreaterThanOrEqual),
        (4, Token::Add) => Some(BinOp::Add),
        (4, Token::Sub) => Some(BinOp::Sub),
        (5, Token::Mul) => Some(BinOp::Mul),
        (5, Token::Div) => Some(BinOp::Div),
        _ => None,
    }
}

/// Parses the expression at `pos`.
pub fn parse_expr<'a>(tokens: &Vec<(Token<'a>, Span)>, end: Span, pos: usize) -> (r: Result<
    (Expr<'a>, usize),
    ParseError,
>)
    requires
        pos <= tokens@.len(),
    ensures
        expr(input_of(tokens@, end), pos as int) == expr_result(r),
        reads_on(r, pos, tokens@.len()),
    decreases tokens@.len() - pos, 20int,
{
    parse_binary(tokens, end, pos, 0)
}

#[verifier::loop_isolation(false)]
fn parse_binary<'a>(tokens: &Vec<(Token<'a>, Span)>, end: Span, pos: usize, level: u8) -> (r:
    Result<(Expr<'a>, usize), ParseError>)
    requires
        pos <= tokens@.len(),
        level <= 6,
    ensures
        binary(input_of(tokens@, end), pos as int, level as int) == expr_result(r),
        reads_on(r, pos, tokens@.len()),
    decreases tokens@.len() - pos, 18 - 2 * level,
{
    let ghost input = input_of(tokens@, end);
    if level == 6 {
        return parse_unary(tokens, end, pos);
    }
    let (mut lhs, mut cur) = match parse_binary(tokens, end, pos, level + 1) {
        Err(err) => {
            return Err(err);
        },
        Ok(p) => p,
    };
    while cur < tokens.len()
        invariant
            pos < cur <= tokens@.len(),
            binary(input, pos as int, level as int) == binary_rest(
                input,
                cur as int,
                level as int,
                lhs@,
            ),
        decreases tokens@.len() - cur,
    {
        let op = match binary_op(level, &tokens[cur].0) {
            None => {
                break ;
            },
            Some(op) => op,
        };
        let (rhs, next) = match parse_binary(tokens, end, cur + 1, level + 1) {
            Err(err) => {
                return Err(err);
            },
            Ok(p) => p,
        };
        lhs = Expr::BinOp { lhs: Box::new(lhs), op, rhs: Box::new(rhs) };
        cur = next;
    }
    Ok((lhs, cur))
}

fn parse_unary<'a>(tokens: &Vec<(Token<'a>, Span)>, end: Span, pos: usize) -> (r: Result<
    (Expr<'a>, usize),
    ParseError,
>)
    requires
        pos <= tokens@.len(),
    ensures
        unary(input_of(tokens@, end), pos as int) == expr_result(r),
        reads_on(r, pos, tokens@.len()),
    decreases tokens@.len() - pos, 4int,
{
    if pos < tokens.len() {
        let op = match tokens[pos].0 {
            Token::Sub => Some(UnaryOp::Neg),
            Token::Not => Some(UnaryOp::Not),
            _ => None,
        };
        match op {
            Some(op) => {
                return match parse_unary(tokens, end, pos + 1) {
                    Err(err) => Err(err),
                    Ok((operand, next)) => Ok(
                        (Expr::UnaryOp { op, expr: Box::new(operand) }, next),
                    ),
                };
            },
            None => {},
        }
    }
    parse_primary(tokens, end, pos)
}

fn parse_primary<'a>(tokens: &Vec<(Token<'a>, Span)>, end: Span, pos: usize) -> (r: Result<
    (Expr<'a>, usize),
    ParseError,
>)
    requires
        pos <= tokens@.len(),
    ensures
        primary(input_of(tokens@, end), pos as int) == expr_result(r),
        reads_on(r, pos, tokens@.len()),
    decreases tokens@.len() - pos, 3int,
{
    if pos >= tokens.len() {
        return Err(unexpected(tokens, end, pos));
    }
    match tokens[pos].0 {
        Token::Integer(text) => match parse_integer(text) {
            Some(value) => Ok((Expr::IntLit(value), pos + 1)),
            None => Err(ParseError { span: tokens[pos].1, kind: ParseErrorKind::InvalidInteger }),
        },
        Token::True => Ok((Expr::BoolLit(true), pos + 1)),
        Token::False => Ok((Expr::BoolLit(false), pos + 1)),
        Token::Identifier(name) => {
            if at(tokens, pos + 1, Mark::LParen) {
                match parse_arguments(tokens, end, pos + 2) {
                    Err(err) => Err(err),
                    Ok((args, next)) => Ok((Expr::FnCall { name, args }, next)),
                }
            } else {
                Ok((Expr::VarRef { name }, pos + 1))
            }
        },
        Token::LParen => match parse_expr(tokens, end, pos + 1) {
            Err(err) => Err(err),
            Ok((inner, next)) => match expect(tokens, end, next, Mark::RParen) {
                Err(err) => Err(err),
                Ok(behind) => Ok((inner, behind)),
            },
        },
        _ => Err(unexpected(tokens, end, pos)),
    }
}

#[verifier::loop_isolation(false)]
fn parse_arguments<'a>(tokens: &Vec<(Token<'a>, Span)>, end: Span, pos: usize) -> (r: Result<
    (Vec<Expr<'a>>, usize),
    ParseError,
>)
    requires
        pos <= tokens@.len(),
    ensures
        arguments(input_of(tokens@, end), pos as int) == exprs_result(r),
        reads_on(r, pos, tokens@.len()),
    decreases tokens@.len() - pos, 22int,
{
    let ghost input = input_of(tokens@, end);
    let mut args: Vec<Expr<'a>> = Vec::new();
    assert(exprs_view(args@) =~= Seq::empty());
    if at(tokens, pos, Mark::RParen) {
        return Ok((args, pos + 1));
    }
    let mut cur = pos;
    loop
        invariant
            pos <= cur <= tokens@.len(),
            arguments(input, pos as int) == more_arguments(input, cur as int, exprs_view(args@)),
        decreases tokens@.len() - cur,
    {
        let (arg, next) = match parse_expr(tokens, end, cur) {
            Err(err) => {
                return Err(err);
            },
            Ok(p) => p,
        };
        let ghost before = exprs_view(args@);
        let ghost pushed = arg@;
        args.push(arg);
        assert(exprs_view(args@) =~= before.push(pushed));
        if at(tokens, next, Mark::Comma) {
            cur = next + 1;
        } else if at(tokens, next, Mark::RParen) {
            return Ok((args, next + 1));
        } else {
            return Err(unexpected(tokens, end, next));
        }
    }
}

fn parse_parameter<'a>(tokens: &Vec<(Token<'a>, Span)>, end: Span, pos: usize) -> (r: Result<
    (FunctionParameter<'a>, usize),
    ParseError,
>)
    ensures
        match r {
            Ok((param, next)) => parameter(input_of(tokens@, end), pos as int) == Ok::<
                (ParamView, int),
                ParseError,
            >((param@, next as int)) && pos < next <= tokens@.len(),
            Err(err) => parameter(input_of(tokens@, end), pos as int) == Err::<
                (ParamView, int),
                ParseError,
            >(err),
        },
{
    let (text, colon) = match name(tokens, end, pos) {
        Err(err) => {
            return Err(err);
        },
        Ok(p) => p,
    };
    let at_type = match expect(tokens, end, colon, Mark::Colon) {
        Err(err) => {
            return Err(err);
        },
        Ok(p) => p,
    };
    match ty(tokens, end, at_type) {
        Err(err) => Err(err),
        Ok((t, next)) => Ok((FunctionParameter { name: text, ty: t }, next)),
    }
}

fn parse_parameters<'a>(tokens: &Vec<(Token<'a>, Span)>, end: Span, pos: usize) -> (r: Result<
    (Vec<FunctionParameter<'a>>, usize),
    ParseError,
>)
    requires
        pos <= tokens@.len(),
    ensures
        match r {
            Ok((params, next)) => parameters(input_of(tokens@, end), pos as int) == Ok::<
                (Seq<ParamView>, int),
                ParseError,
            >((params_view(params@), next as int)) && pos < next <= tokens@.len(),
            Err(err) => parameters(input_of(tokens@, end), pos as int) == Err::<
                (Seq<ParamView>, int),
                ParseError,
            >(err),
        },
{
    let ghost input = input_of(tokens@, end);
    let mut params: Vec<FunctionParameter<'a>> = Vec::new();
    assert(params_view(params@) =~= Seq::empty());
    if at(tokens, pos, Mark::RParen) {
        return Ok((params, pos + 1));
    }
    let mut cur = pos;
    loop
        invariant
            input == input_of(tokens@, end),
            pos <= cur <= tokens@.len(),
            parameters(input, pos as int) == more_parameters(
                input,
                cur as int,
                params_view(params@),
            ),
        decreases tokens@.len() - cur,
    {
        let (param, next) = match parse_parameter(tokens, end, cur) {
            Err(err) => {
                return Err(err);
            },
            Ok(p) => p,
        };
        let ghost before = params_view(params@);
        params.push(param);
        assert(params_view(params@) =~= before.push(param@));
        if at(tokens, next, Mark::Comma) {
            cur = next + 1;
        } else if at(tokens, next, Mark::RParen) {
            return Ok((params, next + 1));
        } else {
            return Err(unexpected(tokens, end, next));
        }
    }
}

fn parse_terminated_expr<'a>(tokens: &Vec<(Token<'a>, Span)>, end: Span, pos: usize) -> (r: Result<
    (Expr<'a>, usize),
    ParseError,
>)
    requires
        pos <= tokens@.len(),
    ensures
        terminated_expr(input_of(tokens@, end), pos as int) == expr_result(r),
        reads_on(r, pos, tokens@.len()),
{
    match parse_expr(tokens, end, pos) {
        Err(err) => Err(err),
        Ok((value, semicolon)) => match expect(tokens, end, semicolon, Mark::Semicolon) {
            Err(err) => Err(err),
            Ok(next) => Ok((value, next)),
        },
    }
}

fn parse_declaration<'a>(tokens: &Vec<(Token<'a>, Span)>, end: Span, pos: usize, mutable: bool) -> (r:
    Result<(Stmt<'a>, usize), ParseError>)
    requires
        pos < tokens@.len(),
    ensures
        (if mutable {
            var_decl(input_of(tokens@, end), pos as int)
        } else {
            let_decl(input_of(tokens@, end), pos as int)
        }) == stmt_result(r),
        reads_on(r, pos, tokens@.len()),
{
    let len = tokens.len();    let (text, behind_name) = match name(tokens, end, pos + 1) {
        Err(err) => {
            return Err(err);
        },
        Ok(p) => p,
    };
    let mut declared: Option<Type> = None;
    let mut cur = behind_name;
    if at(tokens, behind_name, Mark::Colon) {
        let (t, behind_type) = match ty(tokens, end, behind_name + 1) {
            Err(err) => {
                return Err(err);
            },
            Ok(p) => p,
        };
        if mutable && at(tokens, behind_type, Mark::Semicolon) {
            return Ok((Stmt::VarDecl { name: text, ty: Some(t), value: None }, behind_type + 1));
        }
        declared = Some(t);
        cur = behind_type;
    }
    let at_value = match expect(tokens, end, cur, Mark::Assign) {
        Err(err) => {
            return Err(err);
        },
        Ok(p) => p,
    };
    match parse_terminated_expr(tokens, end, at_value) {
        Err(err) => Err(err),
        Ok((value, next)) => if mutable {
            Ok((Stmt::VarDecl { name: text, ty: declared, value: Some(value) }, next))
        } else {
            Ok((Stmt::LetDecl { name: text, ty: declared, value: Some(value) }, next))
        },
    }
}

fn parse_return<'a>(tokens: &Vec<(Token<'a>, Span)>, end: Span, pos: usize) -> (r: Result<
    (Stmt<'a>, usize),
    ParseError,
>)
    requires
        pos < tokens@.len(),
    ensures
        return_stmt(input_of(tokens@, end), pos as int) == stmt_result(r),
        reads_on(r, pos, tokens@.len()),
{
    let len = tokens.len();    if at(tokens, pos + 1, Mark::Semicolon) {
        Ok((Stmt::Return { expr: None }, pos + 2))
    } else {
        match parse_terminated_expr(tokens, end, pos + 1) {
            Err(err) => Err(err),
            Ok((value, next)) => Ok((Stmt::Return { expr: Some(Box::new(value)) }, next)),
        }
    }
}

fn parse_simple_statement<'a>(tokens: &Vec<(Token<'a>, Span)>, end: Span, pos: usize) -> (r: Option<
    Result<(Stmt<'a>, usize), ParseError>,
>)
    requires
        pos < tokens@.len(),
    ensures
        match r {
            Some(r) => starts_simple_statement(input_of(tokens@, end), pos as int)
                && simple_statement(input_of(tokens@, end), pos as int) == stmt_result(r)
                && reads_on(r, pos, tokens@.len()),
            None => !starts_simple_statement(input_of(tokens@, end), pos as int),
        },
{
    let len = tokens.len();    match tokens[pos].0 {
        Token::LetDeclaration => Some(parse_declaration(tokens, end, pos, false)),
        Token::VarDeclaration => Some(parse_declaration(tokens, end, pos, true)),
        Token::Return => Some(parse_return(tokens, end, pos)),
        Token::Identifier(text) => {
            if at(tokens, pos + 1, Mark::Assign) {
                Some(
                    match parse_terminated_expr(tokens, end, pos + 2) {
                        Err(err) => Err(err),
                        Ok((value, next)) => Ok(
                            (Stmt::Assign { name: text, value: Box::new(value) }, next),
                        ),
                    },
                )
            } else {
                None
            }
        },
        _ => None,
    }
}

#[verifier::loop_isolation(false)]
#[verifier::rlimit(30)]
fn parse_statements<'a>(tokens: &Vec<(Token<'a>, Span)>, end: Span, pos: usize, nested: bool) -> (r:
    Result<(Vec<Stmt<'a>>, usize), ParseError>)
    requires
        pos <= tokens@.len(),
    ensures
        statements(input_of(tokens@, end), pos as int, Seq::empty(), nested) == stmts_result(r),
        r matches Ok(p) ==> pos <= p.1 <= tokens@.len() && block_ends(
            input_of(tokens@, end),
            p.1 as int,
            nested,
        ),
    decreases tokens@.len() - pos, 30int,
{
    let ghost input = input_of(tokens@, end);
    let mut stmts: Vec<Stmt<'a>> = Vec::new();
    assert(stmts_view(stmts@) =~= Seq::empty());
    let mut cur = pos;
    loop
        invariant
            pos <= cur <= tokens@.len(),
            statements(input, pos as int, Seq::empty(), nested) == statements(
                input,
                cur as int,
                stmts_view(stmts@),
                nested,
            ),
        decreases tokens@.len() - cur,
    {
        if cur >= tokens.len() {
            if nested {
                return Err(unexpected(tokens, end, cur));
            } else {
                return Ok((stmts, cur));
            }
        }
        let ghost before = stmts_view(stmts@);
        let parsed = match tokens[cur].0 {
            Token::RBrace => {
                if nested {
                    return Ok((stmts, cur));
                } else {
                    return Err(unexpected(tokens, end, cur));
                }
            },
            Token::FunctionDeclaration => parse_function(tokens, end, cur),
            Token::If => parse_conditional(tokens, end, cur),
            _ => match parse_simple_statement(tokens, end, cur) {
                Some(r) => r,
                None => {
                    let (value, next) = match parse_expr(tokens, end, cur) {
                        Err(err) => {
                            return Err(err);
                        },
                        Ok(p) => p,
                    };
                    if at(tokens, next, Mark::Semicolon) {
                        Ok((Stmt::ExprStmt { expr: Box::new(value) }, next + 1))
                    } else {
                        let ends = if nested {
                            at(tokens, next, Mark::RBrace)
                        } else {
                            next >= tokens.len()
                        };
                        if ends {
                            let tail = Stmt::Expr { expr: Box::new(value) };
                            let ghost pushed = tail@;
                            stmts.push(tail);
                            assert(stmts_view(stmts@) =~= before.push(pushed));
                            return Ok((stmts, next));
                        } else {
                            return Err(unexpected(tokens, end, next));
                        }
                    }
                },
            },
        };
        let (s, next) = match parsed {
            Err(err) => {
                return Err(err);
            },
            Ok(p) => p,
        };
        let ghost pushed = s@;
        stmts.push(s);
        assert(stmts_view(stmts@) =~= before.push(pushed));
        cur = next;
    }
}

fn parse_block<'a>(tokens: &Vec<(Token<'a>, Span)>, end: Span, pos: usize) -> (r: Result<
    (Vec<Stmt<'a>>, usize),
    ParseError,
>)
    requires
        pos <= tokens@.len(),
    ensures
        block(input_of(tokens@, end), pos as int) == stmts_result(r),
        reads_on(r, pos, tokens@.len()),
    decreases tokens@.len() - pos, 31int,
{
    if at(tokens, pos, Mark::LBrace) {
        match parse_statements(tokens, end, pos + 1, true) {
            Err(err) => Err(err),
            Ok((stmts, close)) => Ok((stmts, close + 1)),
        }
    } else {
        Err(unexpected(tokens, end, pos))
    }
}

fn parse_function<'a>(tokens: &Vec<(Token<'a>, Span)>, end: Span, pos: usize) -> (r: Result<
    (Stmt<'a>, usize),
    ParseError,
>)
    requires
        pos < tokens@.len(),
    ensures
        function(input_of(tokens@, end), pos as int) == stmt_result(r),
        reads_on(r, pos, tokens@.len()),
    decreases tokens@.len() - pos, 29int,
{
    let len = tokens.len();    let (text, paren) = match name(tokens, end, pos + 1) {
        Err(err) => {
            return Err(err);
        },
        Ok(p) => p,
    };
    let at_params = match expect(tokens, end, paren, Mark::LParen) {
        Err(err) => {
            return Err(err);
        },
        Ok(p) => p,
    };
    let (params, arrow) = match parse_parameters(tokens, end, at_params) {
        Err(err) => {
            return Err(err);
        },
        Ok(p) => p,
    };
    let at_type = match expect(tokens, end, arrow, Mark::RightArrow) {
        Err(err) => {
            return Err(err);
        },
        Ok(p) => p,
    };
    let (t, at_body) = match ty(tokens, end, at_type) {
        Err(err) => {
            return Err(err);
        },
        Ok(p) => p,
    };
    match parse_block(tokens, end, at_body) {
        Err(err) => Err(err),
        Ok((body, next)) => Ok((Stmt::FnDecl { name: text, params, ty: t, body }, next)),
    }
}

fn parse_conditional<'a>(tokens: &Vec<(Token<'a>, Span)>, end: Span, pos: usize) -> (r: Result<
    (Stmt<'a>, usize),
    ParseError,
>)
    requires
        pos < tokens@.len(),
    ensures
        conditional(input_of(tokens@, end), pos as int) == stmt_result(r),
        reads_on(r, pos, tokens@.len()),
    decreases tokens@.len() - pos, 29int,
{
    let len = tokens.len();    let (condition, at_then) = match parse_expr(tokens, end, pos + 1) {
        Err(err) => {
            return Err(err);
        },
        Ok(p) => p,
    };
    let (then_branch, next) = match parse_block(tokens, end, at_then) {
        Err(err) => {
            return Err(err);
        },
        Ok(p) => p,
    };
    if !at(tokens, next, Mark::Else) {
        return Ok(
            (Stmt::If { condition: Box::new(condition), then_branch, else_branch: None }, next),
        );
    }
    if at(tokens, next + 1, Mark::If) {
        let (nested, behind) = match parse_conditional(tokens, end, next + 1) {
            Err(err) => {
                return Err(err);
            },
            Ok(p) => p,
        };
        let ghost inner = nested@;
        let mut else_branch: Vec<Stmt<'a>> = Vec::new();
        else_branch.push(nested);
        assert(stmts_view(else_branch@) =~= seq![inner]);
        Ok(
            (
                Stmt::If {
                    condition: Box::new(condition),
                    then_branch,
                    else_branch: Some(else_branch),
                },
                behind,
            ),
        )
    } else {
        match parse_block(tokens, end, next + 1) {
            Err(err) => Err(err),
            Ok((else_branch, behind)) => Ok(
                (
                    Stmt::If {
                        condition: Box::new(condition),
                        then_branch,
                        else_branch: Some(else_branch),
                    },
                    behind,
                ),
            ),
        }
    }
}

/// What the parser gives for a program, as the grammar states it.
pub open spec fn program_result(r: Result<Program, Vec<ParseError>>) -> Result<
    Seq<StmtView>,
    Seq<ParseError>,
> {
    match r {
        Ok(p) => Ok(p@),
        Err(errors) => Err(errors@),
    }
}

fn collect_lexical_errors(tokens: &Vec<(Token, Span)>) -> (errors: Vec<ParseError>)
    ensures
        errors@ == lexical_errors(tokens_view(tokens@), tokens@.len() as int),
{
    let mut errors: Vec<ParseError> = Vec::new();
    let mut i: usize = 0;
    while i < tokens.len()
        invariant
            0 <= i <= tokens@.len(),
            errors@ == lexical_errors(tokens_view(tokens@), i as int),
        decreases tokens@.len() - i,
    {
        match tokens[i].0 {
            Token::Error => {
                errors.push(
                    ParseError { span: tokens[i].1, kind: ParseErrorKind::UnrecognizedInput },
                );
            },
            _ => {},
        }
        i += 1;
    }
    errors
}

/// Parses a sequence of tokens into a program. `end` is the span that an
/// error at the end of the input is given.
///
/// Where the tokens are no program, the errors say why: each error token,
/// where there are any, or else the first token that the grammar does not
/// allow where it stands. There is at least one.
pub fn parser<'a>(tokens: &Vec<(Token<'a>, Span)>, end: Span) -> (r: Result<
    Program<'a>,
    Vec<ParseError>,
>)
    ensures
        program(input_of(tokens@, end)) == program_result(r),
        r matches Ok(p) ==> tail_only_at_end(p@),
        r matches Err(errors) ==> errors@.len() > 0,
{
    proof {
        if program(input_of(tokens@, end)) is Ok {
            lemma_program_well_formed(input_of(tokens@, end));
        }
    }
    let errors = collect_lexical_errors(tokens);
    if errors.len() > 0 {
        return Err(errors);
    }
    match parse_statements(tokens, end, 0, false) {
        Err(err) => {
            let mut errors: Vec<ParseError> = Vec::new();
            errors.push(err);
            assert(errors@ =~= seq![err]);
            Err(errors)
        },
        Ok((statements, _)) => Ok(Program { statements }),
    }
}

/// The span that stands for the end of a text of `len` bytes: the whole
/// text.
pub open spec fn end_span(len: nat) -> Span {
    Span { start: 0, end: len as usize }
}

/// The program that a text is, or what is wrong with it.
pub open spec fn parse_text(bytes: Seq<u8>) -> Result<Seq<StmtView>, Seq<ParseError>> {
    program(Input { tokens: tokenize(bytes), end: end_span(bytes.len()) })
}

/// Parsing is a function of the text: two results of parsing one text are
/// the same program, or the same errors.
pub proof fn lemma_parse_is_deterministic(
    src: &str,
    first: Result<Program, Vec<ParseError>>,
    second: Result<Program, Vec<ParseError>>,
)
    requires
        parse_text(src.spec_bytes()) == program_result(first),
        parse_text(src.spec_bytes()) == program_result(second),
    ensures
        program_result(first) == program_result(second),
        first is Ok <==> second is Ok,
        first matches Ok(p) ==> second matches Ok(q) && p@ == q@,
        first matches Err(e) ==> second matches Err(f) && e@ == f@,
{
}

/// Parses source text into a program: splits it into tokens and parses
/// those.
pub fn parse<'a>(src: &'a str) -> (r: Result<Program<'a>, Vec<ParseError>>)
    ensures
        parse_text(src.spec_bytes()) == program_result(r),
        r matches Ok(p) ==> tail_only_at_end(p@),
        r matches Err(errors) ==> errors@.len() > 0,
{
    let tokens = lex(src);
    parser(&tokens, Span { start: 0, end: src.len() })
}

} // verus!
