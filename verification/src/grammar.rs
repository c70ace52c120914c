//! The grammar of the language: what the parser makes of a sequence of
//! tokens, defined as a mathematical function.
//!
//! Each function reads the tokens from a position on and gives what it has
//! read and the position behind it, or the first place where the tokens are
//! not what the grammar allows.
//!
//! ```text
//! program    := statements
//! statements := { statement } [ expr ]
//! statement  := function | let | var | if | return | assign | expr ";"
//! function   := "fn" name "(" [ param { "," param } ] ")" "->" type block
//! param      := name ":" type
//! block      := "{" statements "}"
//! let        := "let" name [ ":" type ] "=" expr ";"
//! var        := "var" name ( ":" type [ "=" expr ] | "=" expr ) ";"
//! if         := "if" expr block [ "else" ( block | if ) ]
//! return     := "return" [ expr ] ";"
//! assign     := name "=" expr ";"
//! expr       := or
//! or         := and { "||" and }
//! and        := equality { "&&" equality }
//! equality   := relation { ( "==" | "!=" ) relation }
//! relation   := sum { ( "<" | "<=" | ">" | ">=" ) sum }
//! sum        := product { ( "+" | "-" ) product }
//! product    := unary { ( "*" | "/" ) unary }
//! unary      := ( "-" | "!" ) unary | primary
//! primary    := integer | "true" | "false" | name [ "(" [ expr { "," expr } ] ")" ]
//!               | "(" expr ")"
//! ```

use crate::ast::{
    blocks_well_formed, lemma_no_tail_among, lemma_no_tail_among_prefix, no_tail_among,
    tail_only_at_end, BinOp, ExprView, ParamView, StmtView, Type, UnaryOp,
};
use crate::token::{Span, TokenView};
use vstd::prelude::*;

verus! {

/// What is wrong at the place of a parse error.
#[derive(Debug, Clone, Copy, PartialEq, Eq, Structural)]
pub enum ParseErrorKind {
    /// The text there is no token
    UnrecognizedInput,
    /// The token there is not one that the grammar allows there
    UnexpectedToken,
    /// The tokens end where the grammar asks for more
    UnexpectedEnd,
    /// The integer literal there is not a number of 64 bits
    InvalidInteger,
}

/// A parse error: what is wrong, and where in the source text.
#[derive(Debug, Clone, Copy, PartialEq, Eq, Structural)]
pub struct ParseError {
    pub span: Span,
    pub kind: ParseErrorKind,
}

impl ParseErrorKind {
    /// The text of the message of an error of this kind.
    pub open spec fn text(self) -> Seq<char> {
        match self {
            ParseErrorKind::UnrecognizedInput => "unrecognized input"@,
            ParseErrorKind::UnexpectedToken => "unexpected token"@,
            ParseErrorKind::UnexpectedEnd => "unexpected end of input"@,
            ParseErrorKind::InvalidInteger => "integer literal out of range"@,
        }
    }
}

impl ParseError {
    /// The error's message.
    pub fn message(&self) -> (r: &'static str)
        ensures
            r@ == self.kind.text(),
    {
        match self.kind {
            ParseErrorKind::UnrecognizedInput => "unrecognized input",
            ParseErrorKind::UnexpectedToken => "unexpected token",
            ParseErrorKind::UnexpectedEnd => "unexpected end of input",
            ParseErrorKind::InvalidInteger => "integer literal out of range",
        }
    }
}

/// The tokens to parse, and the span that stands for the end of the input.
pub struct Input {
    pub tokens: Seq<(TokenView, Span)>,
    pub end: Span,
}

/// What a grammar function gives: a value and the position behind what was
/// read, or an error.
pub type Parsed<T> = Result<(T, int), ParseError>;

impl Input {
    /// The token at `pos`, if there is one.
    pub open spec fn peek(self, pos: int) -> Option<TokenView> {
        if 0 <= pos < self.tokens.len() {
            Some(self.tokens[pos].0)
        } else {
            None
        }
    }

    /// The error of finding, at `pos`, something that the grammar does not
    /// allow there: the token at `pos`, or the end of the input.
    pub open spec fn unexpected(self, pos: int) -> ParseError {
        if 0 <= pos < self.tokens.len() {
            ParseError { span: self.tokens[pos].1, kind: ParseErrorKind::UnexpectedToken }
        } else {
            ParseError { span: self.end, kind: ParseErrorKind::UnexpectedEnd }
        }
    }

    /// The position behind the token at `pos`, which must be `token`.
    pub open spec fn expect(self, pos: int, token: TokenView) -> Result<int, ParseError> {
        if self.peek(pos) == Some(token) {
            Ok(pos + 1)
        } else {
            Err(self.unexpected(pos))
        }
    }

    /// The name at `pos` and the position behind it.
    pub open spec fn name(self, pos: int) -> Parsed<Seq<char>> {
        match self.peek(pos) {
            Some(TokenView::Identifier(text)) => Ok((text, pos + 1)),
            _ => Err(self.unexpected(pos)),
        }
    }

    /// The type at `pos` and the position behind it.
    pub open spec fn ty(self, pos: int) -> Parsed<Type> {
        match self.peek(pos) {
            Some(TokenView::Identifier(text)) => match type_of_name(text) {
                Some(ty) => Ok((ty, pos + 1)),
                None => Err(self.unexpected(pos)),
            },
            _ => Err(self.unexpected(pos)),
        }
    }

    /// Whether `next` is a position of the input behind `pos`. Whatever the
    /// grammar reads takes at least one token, so this holds of every
    /// position that a grammar function gives: where one of them asks for
    /// it, it never fails.
    pub open spec fn behind(self, pos: int, next: int) -> bool {
        0 <= pos < next <= self.tokens.len()
    }
}

/// The type that `text` names, if it names one.
pub open spec fn type_of_name(text: Seq<char>) -> Option<Type> {
    if text == "i32"@ {
        Some(Type::I32)
    } else if text == "i64"@ {
        Some(Type::I64)
    } else if text == "f32"@ {
        Some(Type::F32)
    } else if text == "f64"@ {
        Some(Type::F64)
    } else if text == "void"@ {
        Some(Type::Void)
    } else if text == "string"@ {
        Some(Type::String)
    } else {
        None
    }
}

/// Whether `c` is a decimal digit.
pub open spec fn is_digit_char(c: char) -> bool {
    '0' <= c <= '9'
}

/// The number that the digits of `text` are in base ten.
pub open spec fn digits_value(text: Seq<char>) -> int
    decreases text.len(),
{
    if text.len() == 0 {
        0
    } else {
        digits_value(text.drop_last()) * 10 + (text.last() as int - '0' as int)
    }
}

/// The value of the integer literal `text`, if `text` is one or more digits
/// and their number fits in 64 bits.
pub open spec fn integer_value(text: Seq<char>) -> Option<i64> {
    if text.len() > 0 && (forall|i: int| 0 <= i < text.len() ==> is_digit_char(#[trigger] text[i]))
        && digits_value(text) <= i64::MAX {
        Some(digits_value(text) as i64)
    } else {
        None
    }
}

/// The binary operator that `token` is at the level `level` of precedence.
/// Level 0 binds loosest.
pub open spec fn binary_operator(level: int, token: TokenView) -> Option<BinOp> {
    if level == 0 {
        match token {
            TokenView::Or => Some(BinOp::Or),
            _ => None,
        }
    } else if level == 1 {
        match token {
            TokenView::And => Some(BinOp::And),
            _ => None,
        }
    } else if level == 2 {
        match token {
            TokenView::Equal => Some(BinOp::Equal),
            TokenView::NotEqual => Some(BinOp::NotEqual),
            _ => None,
        }
    } else if level == 3 {
        match token {
            TokenView::LessThan => Some(BinOp::LessThan),
            TokenView::LessThanOrEqual => Some(BinOp::LessThanOrEqual),
            TokenView::GreaterThan => Some(BinOp::GreaterThan),
            TokenView::GreaterThanOrEqual => Some(BinOp::GreaterThanOrEqual),
            _ => None,
        }
    } else if level == 4 {
        match token {
            TokenView::Add => Some(BinOp::Add),
            TokenView::Sub => Some(BinOp::Sub),
            _ => None,
        }
    } else if level == 5 {
        match token {
            TokenView::Mul => Some(BinOp::Mul),
            TokenView::Div => Some(BinOp::Div),
            _ => None,
        }
    } else {
        None
    }
}

/// The number of levels of binary operators.
pub open spec fn levels() -> int {
    6
}

/// The expression at `pos`.
pub open spec fn expr(input: Input, pos: int) -> Parsed<ExprView>
    decreases input.tokens.len() - pos, 20int, 0int,
{
    if 0 <= pos <= input.tokens.len() {
        binary(input, pos, 0)
    } else {
        Err(input.unexpected(pos))
    }
}

/// The expression at `pos` whose operators are of level `level` or bind
/// tighter: a chain of operands of the next level, joined from the left by
/// operators of this level.
pub open spec fn binary(input: Input, pos: int, level: int) -> Parsed<ExprView>
    decreases input.tokens.len() - pos, 18 - 2 * level, 0int,
{
    if 0 <= pos <= input.tokens.len() && 0 <= level <= levels() {
        if level == levels() {
            unary(input, pos)
        } else {
            match binary(input, pos, level + 1) {
                Err(err) => Err(err),
                Ok((lhs, next)) => if input.behind(pos, next) {
                    binary_rest(input, next, level, lhs)
                } else {
                    Err(input.unexpected(pos))
                },
            }
        }
    } else {
        Err(input.unexpected(pos))
    }
}

/// The expression that `lhs` becomes when the operators of level `level`
/// at `pos`, each with its right operand, are joined to it from the left.
pub open spec fn binary_rest(input: Input, pos: int, level: int, lhs: ExprView) -> Parsed<ExprView>
    decreases input.tokens.len() - pos, 17 - 2 * level, 0int,
{
    if 0 <= pos < input.tokens.len() && 0 <= level < levels() {
        match binary_operator(level, input.tokens[pos].0) {
            None => Ok((lhs, pos)),
            Some(op) => match binary(input, pos + 1, level + 1) {
                Err(err) => Err(err),
                Ok((rhs, next)) => if input.behind(pos + 1, next) {
                    binary_rest(
                        input,
                        next,
                        level,
                        ExprView::BinOp { lhs: Box::new(lhs), op, rhs: Box::new(rhs) },
                    )
                } else {
                    Err(input.unexpected(pos))
                },
            },
        }
    } else {
        Ok((lhs, pos))
    }
}

/// The expression at `pos` that is a primary expression behind any number
/// of unary operators.
pub open spec fn unary(input: Input, pos: int) -> Parsed<ExprView>
    decreases input.tokens.len() - pos, 4int, 0int,
{
    match input.peek(pos) {
        Some(TokenView::Sub) => match unary(input, pos + 1) {
            Err(err) => Err(err),
            Ok((operand, next)) => Ok(
                (ExprView::UnaryOp { op: UnaryOp::Neg, expr: Box::new(operand) }, next),
            ),
        },
        Some(TokenView::Not) => match unary(input, pos + 1) {
            Err(err) => Err(err),
            Ok((operand, next)) => Ok(
                (ExprView::UnaryOp { op: UnaryOp::Not, expr: Box::new(operand) }, next),
            ),
        },
        _ => primary(input, pos),
    }
}

/// The primary expression at `pos`: a literal, a variable, a call, or an
/// expression in parentheses.
pub open spec fn primary(input: Input, pos: int) -> Parsed<ExprView>
    decreases input.tokens.len() - pos, 3int, 0int,
{
    match input.peek(pos) {
        Some(TokenView::Integer(text)) => match integer_value(text) {
            Some(value) => Ok((ExprView::IntLit(value), pos + 1)),
            None => Err(
                ParseError { span: input.tokens[pos].1, kind: ParseErrorKind::InvalidInteger },
            ),
        },
        Some(TokenView::True) => Ok((ExprView::BoolLit(true), pos + 1)),
        Some(TokenView::False) => Ok((ExprView::BoolLit(false), pos + 1)),
        Some(TokenView::Identifier(name)) => if input.peek(pos + 1) == Some(TokenView::LParen) {
            match arguments(input, pos + 2) {
                Err(err) => Err(err),
                Ok((args, next)) => Ok((ExprView::FnCall { name, args }, next)),
            }
        } else {
            Ok((ExprView::VarRef { name }, pos + 1))
        },
        Some(TokenView::LParen) => match expr(input, pos + 1) {
            Err(err) => Err(err),
            Ok((inner, next)) => match input.expect(next, TokenView::RParen) {
                Err(err) => Err(err),
                Ok(behind) => Ok((inner, behind)),
            },
        },
        _ => Err(input.unexpected(pos)),
    }
}

/// The arguments of a call, from behind its `(` at `pos` up to its `)`.
pub open spec fn arguments(input: Input, pos: int) -> Parsed<Seq<ExprView>>
    decreases input.tokens.len() - pos, 22int, 0int,
{
    if input.peek(pos) == Some(TokenView::RParen) {
        Ok((Seq::empty(), pos + 1))
    } else {
        more_arguments(input, pos, Seq::empty())
    }
}

/// The arguments `args` and those that follow at `pos`, separated by
/// commas, up to the `)` of the call.
pub open spec fn more_arguments(input: Input, pos: int, args: Seq<ExprView>) -> Parsed<
    Seq<ExprView>,
>
    decreases input.tokens.len() - pos, 21int, 0int,
{
    match expr(input, pos) {
        Err(err) => Err(err),
        Ok((arg, next)) => if input.behind(pos, next) {
            match input.peek(next) {
                Some(TokenView::Comma) => more_arguments(input, next + 1, args.push(arg)),
                Some(TokenView::RParen) => Ok((args.push(arg), next + 1)),
                _ => Err(input.unexpected(next)),
            }
        } else {
            Err(input.unexpected(pos))
        },
    }
}

/// The parameters of a function, from behind its `(` at `pos` up to its
/// `)`.
pub open spec fn parameters(input: Input, pos: int) -> Parsed<Seq<ParamView>> {
    if input.peek(pos) == Some(TokenView::RParen) {
        Ok((Seq::empty(), pos + 1))
    } else {
        more_parameters(input, pos, Seq::empty())
    }
}

/// The parameter at `pos`: a name, a colon and a type.
pub open spec fn parameter(input: Input, pos: int) -> Parsed<ParamView> {
    match input.name(pos) {
        Err(err) => Err(err),
        Ok((name, colon)) => match input.expect(colon, TokenView::Colon) {
            Err(err) => Err(err),
            Ok(at_type) => match input.ty(at_type) {
                Err(err) => Err(err),
                Ok((ty, next)) => Ok((ParamView { name, ty }, next)),
            },
        },
    }
}

/// The parameters `params` and those that follow at `pos`, separated by
/// commas, up to the `)` of the list.
pub open spec fn more_parameters(input: Input, pos: int, params: Seq<ParamView>) -> Parsed<
    Seq<ParamView>,
>
    decreases input.tokens.len() - pos,
{
    match parameter(input, pos) {
        Err(err) => Err(err),
        Ok((param, next)) => if input.behind(pos, next) {
            match input.peek(next) {
                Some(TokenView::Comma) => more_parameters(input, next + 1, params.push(param)),
                Some(TokenView::RParen) => Ok((params.push(param), next + 1)),
                _ => Err(input.unexpected(next)),
            }
        } else {
            Err(input.unexpected(pos))
        },
    }
}

/// The expression at `pos` and the `;` behind it.
pub open spec fn terminated_expr(input: Input, pos: int) -> Parsed<ExprView> {
    match expr(input, pos) {
        Err(err) => Err(err),
        Ok((value, semicolon)) => match input.expect(semicolon, TokenView::Semicolon) {
            Err(err) => Err(err),
            Ok(next) => Ok((value, next)),
        },
    }
}

/// The `let` declaration whose `let` is at `pos`. It must have an
/// initializer; its type is optional.
pub open spec fn let_decl(input: Input, pos: int) -> Parsed<StmtView> {
    match input.name(pos + 1) {
        Err(err) => Err(err),
        Ok((name, behind_name)) => if input.peek(behind_name) == Some(TokenView::Colon) {
            match input.ty(behind_name + 1) {
                Err(err) => Err(err),
                Ok((ty, assign)) => match input.expect(assign, TokenView::Assign) {
                    Err(err) => Err(err),
                    Ok(at_value) => match terminated_expr(input, at_value) {
                        Err(err) => Err(err),
                        Ok((value, next)) => Ok(
                            (StmtView::LetDecl { name, ty: Some(ty), value: Some(value) }, next),
                        ),
                    },
                },
            }
        } else {
            match input.expect(behind_name, TokenView::Assign) {
                Err(err) => Err(err),
                Ok(at_value) => match terminated_expr(input, at_value) {
                    Err(err) => Err(err),
                    Ok((value, next)) => Ok(
                        (StmtView::LetDecl { name, ty: None, value: Some(value) }, next),
                    ),
                },
            }
        },
    }
}

/// The `var` declaration whose `var` is at `pos`. Its type is optional
/// where it has an initializer, and is needed where it has none.
pub open spec fn var_decl(input: Input, pos: int) -> Parsed<StmtView> {
    match input.name(pos + 1) {
        Err(err) => Err(err),
        Ok((name, behind_name)) => if input.peek(behind_name) == Some(TokenView::Colon) {
            match input.ty(behind_name + 1) {
                Err(err) => Err(err),
                Ok((ty, behind_type)) => if input.peek(behind_type) == Some(
                    TokenView::Semicolon,
                ) {
                    Ok((StmtView::VarDecl { name, ty: Some(ty), value: None }, behind_type + 1))
                } else {
                    match input.expect(behind_type, TokenView::Assign) {
                        Err(err) => Err(err),
                        Ok(at_value) => match terminated_expr(input, at_value) {
                            Err(err) => Err(err),
                            Ok((value, next)) => Ok(
                                (
                                    StmtView::VarDecl { name, ty: Some(ty), value: Some(value) },
                                    next,
                                ),
                            ),
                        },
                    }
                },
            }
        } else {
            match input.expect(behind_name, TokenView::Assign) {
                Err(err) => Err(err),
                Ok(at_value) => match terminated_expr(input, at_value) {
                    Err(err) => Err(err),
                    Ok((value, next)) => Ok(
                        (StmtView::VarDecl { name, ty: None, value: Some(value) }, next),
                    ),
                },
            }
        },
    }
}

/// The `return` statement whose `return` is at `pos`.
pub open spec fn return_stmt(input: Input, pos: int) -> Parsed<StmtView> {
    if input.peek(pos + 1) == Some(TokenView::Semicolon) {
        Ok((StmtView::Return { expr: None }, pos + 2))
    } else {
        match terminated_expr(input, pos + 1) {
            Err(err) => Err(err),
            Ok((value, next)) => Ok((StmtView::Return { expr: Some(value) }, next)),
        }
    }
}

/// The assignment whose target is the name `name` at `pos`, followed by
/// `=`.
pub open spec fn assignment(input: Input, pos: int, name: Seq<char>) -> Parsed<StmtView> {
    match terminated_expr(input, pos + 2) {
        Err(err) => Err(err),
        Ok((value, next)) => Ok((StmtView::Assign { name, value }, next)),
    }
}

/// The statements of a block from `pos` on, behind the statements `stmts`
/// of the same block, and the position of what ends the block: a `}` where
/// `nested` says that the block is in braces, the end of the input where it
/// is the program.
///
/// An expression that no `;` follows ends the block and is its value.
pub open spec fn statements(input: Input, pos: int, stmts: Seq<StmtView>, nested: bool) -> Parsed<
    Seq<StmtView>,
>
    decreases input.tokens.len() - pos, 30int, 0int,
{
    match input.peek(pos) {
        None => if nested {
            Err(input.unexpected(pos))
        } else {
            Ok((stmts, pos))
        },
        Some(TokenView::RBrace) => if nested {
            Ok((stmts, pos))
        } else {
            Err(input.unexpected(pos))
        },
        Some(TokenView::FunctionDeclaration) => match function(input, pos) {
            Err(err) => Err(err),
            Ok((s, next)) => if input.behind(pos, next) {
                statements(input, next, stmts.push(s), nested)
            } else {
                Err(input.unexpected(pos))
            },
        },
        Some(TokenView::If) => match conditional(input, pos) {
            Err(err) => Err(err),
            Ok((s, next)) => if input.behind(pos, next) {
                statements(input, next, stmts.push(s), nested)
            } else {
                Err(input.unexpected(pos))
            },
        },
        Some(token) => if starts_simple_statement(input, pos) {
            match simple_statement(input, pos) {
                Err(err) => Err(err),
                Ok((s, next)) => if input.behind(pos, next) {
                    statements(input, next, stmts.push(s), nested)
                } else {
                    Err(input.unexpected(pos))
                },
            }
        } else {
            match expr(input, pos) {
                Err(err) => Err(err),
                Ok((value, next)) => if input.behind(pos, next) {
                    if input.peek(next) == Some(TokenView::Semicolon) {
                        statements(
                            input,
                            next + 1,
                            stmts.push(StmtView::ExprStmt { expr: value }),
                            nested,
                        )
                    } else if block_ends(input, next, nested) {
                        Ok((stmts.push(StmtView::Expr { expr: value }), next))
                    } else {
                        Err(input.unexpected(next))
                    }
                } else {
                    Err(input.unexpected(pos))
                },
            }
        },
    }
}

/// Whether the block ends at `pos`: with a `}` where it is in braces, with
/// the input where it is the program.
pub open spec fn block_ends(input: Input, pos: int, nested: bool) -> bool {
    if nested {
        input.peek(pos) == Some(TokenView::RBrace)
    } else {
        input.peek(pos) is None
    }
}

/// Whether a declaration of a variable, a `return` or an assignment starts
/// at `pos`. An assignment starts with a name and `=`.
pub open spec fn starts_simple_statement(input: Input, pos: int) -> bool {
    match input.peek(pos) {
        Some(TokenView::LetDeclaration) => true,
        Some(TokenView::VarDeclaration) => true,
        Some(TokenView::Return) => true,
        Some(TokenView::Identifier(_)) => input.peek(pos + 1) == Some(TokenView::Assign),
        _ => false,
    }
}

/// The declaration of a variable, the `return` or the assignment at `pos`.
pub open spec fn simple_statement(input: Input, pos: int) -> Parsed<StmtView> {
    match input.peek(pos) {
        Some(TokenView::LetDeclaration) => let_decl(input, pos),
        Some(TokenView::VarDeclaration) => var_decl(input, pos),
        Some(TokenView::Return) => return_stmt(input, pos),
        Some(TokenView::Identifier(name)) => assignment(input, pos, name),
        _ => Err(input.unexpected(pos)),
    }
}

/// The block whose `{` is at `pos`.
pub open spec fn block(input: Input, pos: int) -> Parsed<Seq<StmtView>>
    decreases input.tokens.len() - pos, 31int, 0int,
{
    if input.peek(pos) == Some(TokenView::LBrace) {
        match statements(input, pos + 1, Seq::empty(), true) {
            Err(err) => Err(err),
            Ok((stmts, close)) => Ok((stmts, close + 1)),
        }
    } else {
        Err(input.unexpected(pos))
    }
}

/// The function declaration whose `fn` is at `pos`.
pub open spec fn function(input: Input, pos: int) -> Parsed<StmtView>
    decreases input.tokens.len() - pos, 29int, 0int,
{
    match input.name(pos + 1) {
        Err(err) => Err(err),
        Ok((name, paren)) => match input.expect(paren, TokenView::LParen) {
            Err(err) => Err(err),
            Ok(at_params) => match parameters(input, at_params) {
                Err(err) => Err(err),
                Ok((params, arrow)) => match input.expect(arrow, TokenView::RightArrow) {
                    Err(err) => Err(err),
                    Ok(at_type) => match input.ty(at_type) {
                        Err(err) => Err(err),
                        Ok((ty, at_body)) => if input.behind(pos, at_body) {
                            match block(input, at_body) {
                                Err(err) => Err(err),
                                Ok((body, next)) => Ok(
                                    (StmtView::FnDecl { name, params, ty, body }, next),
                                ),
                            }
                        } else {
                            Err(input.unexpected(pos))
                        },
                    },
                },
            },
        },
    }
}

/// The conditional whose `if` is at `pos`. An `else` is followed by a
/// block, or by another conditional, which then is the one statement of the
/// `else` branch.
pub open spec fn conditional(input: Input, pos: int) -> Parsed<StmtView>
    decreases input.tokens.len() - pos, 29int, 0int,
{
    match expr(input, pos + 1) {
        Err(err) => Err(err),
        Ok((condition, at_then)) => if input.behind(pos, at_then) {
            match block(input, at_then) {
                Err(err) => Err(err),
                Ok((then_branch, next)) => if input.behind(pos, next) {
                    if input.peek(next) == Some(TokenView::Else) {
                        if input.peek(next + 1) == Some(TokenView::If) {
                            match conditional(input, next + 1) {
                                Err(err) => Err(err),
                                Ok((nested, behind)) => Ok(
                                    (
                                        StmtView::If {
                                            condition,
                                            then_branch,
                                            else_branch: Some(seq![nested]),
                                        },
                                        behind,
                                    ),
                                ),
                            }
                        } else {
                            match block(input, next + 1) {
                                Err(err) => Err(err),
                                Ok((else_branch, behind)) => Ok(
                                    (
                                        StmtView::If {
                                            condition,
                                            then_branch,
                                            else_branch: Some(else_branch),
                                        },
                                        behind,
                                    ),
                                ),
                            }
                        }
                    } else {
                        Ok((StmtView::If { condition, then_branch, else_branch: None }, next))
                    }
                } else {
                    Err(input.unexpected(pos))
                },
            }
        } else {
            Err(input.unexpected(pos))
        },
    }
}

/// The error tokens among the first `n` tokens, each as the error of
/// unrecognized input at its place.
pub open spec fn lexical_errors(tokens: Seq<(TokenView, Span)>, n: int) -> Seq<ParseError>
    decreases n,
{
    if n <= 0 || n > tokens.len() {
        Seq::empty()
    } else if tokens[n - 1].0 is Error {
        lexical_errors(tokens, n - 1).push(
            ParseError { span: tokens[n - 1].1, kind: ParseErrorKind::UnrecognizedInput },
        )
    } else {
        lexical_errors(tokens, n - 1)
    }
}

/// The program that the tokens are, or what is wrong with them: every
/// error token, where there are any; else the first place where the tokens
/// are not what the grammar allows.
pub open spec fn program(input: Input) -> Result<Seq<StmtView>, Seq<ParseError>> {
    let lexical = lexical_errors(input.tokens, input.tokens.len() as int);
    if lexical.len() > 0 {
        Err(lexical)
    } else {
        match statements(input, 0, Seq::empty(), false) {
            Err(err) => Err(seq![err]),
            Ok((stmts, _)) => Ok(stmts),
        }
    }
}

/// An expression that is read takes at least one token, and none from
/// behind the input.
pub proof fn lemma_expr_reads_on(input: Input, pos: int)
    requires
        expr(input, pos) is Ok,
    ensures
        input.behind(pos, expr(input, pos)->Ok_0.1),
    decreases input.tokens.len() - pos, 20int, 0int,
{
    lemma_binary_reads_on(input, pos, 0);
}

proof fn lemma_binary_reads_on(input: Input, pos: int, level: int)
    requires
        binary(input, pos, level) is Ok,
    ensures
        input.behind(pos, binary(input, pos, level)->Ok_0.1),
    decreases input.tokens.len() - pos, 18 - 2 * level, 0int,
{
    if level == levels() {
        lemma_unary_reads_on(input, pos);
    } else {
        lemma_binary_reads_on(input, pos, level + 1);
        let (lhs, next) = binary(input, pos, level + 1)->Ok_0;
        lemma_binary_rest_reads_on(input, next, level, lhs);
    }
}

proof fn lemma_binary_rest_reads_on(input: Input, pos: int, level: int, lhs: ExprView)
    requires
        0 <= pos <= input.tokens.len(),
        binary_rest(input, pos, level, lhs) is Ok,
    ensures
        pos <= binary_rest(input, pos, level, lhs)->Ok_0.1 <= input.tokens.len(),
    decreases input.tokens.len() - pos, 17 - 2 * level, 0int,
{
    if 0 <= pos < input.tokens.len() && 0 <= level < levels() {
        match binary_operator(level, input.tokens[pos].0) {
            None => {},
            Some(op) => {
                lemma_binary_reads_on(input, pos + 1, level + 1);
                let (rhs, next) = binary(input, pos + 1, level + 1)->Ok_0;
                lemma_binary_rest_reads_on(
                    input,
                    next,
                    level,
                    ExprView::BinOp { lhs: Box::new(lhs), op, rhs: Box::new(rhs) },
                );
            },
        }
    }
}

proof fn lemma_unary_reads_on(input: Input, pos: int)
    requires
        unary(input, pos) is Ok,
    ensures
        input.behind(pos, unary(input, pos)->Ok_0.1),
    decreases input.tokens.len() - pos, 4int, 0int,
{
    match input.peek(pos) {
        Some(TokenView::Sub) => {
            lemma_unary_reads_on(input, pos + 1);
        },
        Some(TokenView::Not) => {
            lemma_unary_reads_on(input, pos + 1);
        },
        _ => {
            lemma_primary_reads_on(input, pos);
        },
    }
}

proof fn lemma_primary_reads_on(input: Input, pos: int)
    requires
        primary(input, pos) is Ok,
    ensures
        input.behind(pos, primary(input, pos)->Ok_0.1),
    decreases input.tokens.len() - pos, 3int, 0int,
{
    match input.peek(pos) {
        Some(TokenView::Identifier(name)) => {
            if input.peek(pos + 1) == Some(TokenView::LParen) {
                lemma_arguments_read_on(input, pos + 2);
            }
        },
        Some(TokenView::LParen) => {
            lemma_expr_reads_on(input, pos + 1);
        },
        _ => {},
    }
}

proof fn lemma_arguments_read_on(input: Input, pos: int)
    requires
        0 <= pos <= input.tokens.len(),
        arguments(input, pos) is Ok,
    ensures
        input.behind(pos, arguments(input, pos)->Ok_0.1),
    decreases input.tokens.len() - pos, 22int, 0int,
{
    if input.peek(pos) == Some(TokenView::RParen) {
    } else {
        lemma_more_arguments_read_on(input, pos, Seq::empty());
    }
}

proof fn lemma_more_arguments_read_on(input: Input, pos: int, args: Seq<ExprView>)
    requires
        0 <= pos <= input.tokens.len(),
        more_arguments(input, pos, args) is Ok,
    ensures
        input.behind(pos, more_arguments(input, pos, args)->Ok_0.1),
    decreases input.tokens.len() - pos, 21int, 0int,
{
    lemma_expr_reads_on(input, pos);
    let (arg, next) = expr(input, pos)->Ok_0;
    match input.peek(next) {
        Some(TokenView::Comma) => {
            lemma_more_arguments_read_on(input, next + 1, args.push(arg));
        },
        _ => {},
    }
}

/// Whether `stmts` can stand before further statements of a block: no bare
/// expression is among them, and every block inside them is well formed.
pub open spec fn no_tail_yet(stmts: Seq<StmtView>) -> bool {
    no_tail_among(stmts, stmts.len())
}

proof fn lemma_no_tail_push(stmts: Seq<StmtView>, s: StmtView)
    requires
        no_tail_yet(stmts),
        blocks_well_formed(s),
    ensures
        !(s is Expr) ==> no_tail_yet(stmts.push(s)),
        tail_only_at_end(stmts.push(s)),
        tail_only_at_end(stmts),
{
    let pushed = stmts.push(s);
    lemma_no_tail_among_prefix(stmts, pushed, stmts.len());
    if stmts.len() > 0 {
        lemma_no_tail_among(stmts, stmts.len(), stmts.len() - 1);
    }
}

proof fn lemma_simple_statement_shape(input: Input, pos: int)
    requires
        simple_statement(input, pos) is Ok,
    ensures
        blocks_well_formed(simple_statement(input, pos)->Ok_0.0),
        !(simple_statement(input, pos)->Ok_0.0 is Expr),
{
}

/// The statements of a block are read up to what ends the block, and a
/// bare expression is the last of them only.
pub proof fn lemma_statements_well_formed(
    input: Input,
    pos: int,
    stmts: Seq<StmtView>,
    nested: bool,
)
    requires
        0 <= pos <= input.tokens.len(),
        no_tail_yet(stmts),
        statements(input, pos, stmts, nested) is Ok,
    ensures
        tail_only_at_end(statements(input, pos, stmts, nested)->Ok_0.0),
        block_ends(input, statements(input, pos, stmts, nested)->Ok_0.1, nested),
        pos <= statements(input, pos, stmts, nested)->Ok_0.1 <= input.tokens.len(),
    decreases input.tokens.len() - pos, 30int, 0int,
{
    match input.peek(pos) {
        None => {
            lemma_no_tail_push(stmts, StmtView::Return { expr: None });
        },
        Some(TokenView::RBrace) => {
            lemma_no_tail_push(stmts, StmtView::Return { expr: None });
        },
        Some(TokenView::FunctionDeclaration) => {
            lemma_function_well_formed(input, pos);
            let (s, next) = function(input, pos)->Ok_0;
            lemma_no_tail_push(stmts, s);
            lemma_statements_well_formed(input, next, stmts.push(s), nested);
        },
        Some(TokenView::If) => {
            lemma_conditional_well_formed(input, pos);
            let (s, next) = conditional(input, pos)->Ok_0;
            lemma_no_tail_push(stmts, s);
            lemma_statements_well_formed(input, next, stmts.push(s), nested);
        },
        Some(token) => {
            if starts_simple_statement(input, pos) {
                lemma_simple_statement_shape(input, pos);
                let (s, next) = simple_statement(input, pos)->Ok_0;
                lemma_no_tail_push(stmts, s);
                lemma_statements_well_formed(input, next, stmts.push(s), nested);
            } else {
                let (value, next) = expr(input, pos)->Ok_0;
                if input.peek(next) == Some(TokenView::Semicolon) {
                    let s = StmtView::ExprStmt { expr: value };
                    lemma_no_tail_push(stmts, s);
                    lemma_statements_well_formed(input, next + 1, stmts.push(s), nested);
                } else {
                    lemma_no_tail_push(stmts, StmtView::Expr { expr: value });
                }
            }
        },
    }
}

/// The statements of a block in braces are well formed.
pub proof fn lemma_block_well_formed(input: Input, pos: int)
    requires
        0 <= pos <= input.tokens.len(),
        block(input, pos) is Ok,
    ensures
        tail_only_at_end(block(input, pos)->Ok_0.0),
    decreases input.tokens.len() - pos, 31int, 0int,
{
    lemma_statements_well_formed(input, pos + 1, Seq::empty(), true);
}

/// The blocks inside a function declaration are well formed.
pub proof fn lemma_function_well_formed(input: Input, pos: int)
    requires
        0 <= pos <= input.tokens.len(),
        function(input, pos) is Ok,
    ensures
        function(input, pos)->Ok_0.0 is FnDecl,
        blocks_well_formed(function(input, pos)->Ok_0.0),
    decreases input.tokens.len() - pos, 29int, 0int,
{
    let paren = input.name(pos + 1)->Ok_0.1;
    let at_params = input.expect(paren, TokenView::LParen)->Ok_0;
    let arrow = parameters(input, at_params)->Ok_0.1;
    let at_type = input.expect(arrow, TokenView::RightArrow)->Ok_0;
    let at_body = input.ty(at_type)->Ok_0.1;
    lemma_block_well_formed(input, at_body);
}

/// The blocks inside a conditional are well formed.
pub proof fn lemma_conditional_well_formed(input: Input, pos: int)
    requires
        0 <= pos <= input.tokens.len(),
        conditional(input, pos) is Ok,
    ensures
        conditional(input, pos)->Ok_0.0 is If,
        blocks_well_formed(conditional(input, pos)->Ok_0.0),
    decreases input.tokens.len() - pos, 29int, 0int,
{
    let at_then = expr(input, pos + 1)->Ok_0.1;
    lemma_block_well_formed(input, at_then);
    let next = block(input, at_then)->Ok_0.1;
    if input.peek(next) == Some(TokenView::Else) {
        if input.peek(next + 1) == Some(TokenView::If) {
            lemma_conditional_well_formed(input, next + 1);
            let nested = conditional(input, next + 1)->Ok_0.0;
            lemma_no_tail_push(Seq::empty(), nested);
            assert(Seq::<StmtView>::empty().push(nested) =~= seq![nested]);
        } else {
            lemma_block_well_formed(input, next + 1);
        }
    }
}

/// A block that is read takes its two braces at least, and no token from
/// behind the input.
pub proof fn lemma_block_reads_on(input: Input, pos: int)
    requires
        block(input, pos) is Ok,
    ensures
        input.behind(pos, block(input, pos)->Ok_0.1),
        pos + 2 <= block(input, pos)->Ok_0.1,
{
    lemma_statements_well_formed(input, pos + 1, Seq::empty(), true);
}

/// A declaration of a variable, a `return` or an assignment that is read
/// takes at least one token, and none from behind the input.
pub proof fn lemma_simple_statement_reads_on(input: Input, pos: int)
    requires
        simple_statement(input, pos) is Ok,
    ensures
        input.behind(pos, simple_statement(input, pos)->Ok_0.1),
{
    match input.peek(pos) {
        Some(TokenView::LetDeclaration) => {
            let behind_name = input.name(pos + 1)->Ok_0.1;
            if input.peek(behind_name) == Some(TokenView::Colon) {
                let assign = input.ty(behind_name + 1)->Ok_0.1;
                lemma_expr_reads_on(input, assign + 1);
            } else {
                lemma_expr_reads_on(input, behind_name + 1);
            }
        },
        Some(TokenView::VarDeclaration) => {
            let behind_name = input.name(pos + 1)->Ok_0.1;
            if input.peek(behind_name) == Some(TokenView::Colon) {
                let behind_type = input.ty(behind_name + 1)->Ok_0.1;
                if input.peek(behind_type) != Some(TokenView::Semicolon) {
                    lemma_expr_reads_on(input, behind_type + 1);
                }
            } else {
                lemma_expr_reads_on(input, behind_name + 1);
            }
        },
        Some(TokenView::Return) => {
            if input.peek(pos + 1) != Some(TokenView::Semicolon) {
                lemma_expr_reads_on(input, pos + 1);
            }
        },
        Some(TokenView::Identifier(name)) => {
            lemma_expr_reads_on(input, pos + 2);
        },
        _ => {},
    }
}

/// A function declaration that is read takes at least one token, and none
/// from behind the input.
pub proof fn lemma_function_reads_on(input: Input, pos: int)
    requires
        function(input, pos) is Ok,
    ensures
        input.behind(pos, function(input, pos)->Ok_0.1),
{
    let paren = input.name(pos + 1)->Ok_0.1;
    let at_params = input.expect(paren, TokenView::LParen)->Ok_0;
    let arrow = parameters(input, at_params)->Ok_0.1;
    let at_type = input.expect(arrow, TokenView::RightArrow)->Ok_0;
    let at_body = input.ty(at_type)->Ok_0.1;
    lemma_block_reads_on(input, at_body);
}

/// A conditional that is read takes at least one token, and none from
/// behind the input.
pub proof fn lemma_conditional_reads_on(input: Input, pos: int)
    requires
        conditional(input, pos) is Ok,
    ensures
        input.behind(pos, conditional(input, pos)->Ok_0.1),
    decreases input.tokens.len() - pos,
{
    lemma_expr_reads_on(input, pos + 1);
    let at_then = expr(input, pos + 1)->Ok_0.1;
    lemma_block_reads_on(input, at_then);
    let next = block(input, at_then)->Ok_0.1;
    if input.peek(next) == Some(TokenView::Else) {
        if input.peek(next + 1) == Some(TokenView::If) {
            lemma_conditional_reads_on(input, next + 1);
        } else {
            lemma_block_reads_on(input, next + 1);
        }
    }
}

/// In a program that the grammar gives, a bare expression is the last
/// statement of its block, and the whole input has been read.
pub proof fn lemma_program_well_formed(input: Input)
    requires
        program(input) is Ok,
    ensures
        tail_only_at_end(program(input)->Ok_0),
        statements(input, 0, Seq::empty(), false) matches Ok(p) && p.1 == input.tokens.len(),
{
    lemma_statements_well_formed(input, 0, Seq::empty(), false);
}

} // verus!
