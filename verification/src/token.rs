//! Tokens, and the lexer that splits source text into them.
//!
//! The lexer works on the bytes of the text. It takes the longest token at
//! each place, prefers a keyword to an identifier, drops whitespace and
//! comments, and turns what it does not recognise into an error token, so
//! that it always gets to the end of the text.

use vstd::prelude::*;
use vstd::string::StringSliceAdditionalSpecFns;
use vstd::utf8::{
    decode_utf8, encode_utf8_decode_utf8, encode_utf8_valid_utf8, is_char_boundary,
    is_char_boundary_iff_not_is_continuation_byte, is_char_boundary_start_end_of_seq,
    pop_first_scalar, valid_utf8, valid_utf8_split,
};

verus! {

/// A range of bytes of the source text.
#[derive(Debug, Clone, Copy, PartialEq, Eq, Structural)]
pub struct Span {
    /// The index of the first byte
    pub start: usize,
    /// The index after the last byte
    pub end: usize,
}

/// A token.
#[derive(Debug, Clone, Copy, PartialEq)]
pub enum Token<'a> {
    /// Text that is no token
    Error,
    /// `fn`
    FunctionDeclaration,
    /// `let`
    LetDeclaration,
    /// `var`
    VarDeclaration,
    /// `if`
    If,
    /// `else`
    Else,
    /// `return`
    Return,
    /// `true`
    True,
    /// `false`
    False,
    /// A name: a letter or `_`, then letters, digits and `_`
    Identifier(&'a str),
    /// An integer literal: decimal digits
    Integer(&'a str),
    /// `+`
    Add,
    /// `-`
    Sub,
    /// `*`
    Mul,
    /// `/`
    Div,
    /// `==`
    Equal,
    /// `!=`
    NotEqual,
    /// `<`
    LessThan,
    /// `<=`
    LessThanOrEqual,
    /// `>`
    GreaterThan,
    /// `>=`
    GreaterThanOrEqual,
    /// `&&`
    And,
    /// `||`
    Or,
    /// `!`
    Not,
    /// `=`
    Assign,
    /// `,`
    Comma,
    /// `->`
    RightArrow,
    /// `:`
    Colon,
    /// `;`
    Semicolon,
    /// `(`
    LParen,
    /// `)`
    RParen,
    /// `{`
    LBrace,
    /// `}`
    RBrace,
}

/// The mathematical value of a [`Token`]: the text of a name or a literal
/// is a sequence of characters.
pub enum TokenView {
    Error,
    FunctionDeclaration,
    LetDeclaration,
    VarDeclaration,
    If,
    Else,
    Return,
    True,
    False,
    Identifier(Seq<char>),
    Integer(Seq<char>),
    Add,
    Sub,
    Mul,
    Div,
    Equal,
    NotEqual,
    LessThan,
    LessThanOrEqual,
    GreaterThan,
    GreaterThanOrEqual,
    And,
    Or,
    Not,
    Assign,
    Comma,
    RightArrow,
    Colon,
    Semicolon,
    LParen,
    RParen,
    LBrace,
    RBrace,
}

impl<'a> View for Token<'a> {
    type V = TokenView;

    open spec fn view(&self) -> TokenView {
        match *self {
            Token::Error => TokenView::Error,
            Token::FunctionDeclaration => TokenView::FunctionDeclaration,
            Token::LetDeclaration => TokenView::LetDeclaration,
            Token::VarDeclaration => TokenView::VarDeclaration,
            Token::If => TokenView::If,
            Token::Else => TokenView::Else,
            Token::Return => TokenView::Return,
            Token::True => TokenView::True,
            Token::False => TokenView::False,
            Token::Identifier(text) => TokenView::Identifier(text@),
            Token::Integer(text) => TokenView::Integer(text@),
            Token::Add => TokenView::Add,
            Token::Sub => TokenView::Sub,
            Token::Mul => TokenView::Mul,
            Token::Div => TokenView::Div,
            Token::Equal => TokenView::Equal,
            Token::NotEqual => TokenView::NotEqual,
            Token::LessThan => TokenView::LessThan,
            Token::LessThanOrEqual => TokenView::LessThanOrEqual,
            Token::GreaterThan => TokenView::GreaterThan,
            Token::GreaterThanOrEqual => TokenView::GreaterThanOrEqual,
            Token::And => TokenView::And,
            Token::Or => TokenView::Or,
            Token::Not => TokenView::Not,
            Token::Assign => TokenView::Assign,
            Token::Comma => TokenView::Comma,
            Token::RightArrow => TokenView::RightArrow,
            Token::Colon => TokenView::Colon,
            Token::Semicolon => TokenView::Semicolon,
            Token::LParen => TokenView::LParen,
            Token::RParen => TokenView::RParen,
            Token::LBrace => TokenView::LBrace,
            Token::RBrace => TokenView::RBrace,
        }
    }
}

impl TokenView {
    /// The text that the token is written as.
    pub open spec fn text(self) -> Seq<char> {
        match self {
            TokenView::Error => "<error>"@,
            TokenView::FunctionDeclaration => "fn"@,
            TokenView::LetDeclaration => "let"@,
            TokenView::VarDeclaration => "var"@,
            TokenView::If => "if"@,
            TokenView::Else => "else"@,
            TokenView::Return => "return"@,
            TokenView::True => "true"@,
            TokenView::False => "false"@,
            TokenView::Identifier(text) => text,
            TokenView::Integer(text) => text,
            TokenView::Add => "+"@,
            TokenView::Sub => "-"@,
            TokenView::Mul => "*"@,
            TokenView::Div => "/"@,
            TokenView::Equal => "=="@,
            TokenView::NotEqual => "!="@,
            TokenView::LessThan => "<"@,
            TokenView::LessThanOrEqual => "<="@,
            TokenView::GreaterThan => ">"@,
            TokenView::GreaterThanOrEqual => ">="@,
            TokenView::And => "&&"@,
            TokenView::Or => "||"@,
            TokenView::Not => "!"@,
            TokenView::Assign => "="@,
            TokenView::Comma => ","@,
            TokenView::RightArrow => "->"@,
            TokenView::Colon => ":"@,
            TokenView::Semicolon => ";"@,
            TokenView::LParen => "("@,
            TokenView::RParen => ")"@,
            TokenView::LBrace => "{"@,
            TokenView::RBrace => "}"@,
        }
    }
}

impl<'a> Token<'a> {
    /// The text that the token is written as.
    pub fn as_str(&self) -> (text: &'a str)
        ensures
            text@ == self@.text(),
    {
        match *self {
            Token::Error => "<error>",
            Token::FunctionDeclaration => "fn",
            Token::LetDeclaration => "let",
            Token::VarDeclaration => "var",
            Token::If => "if",
            Token::Else => "else",
            Token::Return => "return",
            Token::True => "true",
            Token::False => "false",
            Token::Identifier(text) => text,
            Token::Integer(text) => text,
            Token::Add => "+",
            Token::Sub => "-",
            Token::Mul => "*",
            Token::Div => "/",
            Token::Equal => "==",
            Token::NotEqual => "!=",
            Token::LessThan => "<",
            Token::LessThanOrEqual => "<=",
            Token::GreaterThan => ">",
            Token::GreaterThanOrEqual => ">=",
            Token::And => "&&",
            Token::Or => "||",
            Token::Not => "!",
            Token::Assign => "=",
            Token::Comma => ",",
            Token::RightArrow => "->",
            Token::Colon => ":",
            Token::Semicolon => ";",
            Token::LParen => "(",
            Token::RParen => ")",
            Token::LBrace => "{",
            Token::RBrace => "}",
        }
    }

    /// The text that the token is written as, as a string of its own.
    pub fn to_string(&self) -> (text: String)
        ensures
            text@ == self@.text(),
    {
        self.as_str().to_owned()
    }
}

/// The models of a sequence of tokens with their spans, element by element.
pub open spec fn tokens_view(tokens: Seq<(Token, Span)>) -> Seq<(TokenView, Span)> {
    tokens.map_values(|t: (Token, Span)| (t.0@, t.1))
}

/// A set of bytes that a run of the text is made of.
#[derive(Debug, Clone, Copy, PartialEq, Eq, Structural)]
pub enum ByteClass {
    /// A letter, a digit or `_`: what a name goes on with
    Word,
    /// A decimal digit
    Digit,
    /// A byte that goes on with a character of more than one byte
    Continuation,
}

/// Whether `b` is a space, a tab, a form feed or a line feed.
pub open spec fn is_space(b: u8) -> bool {
    b == 32 || b == 9 || b == 12 || b == 10
}

/// Whether `b` is a letter or `_`: what a name starts with.
pub open spec fn is_word_start(b: u8) -> bool {
    (97 <= b <= 122) || (65 <= b <= 90) || b == 95
}

/// Whether `b` is a decimal digit.
pub open spec fn is_digit(b: u8) -> bool {
    48 <= b <= 57
}

impl ByteClass {
    /// Whether `b` is in the class.
    pub open spec fn has(self, b: u8) -> bool {
        match self {
            ByteClass::Word => is_word_start(b) || is_digit(b),
            ByteClass::Digit => is_digit(b),
            ByteClass::Continuation => 0x80 <= b <= 0xbf,
        }
    }

    fn contains(self, b: u8) -> (r: bool)
        ensures
            r == self.has(b),
    {
        match self {
            ByteClass::Word => (97 <= b && b <= 122) || (65 <= b && b <= 90) || b == 95 || (48 <= b
                && b <= 57),
            ByteClass::Digit => 48 <= b && b <= 57,
            ByteClass::Continuation => 0x80 <= b && b <= 0xbf,
        }
    }
}

/// Where the longest run of bytes of `class` that starts at `pos` ends.
pub open spec fn run_end(bytes: Seq<u8>, pos: int, class: ByteClass) -> int
    decreases bytes.len() - pos,
{
    if 0 <= pos < bytes.len() && class.has(bytes[pos]) {
        run_end(bytes, pos + 1, class)
    } else {
        pos
    }
}

/// Where the next token starts at or after `pos`: behind the whitespace and
/// the comments there. A comment starts with `//` and ends with its line;
/// `in_comment` says whether `pos` is inside one.
pub open spec fn skip_blank(bytes: Seq<u8>, pos: int, in_comment: bool) -> int
    decreases bytes.len() - pos,
{
    if pos < 0 || pos >= bytes.len() {
        pos
    } else if in_comment {
        skip_blank(bytes, pos + 1, bytes[pos] != 10)
    } else if is_space(bytes[pos]) {
        skip_blank(bytes, pos + 1, false)
    } else if pos + 1 < bytes.len() && bytes[pos] == 47 && bytes[pos + 1] == 47 {
        skip_blank(bytes, pos + 2, true)
    } else {
        pos
    }
}

/// The word that `text` is: a keyword, or else a name.
pub open spec fn word(text: Seq<char>) -> TokenView {
    if text == "fn"@ {
        TokenView::FunctionDeclaration
    } else if text == "let"@ {
        TokenView::LetDeclaration
    } else if text == "var"@ {
        TokenView::VarDeclaration
    } else if text == "if"@ {
        TokenView::If
    } else if text == "else"@ {
        TokenView::Else
    } else if text == "return"@ {
        TokenView::Return
    } else if text == "true"@ {
        TokenView::True
    } else if text == "false"@ {
        TokenView::False
    } else {
        TokenView::Identifier(text)
    }
}

/// The operator that the two bytes `a` and `b` are, if they are one.
pub open spec fn operator2(a: u8, b: u8) -> Option<TokenView> {
    if a == 61 && b == 61 {
        Some(TokenView::Equal)
    } else if a == 33 && b == 61 {
        Some(TokenView::NotEqual)
    } else if a == 60 && b == 61 {
        Some(TokenView::LessThanOrEqual)
    } else if a == 62 && b == 61 {
        Some(TokenView::GreaterThanOrEqual)
    } else if a == 38 && b == 38 {
        Some(TokenView::And)
    } else if a == 124 && b == 124 {
        Some(TokenView::Or)
    } else if a == 45 && b == 62 {
        Some(TokenView::RightArrow)
    } else {
        None
    }
}

/// The operator or punctuation mark that the byte `a` is, if it is one.
pub open spec fn operator1(a: u8) -> Option<TokenView> {
    if a == 43 {
        Some(TokenView::Add)
    } else if a == 45 {
        Some(TokenView::Sub)
    } else if a == 42 {
        Some(TokenView::Mul)
    } else if a == 47 {
        Some(TokenView::Div)
    } else if a == 60 {
        Some(TokenView::LessThan)
    } else if a == 62 {
        Some(TokenView::GreaterThan)
    } else if a == 33 {
        Some(TokenView::Not)
    } else if a == 61 {
        Some(TokenView::Assign)
    } else if a == 44 {
        Some(TokenView::Comma)
    } else if a == 58 {
        Some(TokenView::Colon)
    } else if a == 59 {
        Some(TokenView::Semicolon)
    } else if a == 40 {
        Some(TokenView::LParen)
    } else if a == 41 {
        Some(TokenView::RParen)
    } else if a == 123 {
        Some(TokenView::LBrace)
    } else if a == 125 {
        Some(TokenView::RBrace)
    } else {
        None
    }
}

/// The token that starts at `pos`, and where it ends.
///
/// A word is as long as it can be, and so is an integer literal. An
/// operator of two bytes is preferred to one of one byte. A byte that starts
/// none of these is an error token, together with the rest of its
/// character.
pub open spec fn token_at(bytes: Seq<u8>, pos: int) -> (TokenView, int)
    recommends
        0 <= pos < bytes.len(),
{
    let b = bytes[pos];
    if is_word_start(b) {
        let end = run_end(bytes, pos + 1, ByteClass::Word);
        (word(decode_utf8(bytes.subrange(pos, end))), end)
    } else if is_digit(b) {
        let end = run_end(bytes, pos + 1, ByteClass::Digit);
        (TokenView::Integer(decode_utf8(bytes.subrange(pos, end))), end)
    } else if pos + 1 < bytes.len() && operator2(b, bytes[pos + 1]) is Some {
        (operator2(b, bytes[pos + 1])->Some_0, pos + 2)
    } else if operator1(b) is Some {
        (operator1(b)->Some_0, pos + 1)
    } else {
        (TokenView::Error, run_end(bytes, pos + 1, ByteClass::Continuation))
    }
}

/// The tokens of the text from `pos` on, each with the bytes it spans.
pub open spec fn lex_from(bytes: Seq<u8>, pos: int) -> Seq<(TokenView, Span)>
    decreases bytes.len() - pos,
{
    let start = skip_blank(bytes, pos, false);
    if 0 <= pos <= start < token_at(bytes, start).1 <= bytes.len() {
        let token = token_at(bytes, start).0;
        let end = token_at(bytes, start).1;
        seq![(token, Span { start: start as usize, end: end as usize })] + lex_from(bytes, end)
    } else {
        Seq::empty()
    }
}

/// The tokens of a text, each with the bytes it spans.
pub open spec fn tokenize(bytes: Seq<u8>) -> Seq<(TokenView, Span)> {
    lex_from(bytes, 0)
}

/// A run starts no earlier than where it is asked for and ends within the
/// text.
pub proof fn lemma_run_end_bounds(bytes: Seq<u8>, pos: int, class: ByteClass)
    requires
        0 <= pos <= bytes.len(),
    ensures
        pos <= run_end(bytes, pos, class) <= bytes.len(),
        forall|i: int| pos <= i < run_end(bytes, pos, class) ==> class.has(#[trigger] bytes[i]),
    decreases bytes.len() - pos,
{
    if pos < bytes.len() && class.has(bytes[pos]) {
        lemma_run_end_bounds(bytes, pos + 1, class);
    }
}

/// Skipping whitespace and comments goes forward and stays within the text.
pub proof fn lemma_skip_blank_bounds(bytes: Seq<u8>, pos: int, in_comment: bool)
    requires
        0 <= pos <= bytes.len(),
    ensures
        pos <= skip_blank(bytes, pos, in_comment) <= bytes.len(),
    decreases bytes.len() - pos,
{
    if pos >= bytes.len() {
    } else if in_comment {
        lemma_skip_blank_bounds(bytes, pos + 1, bytes[pos] != 10);
    } else if is_space(bytes[pos]) {
        lemma_skip_blank_bounds(bytes, pos + 1, false);
    } else if pos + 1 < bytes.len() && bytes[pos] == 47 && bytes[pos + 1] == 47 {
        lemma_skip_blank_bounds(bytes, pos + 2, true);
    }
}

/// Every token has at least one byte and ends within the text.
pub proof fn lemma_token_at_bounds(bytes: Seq<u8>, pos: int)
    requires
        0 <= pos < bytes.len(),
    ensures
        pos < token_at(bytes, pos).1 <= bytes.len(),
{
    lemma_run_end_bounds(bytes, pos + 1, ByteClass::Word);
    lemma_run_end_bounds(bytes, pos + 1, ByteClass::Digit);
    lemma_run_end_bounds(bytes, pos + 1, ByteClass::Continuation);
}

/// The spans of the tokens lie in the text, one after the other: each has
/// at least one byte, starts no earlier than `pos`, and ends no later than
/// the next one starts.
pub proof fn lemma_spans_in_order(bytes: Seq<u8>, pos: int, i: int)
    requires
        0 <= pos <= bytes.len(),
        bytes.len() <= usize::MAX,
        0 <= i < lex_from(bytes, pos).len(),
    ensures
        pos <= lex_from(bytes, pos)[i].1.start < lex_from(bytes, pos)[i].1.end <= bytes.len(),
        i + 1 < lex_from(bytes, pos).len() ==> lex_from(bytes, pos)[i].1.end <= lex_from(
            bytes,
            pos,
        )[i + 1].1.start,
    decreases bytes.len() - pos,
{
    let start = skip_blank(bytes, pos, false);
    lemma_skip_blank_bounds(bytes, pos, false);
    if start < bytes.len() {
        lemma_token_at_bounds(bytes, start);
        let end = token_at(bytes, start).1;
        let rest = lex_from(bytes, end);
        if i > 0 {
            lemma_spans_in_order(bytes, end, i - 1);
            assert(lex_from(bytes, pos)[i] == rest[i - 1]);
            if i + 1 < lex_from(bytes, pos).len() {
                assert(lex_from(bytes, pos)[i + 1] == rest[i]);
            }
        } else if 1 < lex_from(bytes, pos).len() {
            lemma_spans_in_order(bytes, end, 0);
            assert(lex_from(bytes, pos)[1] == rest[0]);
        }
    }
}

/// No token starts with whitespace: what lies between two tokens, and
/// before the first, is whitespace and comments.
pub proof fn lemma_tokens_start_behind_blanks(bytes: Seq<u8>, pos: int)
    requires
        0 <= pos <= bytes.len(),
        bytes.len() <= usize::MAX,
        lex_from(bytes, pos).len() > 0,
    ensures
        lex_from(bytes, pos)[0].1.start == skip_blank(bytes, pos, false),
        !is_space(bytes[skip_blank(bytes, pos, false)]),
{
    lemma_skip_blank_bounds(bytes, pos, false);
    lemma_skip_blank_stops(bytes, pos, false);
}

proof fn lemma_skip_blank_stops(bytes: Seq<u8>, pos: int, in_comment: bool)
    requires
        0 <= pos <= bytes.len(),
        skip_blank(bytes, pos, in_comment) < bytes.len(),
    ensures
        !is_space(bytes[skip_blank(bytes, pos, in_comment)]),
    decreases bytes.len() - pos,
{
    if pos >= bytes.len() {
    } else if in_comment {
        lemma_skip_blank_stops(bytes, pos + 1, bytes[pos] != 10);
    } else if is_space(bytes[pos]) {
        lemma_skip_blank_stops(bytes, pos + 1, false);
    } else if pos + 1 < bytes.len() && bytes[pos] == 47 && bytes[pos + 1] == 47 {
        lemma_skip_blank_stops(bytes, pos + 2, true);
    }
}

proof fn lemma_boundary_after_ascii(bytes: Seq<u8>, i: int)
    requires
        valid_utf8(bytes),
        0 <= i < bytes.len(),
        bytes[i] < 0x80,
    ensures
        is_char_boundary(bytes, i),
        is_char_boundary(bytes, i + 1),
{
    is_char_boundary_iff_not_is_continuation_byte(bytes, i);
    valid_utf8_split(bytes, i);
    let tail = bytes.subrange(i, bytes.len() as int);
    assert(tail[0] == bytes[i]);
    let rest = bytes.subrange(i + 1, bytes.len() as int);
    assert(pop_first_scalar(tail) =~= rest);
    assert(valid_utf8(rest));
    if i + 1 < bytes.len() {
        assert(is_char_boundary(rest, 0));
        is_char_boundary_iff_not_is_continuation_byte(rest, 0);
        assert(rest[0] == bytes[i + 1]);
        is_char_boundary_iff_not_is_continuation_byte(bytes, i + 1);
    } else {
        is_char_boundary_start_end_of_seq(bytes);
    }
}

fn slice<'a>(src: &'a str, start: usize, end: usize) -> (text: &'a str)
    requires
        start < end <= src.spec_bytes().len(),
        src.spec_bytes()[start as int] < 0x80,
        src.spec_bytes()[end - 1] < 0x80,
    ensures
        text@ == decode_utf8(src.spec_bytes().subrange(start as int, end as int)),
{
    let ghost bytes = src.spec_bytes();
    proof {
        encode_utf8_valid_utf8(src@);
        lemma_boundary_after_ascii(bytes, end - 1);
    }
    let (head, _) = src.split_at(end);
    proof {
        encode_utf8_valid_utf8(head@);
        assert(head.spec_bytes()[start as int] == bytes[start as int]);
        is_char_boundary_iff_not_is_continuation_byte(head.spec_bytes(), start as int);
    }
    let (_, text) = head.split_at(start);
    proof {
        encode_utf8_decode_utf8(text@);
        assert(text.spec_bytes() =~= bytes.subrange(start as int, end as int));
    }
    text
}

fn scan(bytes: &[u8], pos: usize, class: ByteClass) -> (end: usize)
    requires
        pos <= bytes@.len(),
    ensures
        end == run_end(bytes@, pos as int, class),
        pos <= end <= bytes@.len(),
{
    let mut i = pos;
    while i < bytes.len() && class.contains(bytes[i])
        invariant
            pos <= i <= bytes@.len(),
            run_end(bytes@, pos as int, class) == run_end(bytes@, i as int, class),
        decreases bytes@.len() - i,
    {
        i += 1;
    }
    i
}

fn skip(bytes: &[u8], pos: usize) -> (start: usize)
    requires
        pos <= bytes@.len(),
    ensures
        start == skip_blank(bytes@, pos as int, false),
        pos <= start <= bytes@.len(),
{
    let mut i = pos;
    let mut in_comment = false;
    proof {
        lemma_skip_blank_bounds(bytes@, pos as int, false);
    }
    loop
        invariant
            pos <= i <= bytes@.len(),
            skip_blank(bytes@, pos as int, false) == skip_blank(bytes@, i as int, in_comment),
        decreases bytes@.len() - i,
    {
        if i >= bytes.len() {
            return i;
        }
        let b = bytes[i];
        if in_comment {
            in_comment = b != 10;
            i += 1;
        } else if b == 32 || b == 9 || b == 12 || b == 10 {
            i += 1;
        } else if i + 1 < bytes.len() && b == 47 && bytes[i + 1] == 47 {
            in_comment = true;
            i += 2;
        } else {
            return i;
        }
    }
}

fn keyword_or_name<'a>(text: &'a str) -> (token: Token<'a>)
    ensures
        token@ == word(text@),
{
    if crate::ir::str_eq(text, "fn") {
        Token::FunctionDeclaration
    } else if crate::ir::str_eq(text, "let") {
        Token::LetDeclaration
    } else if crate::ir::str_eq(text, "var") {
        Token::VarDeclaration
    } else if crate::ir::str_eq(text, "if") {
        Token::If
    } else if crate::ir::str_eq(text, "else") {
        Token::Else
    } else if crate::ir::str_eq(text, "return") {
        Token::Return
    } else if crate::ir::str_eq(text, "true") {
        Token::True
    } else if crate::ir::str_eq(text, "false") {
        Token::False
    } else {
        Token::Identifier(text)
    }
}

fn two_byte_operator<'a>(a: u8, b: u8) -> (token: Option<Token<'a>>)
    ensures
        match token {
            Some(t) => operator2(a, b) == Some(t@),
            None => operator2(a, b) is None,
        },
{
    if a == 61 && b == 61 {
        Some(Token::Equal)
    } else if a == 33 && b == 61 {
        Some(Token::NotEqual)
    } else if a == 60 && b == 61 {
        Some(Token::LessThanOrEqual)
    } else if a == 62 && b == 61 {
        Some(Token::GreaterThanOrEqual)
    } else if a == 38 && b == 38 {
        Some(Token::And)
    } else if a == 124 && b == 124 {
        Some(Token::Or)
    } else if a == 45 && b == 62 {
        Some(Token::RightArrow)
    } else {
        None
    }
}

fn one_byte_operator<'a>(a: u8) -> (token: Option<Token<'a>>)
    ensures
        match token {
            Some(t) => operator1(a) == Some(t@),
            None => operator1(a) is None,
        },
{
    if a == 43 {
        Some(Token::Add)
    } else if a == 45 {
        Some(Token::Sub)
    } else if a == 42 {
        Some(Token::Mul)
    } else if a == 47 {
        Some(Token::Div)
    } else if a == 60 {
        Some(Token::LessThan)
    } else if a == 62 {
        Some(Token::GreaterThan)
    } else if a == 33 {
        Some(Token::Not)
    } else if a == 61 {
        Some(Token::Assign)
    } else if a == 44 {
        Some(Token::Comma)
    } else if a == 58 {
        Some(Token::Colon)
    } else if a == 59 {
        Some(Token::Semicolon)
    } else if a == 40 {
        Some(Token::LParen)
    } else if a == 41 {
        Some(Token::RParen)
    } else if a == 123 {
        Some(Token::LBrace)
    } else if a == 125 {
        Some(Token::RBrace)
    } else {
        None
    }
}

fn next_token<'a>(src: &'a str, bytes: &[u8], pos: usize) -> (r: (Token<'a>, usize))
    requires
        bytes@ == src.spec_bytes(),
        pos < bytes@.len(),
    ensures
        (r.0@, r.1 as int) == token_at(bytes@, pos as int),
        pos < r.1 <= bytes@.len(),
{
    proof {
        lemma_token_at_bounds(bytes@, pos as int);
    }
    let b = bytes[pos];
    if (97 <= b && b <= 122) || (65 <= b && b <= 90) || b == 95 {
        let end = scan(bytes, pos + 1, ByteClass::Word);
        proof {
            lemma_run_end_bounds(bytes@, pos + 1, ByteClass::Word);
        }
        (keyword_or_name(slice(src, pos, end)), end)
    } else if 48 <= b && b <= 57 {
        let end = scan(bytes, pos + 1, ByteClass::Digit);
        proof {
            lemma_run_end_bounds(bytes@, pos + 1, ByteClass::Digit);
        }
        (Token::Integer(slice(src, pos, end)), end)
    } else {
        let two = if pos + 1 < bytes.len() {
            two_byte_operator(b, bytes[pos + 1])
        } else {
            None
        };
        match two {
            Some(token) => (token, pos + 2),
            None => match one_byte_operator(b) {
                Some(token) => (token, pos + 1),
                None => (Token::Error, scan(bytes, pos + 1, ByteClass::Continuation)),
            },
        }
    }
}

/// Splits the text into its tokens, each with the bytes it spans.
pub fn lex<'a>(src: &'a str) -> (tokens: Vec<(Token<'a>, Span)>)
    ensures
        tokens_view(tokens@) == tokenize(src.spec_bytes()),
{
    let bytes = src.as_bytes();
    let mut tokens: Vec<(Token<'a>, Span)> = Vec::new();
    let mut pos: usize = 0;
    assert(tokens_view(tokens@) + lex_from(bytes@, 0) =~= lex_from(bytes@, 0));
    loop
        invariant
            bytes@ == src.spec_bytes(),
            0 <= pos <= bytes@.len(),
            tokenize(bytes@) == tokens_view(tokens@) + lex_from(bytes@, pos as int),
        decreases bytes@.len() - pos,
    {
        let start = skip(bytes, pos);
        if start >= bytes.len() {
            assert(tokens_view(tokens@) + Seq::<(TokenView, Span)>::empty() =~= tokens_view(
                tokens@,
            ));
            return tokens;
        }
        let (token, end) = next_token(src, bytes, start);
        let ghost before = tokens_view(tokens@);
        let ghost item = (token@, Span { start, end });
        tokens.push((token, Span { start, end }));
        proof {
            assert(tokens_view(tokens@) =~= before.push(item));
            assert(before + (seq![item] + lex_from(bytes@, end as int)) =~= before.push(item)
                + lex_from(bytes@, end as int));
        }
        pos = end;
    }
}

} // verus!
