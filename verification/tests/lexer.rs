use aic::token::{lex, Span, Token};

fn kinds<'a>(src: &'a str) -> Vec<Token<'a>> {
    lex(src).into_iter().map(|(token, _)| token).collect()
}

#[test]
fn empty_text_has_no_tokens() {
    assert!(lex("").is_empty());
    assert!(lex(" \t\n\x0c").is_empty());
}

#[test]
fn keywords_are_preferred_to_names() {
    assert_eq!(
        kinds("fn let var if else return true false"),
        vec![
            Token::FunctionDeclaration,
            Token::LetDeclaration,
            Token::VarDeclaration,
            Token::If,
            Token::Else,
            Token::Return,
            Token::True,
            Token::False,
        ]
    );
}

#[test]
fn a_word_is_as_long_as_it_can_be() {
    assert_eq!(
        kinds("iffy letter fn_ _x x1 returns"),
        vec![
            Token::Identifier("iffy"),
            Token::Identifier("letter"),
            Token::Identifier("fn_"),
            Token::Identifier("_x"),
            Token::Identifier("x1"),
            Token::Identifier("returns"),
        ]
    );
}

#[test]
fn digits_then_letters_are_two_tokens() {
    assert_eq!(kinds("123abc"), vec![Token::Integer("123"), Token::Identifier("abc")]);
    assert_eq!(kinds("007"), vec![Token::Integer("007")]);
}

#[test]
fn operators_of_two_bytes_are_preferred() {
    assert_eq!(
        kinds("== != <= >= && || -> = ! < > - "),
        vec![
            Token::Equal,
            Token::NotEqual,
            Token::LessThanOrEqual,
            Token::GreaterThanOrEqual,
            Token::And,
            Token::Or,
            Token::RightArrow,
            Token::Assign,
            Token::Not,
            Token::LessThan,
            Token::GreaterThan,
            Token::Sub,
        ]
    );
    assert_eq!(kinds("==="), vec![Token::Equal, Token::Assign]);
    assert_eq!(kinds("<=="), vec![Token::LessThanOrEqual, Token::Assign]);
    assert_eq!(kinds("-->"), vec![Token::Sub, Token::RightArrow]);
}

#[test]
fn punctuation() {
    assert_eq!(
        kinds("+-*/,:;(){}"),
        vec![
            Token::Add,
            Token::Sub,
            Token::Mul,
            Token::Div,
            Token::Comma,
            Token::Colon,
            Token::Semicolon,
            Token::LParen,
            Token::RParen,
            Token::LBrace,
            Token::RBrace,
        ]
    );
}

#[test]
fn spans_are_byte_ranges() {
    assert_eq!(
        lex("let  ab = 12;"),
        vec![
            (Token::LetDeclaration, Span { start: 0, end: 3 }),
            (Token::Identifier("ab"), Span { start: 5, end: 7 }),
            (Token::Assign, Span { start: 8, end: 9 }),
            (Token::Integer("12"), Span { start: 10, end: 12 }),
            (Token::Semicolon, Span { start: 12, end: 13 }),
        ]
    );
}

#[test]
fn comments_end_with_their_line() {
    assert_eq!(
        kinds("1 // one + two\n2 // the end"),
        vec![Token::Integer("1"), Token::Integer("2")]
    );
    assert_eq!(kinds("// nothing"), Vec::<Token>::new());
    assert_eq!(kinds("a / b"), vec![Token::Identifier("a"), Token::Div, Token::Identifier("b")]);
    assert_eq!(kinds("a //\n/ b"), vec![Token::Identifier("a"), Token::Div, Token::Identifier("b")]);
}

#[test]
fn unrecognized_input_is_an_error_token() {
    assert_eq!(
        lex("a @ b"),
        vec![
            (Token::Identifier("a"), Span { start: 0, end: 1 }),
            (Token::Error, Span { start: 2, end: 3 }),
            (Token::Identifier("b"), Span { start: 4, end: 5 }),
        ]
    );
    assert_eq!(kinds("& |"), vec![Token::Error, Token::Error]);
    assert_eq!(kinds("\r"), vec![Token::Error]);
}

#[test]
fn a_character_of_several_bytes_is_one_error_token() {
    assert_eq!(
        lex("x\u{e9}y"),
        vec![
            (Token::Identifier("x"), Span { start: 0, end: 1 }),
            (Token::Error, Span { start: 1, end: 3 }),
            (Token::Identifier("y"), Span { start: 3, end: 4 }),
        ]
    );
    assert_eq!(
        lex("\u{1f600}1"),
        vec![(Token::Error, Span { start: 0, end: 4 }), (Token::Integer("1"), Span { start: 4, end: 5 })]
    );
}

#[test]
fn lexing_twice_gives_the_same_tokens() {
    let src = "fn f(a: i32) -> i32 { a + 1 } f(41)";
    assert_eq!(lex(src), lex(src));
}

#[test]
fn a_token_is_written_as_its_text() {
    assert_eq!(Token::FunctionDeclaration.to_string(), "fn");
    assert_eq!(Token::LetDeclaration.to_string(), "let");
    assert_eq!(Token::Identifier("abc").to_string(), "abc");
    assert_eq!(Token::Integer("42").to_string(), "42");
    assert_eq!(Token::RightArrow.to_string(), "->");
    assert_eq!(Token::LBrace.to_string(), "{");
    assert_eq!(Token::RBrace.as_str(), "}");
    assert_eq!(Token::Error.as_str(), "<error>");
    for (token, _) in lex("fn f ( a : i32 , b : i32 ) -> i32 { if a <= b && ! c || d == e { return a ; } else { var x = a * b / 2 - 1 + 0 ; x = 3 ; let y = x != 1 ; y < 2 ; z > 3 ; w >= 4 } }") {
        let text = token.to_string();
        assert_eq!(lex(&text).len(), 1);
        assert_eq!(lex(&text)[0].0.to_string(), text);
    }
}
