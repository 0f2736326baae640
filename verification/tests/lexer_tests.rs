use sexpvm::reader::lexer::{new, TokenType, Tokener};
use TokenType::{Identifier, LeftParen, Number, RightParen, Str};

#[test]
fn lexer_test_1() {
    let input = "1 2 3";
    let expected = vec![Number(1), Number(2), Number(3)];
    token_test(input, expected);
}

#[test]
fn lexer_test_2() {
    let input = "(+ 1 2)";
    let expected = vec![
        LeftParen,
        Identifier(String::from("+")),
        Number(1),
        Number(2),
        RightParen,
    ];
    token_test(input, expected);
}

#[test]
fn test_3() {
    let input = r#"(+ (+ "Hello, " "World!") "...")"#;
    let expected = vec![
        LeftParen,
        Identifier(String::from("+")),
        LeftParen,
        Identifier(String::from("+")),
        Str(String::from("Hello, ")),
        Str(String::from("World!")),
        RightParen,
        Str(String::from("...")),
        RightParen,
    ];
    token_test(input, expected);
}

#[test]
fn lexer_lines_are_counted() {
    // The cursor steps onto the newline while finishing a token, so a token
    // at the end of a line is tagged with the line that follows it.
    let mut lex = new("1\n2\n 3");
    assert_eq!(2, lex.next_token().expect("a token").line);
    assert_eq!(3, lex.next_token().expect("a token").line);
    assert_eq!(3, lex.next_token().expect("a token").line);
    assert!(lex.next_token().is_none());
}

fn token_test(input: &str, expected: Vec<TokenType>) {
    let mut lex = new(input);
    for x in expected {
        assert_eq!(lex.next_token().expect("A token").ttype, x);
    }
    assert!(lex.next_token().is_none());
}
