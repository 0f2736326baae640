use sexpvm::ast::{ASTList, Atom, List};
use Atom::{AFalse, AIdentifier, AInteger, AList, AString, ATrue};
use TokenType::{Identifier, LeftParen, Number, RightParen, Str};
use sexpvm::reader::lexer::{Token, TokenType, Tokener};
use sexpvm::reader::parser::new;

struct FakeLexer {
    tokens: Vec<TokenType>,
    i: usize,
}

impl Tokener for FakeLexer {
    fn next_token(&mut self) -> Option<Token> {
        if self.i < self.tokens.len() {
            self.i += 1;
            let t = &self.tokens[self.i - 1];
            Some(Token { ttype: (*t).clone(), line: 0 })
        } else {
            None
        }
    }
}

#[test]
fn parser_test_1() {
    let input = vec![
        LeftParen,
        Identifier(String::from("+")),
        Number(1),
        Number(2),
        RightParen,
    ];
    let output = List::new().append((
        AList(
            List::new()
                .append(AIdentifier(String::from("+")))
                .append(AInteger(1))
                .append(AInteger(2)),
        ),
        0,
    ));
    do_test(input, output);
}

#[test]
fn parser_test_2() {
    let input = vec![
        LeftParen,
        Identifier(String::from("+")),
        LeftParen,
        Identifier(String::from("*")),
        Number(3),
        Number(2),
        RightParen,
        Number(1),
        RightParen,
    ];
    let output = List::new().append((
        AList(
            List::new()
                .append(AIdentifier(String::from("+")))
                .append(AList(
                    List::new()
                        .append(AIdentifier(String::from("*")))
                        .append(AInteger(3))
                        .append(AInteger(2)),
                ))
                .append(AInteger(1)),
        ),
        0,
    ));
    do_test(input, output);
}

fn do_test(input: Vec<TokenType>, output: ASTList) {
    let out = build_test(input);
    let ast = out.expect("should have parsed");
    println!(
        " ===============
expected:
{:?}
===============
got:
{:?}
===============
",
        output, ast
    );

    compare_astlist(output, ast);
}

fn build_test(input: Vec<TokenType>) -> Option<ASTList> {
    let l = FakeLexer { tokens: input, i: 0 };
    let mut p = new(l);
    p.parse()
}

fn compare_ast(a: List<Atom>, b: List<Atom>) {
    assert_eq!(a.len(), b.len());

    let mut ai = a.iter();
    let mut bi = b.iter();
    while let Some(av) = ai.next() {
        if let Some(bv) = bi.next() {
            compare_atom((*av).clone(), (*bv).clone());
        } else {
            panic!("If a has a value, so should b");
        }
    }
}

fn compare_astlist(a: ASTList, b: ASTList) {
    assert_eq!(a.len(), b.len());

    let mut ai = a.iter();
    let mut bi = b.iter();
    while let Some(av) = ai.next() {
        if let Some(bv) = bi.next() {
            compare_atom((*av).clone().0, (*bv).clone().0);
        } else {
            panic!("If a has a value, so should b");
        }
    }
}

fn compare_atom(a: Atom, b: Atom) {
    match (a, b) {
        (AList(av), AList(bv)) => compare_ast(av, bv),
        (AString(av), AString(bv)) => assert_eq!(av, bv),
        (AInteger(av), AInteger(bv)) => assert_eq!(av, bv),
        (AIdentifier(av), AIdentifier(bv)) => assert_eq!(av, bv),
        (ATrue, ATrue) => (),
        (AFalse, AFalse) => (),
        _ => panic!("not equal"),
    }
}
