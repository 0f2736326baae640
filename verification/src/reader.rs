//! The reader: source text to tokens to trees.

use vstd::prelude::*;

use crate::ast;

pub mod lexer;
pub mod parser;

verus! {

/// Reads a source string into a tree of one top-level form, or nothing when
/// the text holds no form.
pub fn read(input: &str) -> (r: Option<ast::ASTList>)
    ensures
        r matches Some(l) ==> l@.len() == 1,
{
    let lex = lexer::new(input);
    let mut p = parser::new(lex);
    p.parse()
}

} // verus!
