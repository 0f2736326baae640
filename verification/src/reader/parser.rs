//! The recursive-descent tree builder: tokens to the prepend-assembled tree
//! the compiler consumes.
//!
//! Elements are prepended as they are parsed, so a finished form holds its
//! operator as the structurally last element and its arguments in reverse
//! source order — the ordering contract the compiler relies on.  A stream
//! that ends inside a form closes every open form, as if the missing
//! closing parentheses were present.

use vstd::prelude::*;

use crate::ast::{ASTAtom, ASTList, Atom, AtomV, List};
use super::lexer::{Token, TokenType, Tokener};

verus! {

/// More tokens than any real source text can hold; a token source that
/// never dries up is cut off here.
pub(crate) const TOKEN_CAP: usize = 0xffff_ffff;

/// The tree leaf an atomic token denotes: text and numbers carry their
/// content, and the identifiers `true` and `false` read as the booleans.
pub open spec fn tok_atom(t: TokenType) -> Option<AtomV> {
    match t {
        TokenType::Str(x) => Some(AtomV::Text(x@)),
        TokenType::Number(x) => Some(AtomV::Num(x as int)),
        TokenType::Identifier(x) => Some(
            if x@ == "true"@ {
                AtomV::Flag(true)
            } else if x@ == "false"@ {
                AtomV::Flag(false)
            } else {
                AtomV::Ident(x@)
            },
        ),
        _ => None,
    }
}

/// The parser's state: the drained token stream and a cursor into it.
pub struct Parser {
    toks: Vec<Token>,
    pos: usize,
}

/// A parser over everything the token source yields.
pub fn new<L: Tokener>(lex: L) -> Parser {
    let mut lex = lex;
    let mut toks: Vec<Token> = Vec::new();
    loop
        invariant
            toks@.len() <= TOKEN_CAP,
        decreases TOKEN_CAP - toks@.len(),
    {
        if toks.len() == TOKEN_CAP {
            break ;
        }
        match lex.next_token() {
            None => {
                break ;
            },
            Some(t) => {
                toks.push(t);
            },
        }
    }
    Parser { toks, pos: 0 }
}

impl Parser {
    #[verifier::type_invariant]
    spec fn inv(&self) -> bool {
        self.pos <= self.toks@.len()
    }

    /// The tokens not yet consumed.
    pub closed spec fn remaining(&self) -> int {
        self.toks@.len() - self.pos
    }

    /// Whether the next token opens or closes a form, or is an atom.
    pub closed spec fn at_atom(&self) -> bool {
        self.pos < self.toks@.len() && match self.toks@[self.pos as int].ttype {
            TokenType::LeftParen => false,
            TokenType::RightParen => false,
            _ => true,
        }
    }

    /// Whether the next token opens a form.
    pub closed spec fn at_left_paren(&self) -> bool {
        self.pos < self.toks@.len() && self.toks@[self.pos as int].ttype is LeftParen
    }

    /// The token under the cursor, meaningful while any remain.
    pub closed spec fn cur_tok(&self) -> TokenType {
        self.toks@[self.pos as int].ttype
    }

    /// Whether the cursor stands at the end of the stream or at a closing
    /// parenthesis, which the parser treats alike.
    spec fn at_close(&self) -> bool {
        self.pos >= self.toks@.len() || self.toks@[self.pos as int].ttype is RightParen
    }

    /// The line of the token under the cursor, or of the last token once
    /// the stream is exhausted.
    fn cur_line(&self) -> usize {
        proof {
            use_type_invariant(&*self);
        }
        if self.pos < self.toks.len() {
            self.toks[self.pos].line
        } else if self.toks.len() > 0 {
            self.toks[self.toks.len() - 1].line
        } else {
            1
        }
    }

    /// Consumes one token, if any remain.
    fn advance(&mut self)
        ensures
            final(self).toks@ == old(self).toks@,
            final(self).remaining() >= 0,
            old(self).remaining() > 0 ==> final(self).remaining() == old(self).remaining() - 1,
            old(self).remaining() <= 0 ==> final(self).remaining() == old(self).remaining(),
    {
        proof {
            use_type_invariant(&*self);
        }
        if self.pos < self.toks.len() {
            self.pos = self.pos + 1;
        }
    }

    /// Parses the single top-level form, if the text holds one.
    pub fn parse(&mut self) -> (r: Option<ASTList>)
        ensures
            r matches Some(l) ==> l@.len() == 1,
            r is Some <==> (old(self).at_atom() || old(self).at_left_paren()),
            r matches Some(l) ==> (old(self).at_atom() ==> Some(l@[0].0@) == tok_atom(
                old(self).cur_tok(),
            )),
    {
        proof {
            use_type_invariant(&*self);
        }
        match self.parse_sexp() {
            None => None,
            Some(pair) => Some(ASTList::new().append(pair)),
        }
    }

    /// One expression: a parenthesized form or an atom, with its line.
    fn parse_sexp(&mut self) -> (r: Option<ASTAtom>)
        ensures
            final(self).toks@ == old(self).toks@,
            0 <= final(self).remaining() <= old(self).remaining(),
            r is Some <==> (old(self).at_atom() || old(self).at_left_paren()),
            r matches Some(pair) ==> (old(self).at_atom() ==> Some(pair.0@) == tok_atom(
                old(self).cur_tok(),
            )),
        decreases old(self).remaining(), 0int,
    {
        proof {
            use_type_invariant(&*self);
        }
        let is_open = if self.pos < self.toks.len() {
            matches!(self.toks[self.pos].ttype, TokenType::LeftParen)
        } else {
            false
        };
        if is_open {
            self.advance();
            let inner = self.parse_sexp_inner();
            let line = self.cur_line();
            Some((inner, line))
        } else {
            match self.parse_atom() {
                None => None,
                Some(a) => {
                    let line = self.cur_line();
                    Some((a, line))
                },
            }
        }
    }

    /// The elements of a form, prepended as parsed, until a closing
    /// parenthesis or the end of the stream closes it.
    fn parse_sexp_inner(&mut self) -> (r: Atom)
        ensures
            final(self).toks@ == old(self).toks@,
            0 <= final(self).remaining() <= old(self).remaining(),
            r is AList,
        decreases old(self).remaining(), 1int,
    {
        proof {
            use_type_invariant(&*self);
        }
        let mut l: List<Atom> = List::new();
        loop
            invariant
                self.toks@ == old(self).toks@,
                self.remaining() <= old(self).remaining(),
                self.remaining() >= 0,
            decreases self.remaining(),
        {
            proof {
                use_type_invariant(&*self);
            }
            let at_close = if self.pos < self.toks.len() {
                matches!(self.toks[self.pos].ttype, TokenType::RightParen)
            } else {
                true
            };
            if at_close {
                return Atom::AList(l);
            }
            match self.parse_sexp() {
                None => {
                    // An atom position held a parenthesis the checks above
                    // did not consume: cannot happen.
                    proof {
                        assert(false);
                    }
                    return Atom::AList(l);
                },
                Some(pair) => {
                    l = l.append(pair.0);
                },
            }
            self.advance();
        }
    }

    /// One atomic token as a tree leaf; `None` at a parenthesis or at the
    /// end of the stream.
    fn parse_atom(&mut self) -> (r: Option<Atom>)
        ensures
            final(self).toks@ == old(self).toks@,
            final(self).remaining() == old(self).remaining(),
            r is Some <==> old(self).at_atom(),
            r matches Some(a) ==> Some(a@) == tok_atom(old(self).cur_tok()),
    {
        proof {
            use_type_invariant(&*self);
        }
        if self.pos >= self.toks.len() {
            return None;
        }
        match &self.toks[self.pos].ttype {
            TokenType::Str(x) => {
                let a = Atom::AString(x.clone());
                proof {
                    crate::ast::lemma_tree_view_cases(&a);
                }
                Some(a)
            },
            TokenType::Number(x) => {
                let a = Atom::AInteger(*x);
                proof {
                    crate::ast::lemma_tree_view_cases(&a);
                }
                Some(a)
            },
            TokenType::Identifier(x) => {
                if is_lit(x, "true") {
                    let a = Atom::ATrue;
                    proof {
                        crate::ast::lemma_tree_view_cases(&a);
                    }
                    Some(a)
                } else if is_lit(x, "false") {
                    let a = Atom::AFalse;
                    proof {
                        crate::ast::lemma_tree_view_cases(&a);
                    }
                    Some(a)
                } else {
                    let a = Atom::AIdentifier(x.clone());
                    proof {
                        crate::ast::lemma_tree_view_cases(&a);
                    }
                    Some(a)
                }
            },
            _ => None,
        }
    }
}

/// True when the string holds exactly the given literal's characters.
fn is_lit(name: &String, lit: &str) -> (r: bool)
    ensures
        r == (name@ == lit@),
{
    let s = lit.to_owned();
    *name == s
}

} // verus!
