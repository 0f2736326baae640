//! The tokenizer: source text to a stream of typed tokens with line numbers.

use vstd::prelude::*;

verus! {

/// The kinds of token the language knows.
#[derive(Debug, Clone, PartialEq)]
pub enum TokenType {
    LeftParen,
    RightParen,
    Identifier(String),
    Number(isize),
    Str(String),
}

/// One token, with the 1-based source line it started on.
#[derive(Debug)]
pub struct Token {
    pub ttype: TokenType,
    pub line: usize,
}

/// Anything that yields tokens one at a time.
pub trait Tokener {
    fn next_token(&mut self) -> Option<Token>;
}

/// What a scan stops at: it gathers digits, everything short of a closing
/// quote, or everything short of whitespace and parentheses.
#[derive(Debug, Copy, Clone)]
pub enum ScanKind {
    Digits,
    InString,
    InIdentifier,
}

/// A whitespace separator.  The common blank characters; an exotic Unicode
/// blank is read as part of an identifier instead.
pub open spec fn is_blank(c: char) -> bool {
    c == ' ' || c == '\t' || c == '\n' || c == '\r' || c == '\u{b}' || c == '\u{c}'
}

pub open spec fn is_digit_char(c: char) -> bool {
    '0' <= c && c <= '9'
}

/// Whether a scan of the given kind keeps consuming at `c`.
pub open spec fn scan_keeps(kind: ScanKind, c: char) -> bool {
    match kind {
        ScanKind::Digits => is_digit_char(c),
        ScanKind::InString => c != '"',
        ScanKind::InIdentifier => !is_blank(c) && c != '(' && c != ')',
    }
}

/// The numeric value of a digit string.
pub open spec fn digits_val(s: Seq<char>) -> int
    decreases s.len(),
{
    if s.len() == 0 {
        0
    } else {
        digits_val(s.drop_last()) * 10 + (s.last() as int - 48)
    }
}

/// Relies on `str::chars`: the characters of the string, in order.
#[verifier::external_body]
fn str_chars(s: &str) -> (r: Vec<char>)
    ensures
        r@ == s@,
{
    s.chars().collect()
}

/// Relies on `char` iteration collecting into `String`: the same characters,
/// in order.
#[verifier::external_body]
fn chars_to_string(v: &Vec<char>) -> (r: String)
    ensures
        r@ == v@,
{
    v.iter().collect()
}

/// The tokenizer's state: the characters, the position of the one under the
/// cursor, and the current 1-based line.
pub struct Lexer {
    line: usize,
    chars: Vec<char>,
    pos: usize,
}

/// A tokenizer over the given source text, its cursor on the first character.
pub fn new(src: &str) -> Lexer {
    let chars = str_chars(src);
    Lexer { line: 1, chars, pos: 0 }
}

impl Lexer {
    /// The cursor never runs past the end.
    #[verifier::type_invariant]
    spec fn inv(&self) -> bool {
        self.pos <= self.chars@.len()
    }

    spec fn remaining(&self) -> int {
        self.chars@.len() - self.pos
    }

    /// How many characters are left under and beyond the cursor.
    pub closed spec fn remaining_m(&self) -> int {
        self.chars@.len() - self.pos
    }

    /// The character under the cursor.
    fn cur(&self) -> (r: Option<char>)
        ensures
            r is Some <==> self.remaining() > 0,
            r matches Some(c) ==> c == self.chars@[self.pos as int],
    {
        proof {
            use_type_invariant(&*self);
        }
        if self.pos < self.chars.len() {
            Some(self.chars[self.pos])
        } else {
            None
        }
    }

    /// Advances the cursor, counting lines, and returns the new character.
    fn next(&mut self) -> (r: Option<char>)
        ensures
            final(self).chars@ == old(self).chars@,
            final(self).remaining() >= 0,
            old(self).remaining() > 0 ==> final(self).remaining() == old(self).remaining() - 1,
            old(self).remaining() <= 0 ==> final(self).remaining() == 0,
    {
        proof {
            use_type_invariant(&*self);
        }
        if self.pos < self.chars.len() {
            self.pos = self.pos + 1;
        }
        let c = self.cur();
        match c {
            Some(ch) => {
                if ch == '\n' && self.line < usize::MAX {
                    self.line = self.line + 1;
                }
            },
            None => {},
        }
        c
    }

    /// Skips whitespace and returns the first non-blank character, if any.
    fn cur_no_white(&mut self) -> (r: Option<char>)
        ensures
            final(self).chars@ == old(self).chars@,
            final(self).remaining() <= old(self).remaining(),
            r is Some <==> final(self).remaining() > 0,
            r matches Some(c) ==> c == final(self).chars@[final(self).pos as int] && !is_blank(c),
    {
        proof {
            use_type_invariant(&*self);
        }
        loop
            invariant
                self.chars@ == old(self).chars@,
                self.remaining() <= old(self).remaining(),
                self.remaining() >= 0,
            decreases self.remaining(),
        {
            match self.cur() {
                None => {
                    return None;
                },
                Some(c) => {
                    if c == ' ' || c == '\t' || c == '\n' || c == '\r' || c == '\u{b}' || c
                        == '\u{c}' {
                        self.next();
                    } else {
                        return Some(c);
                    }
                },
            }
        }
    }

    /// Gathers consecutive characters the scan kind keeps, advancing past
    /// them.
    fn get_string_to(&mut self, kind: ScanKind) -> (r: Vec<char>)
        ensures
            final(self).chars@ == old(self).chars@,
            final(self).remaining() >= 0,
            final(self).remaining() == old(self).remaining() - r@.len(),
            r@ == old(self).chars@.subrange(
                old(self).pos as int,
                old(self).pos + r@.len(),
            ),
            forall|i: int| 0 <= i < r@.len() ==> scan_keeps(kind, #[trigger] r@[i]),
            final(self).remaining() > 0 ==> !scan_keeps(
                kind,
                final(self).chars@[final(self).pos as int],
            ),
    {
        proof {
            use_type_invariant(&*self);
        }
        let mut out: Vec<char> = Vec::new();
        loop
            invariant
                self.chars@ == old(self).chars@,
                self.remaining() >= 0,
                self.remaining() == old(self).remaining() - out@.len(),
                out@.len() <= old(self).remaining(),
                self.pos == old(self).pos + out@.len(),
                out@ == old(self).chars@.subrange(
                    old(self).pos as int,
                    old(self).pos + out@.len(),
                ),
                forall|i: int| 0 <= i < out@.len() ==> scan_keeps(kind, #[trigger] out@[i]),
            decreases self.remaining(),
        {
            match self.cur() {
                None => {
                    return out;
                },
                Some(c) => {
                    let keep = match kind {
                        ScanKind::Digits => '0' <= c && c <= '9',
                        ScanKind::InString => c != '"',
                        ScanKind::InIdentifier => !(c == ' ' || c == '\t' || c == '\n' || c
                            == '\r' || c == '\u{b}' || c == '\u{c}') && c != '(' && c != ')',
                    };
                    if keep {
                        out.push(c);
                        proof {
                            assert(out@ =~= old(self).chars@.subrange(
                                old(self).pos as int,
                                old(self).pos + out@.len(),
                            ));
                        }
                        self.next();
                    } else {
                        return out;
                    }
                },
            }
        }
    }

    /// Wraps a token kind with the line the cursor is on.
    fn make_token(&self, tok: TokenType) -> (r: Token)
        ensures
            r.line == self.line,
            r.ttype == tok,
    {
        Token { line: self.line, ttype: tok }
    }

    /// A number token from consecutive digits; `None` when the value does
    /// not fit the machine integer.
    fn next_number(&mut self) -> (r: Option<Token>)
        requires
            old(self).remaining() > 0,
            is_digit_char(old(self).chars@[old(self).pos as int]),
        ensures
            final(self).chars@ == old(self).chars@,
            final(self).remaining() < old(self).remaining(),
            r matches Some(t) ==> (t.ttype matches TokenType::Number(n) && n as int == digits_val(
                old(self).chars@.subrange(
                    old(self).pos as int,
                    old(self).pos + (old(self).remaining() - final(self).remaining()),
                ),
            )),
    {
        let s = self.get_string_to(ScanKind::Digits);
        proof {
            if s@.len() == 0 {
                assert(self.pos == old(self).pos);
                assert(!scan_keeps(ScanKind::Digits, self.chars@[self.pos as int]));
                assert(false);
            }
        }
        let ghost digits = s@;
        let mut val: isize = 0;
        let mut i: usize = 0;
        while i < s.len()
            invariant
                self.chars@ == old(self).chars@,
                self.pos == old(self).pos + digits.len(),
                digits.len() >= 1,
                digits.len() <= old(self).remaining(),
                digits == s@,
                i <= digits.len(),
                forall|j: int| 0 <= j < digits.len() ==> scan_keeps(ScanKind::Digits, #[trigger] digits[j]),
                val == digits_val(digits.take(i as int)),
            decreases s@.len() - i,
        {
            let c = s[i];
            let d = (c as u32) - 48;
            let step = match val.checked_mul(10) {
                None => None,
                Some(x) => x.checked_add(d as isize),
            };
            match step {
                None => {
                    return None;
                },
                Some(x) => {
                    proof {
                        assert(digits.take(i as int + 1).drop_last() =~= digits.take(i as int));
                        assert(digits.take(i as int + 1).last() == digits[i as int]);
                    }
                    val = x;
                },
            }
            i = i + 1;
        }
        proof {
            assert(digits.take(digits.len() as int) =~= digits);
        }
        Some(self.make_token(TokenType::Number(val)))
    }

    /// A string token: everything up to the closing quote.
    fn next_string(&mut self) -> (r: Option<Token>)
        requires
            old(self).remaining() > 0,
        ensures
            final(self).chars@ == old(self).chars@,
            final(self).remaining() < old(self).remaining(),
            r matches Some(t) ==> (t.ttype matches TokenType::Str(_)),
    {
        self.next();
        proof {
            assert(self.remaining() == old(self).remaining() - 1);
        }
        let s = self.get_string_to(ScanKind::InString);
        let text = chars_to_string(&s);
        let x = Some(self.make_token(TokenType::Str(text)));
        self.next();
        x
    }

    /// An identifier or keyword token: everything up to a separator.
    fn next_identifier_or_keyword(&mut self) -> (r: Option<Token>)
        requires
            old(self).remaining() > 0,
            scan_keeps(ScanKind::InIdentifier, old(self).chars@[old(self).pos as int]),
        ensures
            final(self).chars@ == old(self).chars@,
            final(self).remaining() < old(self).remaining(),
            r matches Some(t) ==> (t.ttype matches TokenType::Identifier(x) && x@ == old(
                self,
            ).chars@.subrange(
                old(self).pos as int,
                old(self).pos + (old(self).remaining() - final(self).remaining()),
            )),
    {
        let s = self.get_string_to(ScanKind::InIdentifier);
        proof {
            if s@.len() == 0 {
                assert(self.pos == old(self).pos);
                assert(!scan_keeps(ScanKind::InIdentifier, self.chars@[self.pos as int]));
                assert(false);
            }
        }
        let text = chars_to_string(&s);
        Some(self.make_token(TokenType::Identifier(text)))
    }
}

impl Tokener for Lexer {
    /// The next token; `None` once only whitespace remains, or when a digit
    /// run does not fit the machine integer.  Yielding a token always
    /// consumes at least one character, so a stream of tokens ends.
    fn next_token(&mut self) -> (r: Option<Token>)
        ensures
            final(self).remaining_m() <= old(self).remaining_m(),
            r is Some ==> final(self).remaining_m() < old(self).remaining_m(),
    {
        match self.cur_no_white() {
            Some(c) => {
                if c == '(' {
                    self.next();
                    Some(self.make_token(TokenType::LeftParen))
                } else if c == ')' {
                    self.next();
                    Some(self.make_token(TokenType::RightParen))
                } else if '0' <= c && c <= '9' {
                    self.next_number()
                } else if c == '"' {
                    self.next_string()
                } else {
                    self.next_identifier_or_keyword()
                }
            },
            None => None,
        }
    }
}

} // verus!
