//! The compiler: one depth-first walk over the tree, emitting instructions
//! into a chunk.
//!
//! What a tree compiles to is stated once, as the spec-level emission
//! `comp_atom` and its companions, which give the exact instruction bytes
//! and pooled constants of every accepted form; each code-generation
//! function is proved to append exactly that emission on success, and to
//! succeed whenever the emission exists and the instruction stream has room
//! for it.  `evaluate` therefore accepts a tree exactly when every form in
//! it is well formed — a known operator with the arity it demands, every
//! argument compilable in turn — within machine limits (a full constant
//! pool, a conditional branch too long for its one-byte offset, a stream at
//! the machine's cap), and otherwise reports a line-annotated diagnostic.

use vstd::prelude::*;

use crate::ast::list::{link_view, node_view, Link, List};
use crate::ast::{ASTAtom, ASTList, Atom};
use crate::bytecode::{op_code, Op, Value, ValueV};
use crate::chunk;
use crate::chunk::Chunk;
use crate::chunk::{const_encoding, MAX_CONSTANTS};

pub mod functions;

verus! {

/// Why a tree was rejected, with the source line where known; instructions
/// that belong to a nested form carry line zero.
pub enum CompileError {
    /// The operator position names no built-in.
    UnknownOperator(String, usize),
    /// The operator position holds something other than an identifier.
    NotAFunction(usize),
    /// A special form was given the wrong number of arguments.
    WrongArity(usize),
    /// An identifier was read outside every scope.
    UnresolvedIdentifier(String, usize),
    /// A chained comparison cannot carry more than 255 operands.
    TooManyCompareOperands(usize),
    /// A quoted form may hold literals only, never an identifier.
    QuotedIdentifier(usize),
    /// The constant pool is full.
    TooManyConstants(usize),
    /// A conditional branch outgrew its one-byte jump offset.
    JumpTooFar(usize),
    /// The instruction stream outgrew the machine's limits.
    CodeTooLong(usize),
}

/// The errors that depend on machine limits rather than on the tree alone.
pub open spec fn resource_error(e: CompileError) -> bool {
    match e {
        CompileError::TooManyConstants(_) => true,
        CompileError::JumpTooFar(_) => true,
        CompileError::CodeTooLong(_) => true,
        _ => false,
    }
}

/// The code-generation strategy registered for an operator name.
#[derive(Debug, Copy, Clone, PartialEq, Eq, Structural)]
pub enum InlineType {
    Plus,
    Times,
    Minus,
    Divide,
    CompEqual,
    CompLessEqual,
    CompGreaterEqual,
    CompLess,
    CompGreater,
    Car,
    Cdr,
    Cons,
    If,
    Quote,
    Do,
}

/// The strategy a name resolves to, if any.
pub open spec fn inline_of(name: Seq<char>) -> Option<InlineType> {
    if name == "+"@ {
        Some(InlineType::Plus)
    } else if name == "*"@ {
        Some(InlineType::Times)
    } else if name == "-"@ {
        Some(InlineType::Minus)
    } else if name == "/"@ {
        Some(InlineType::Divide)
    } else if name == "="@ {
        Some(InlineType::CompEqual)
    } else if name == "<="@ {
        Some(InlineType::CompLessEqual)
    } else if name == ">="@ {
        Some(InlineType::CompGreaterEqual)
    } else if name == "<"@ {
        Some(InlineType::CompLess)
    } else if name == ">"@ {
        Some(InlineType::CompGreater)
    } else if name == "car"@ {
        Some(InlineType::Car)
    } else if name == "cdr"@ {
        Some(InlineType::Cdr)
    } else if name == "cons"@ {
        Some(InlineType::Cons)
    } else if name == "if"@ {
        Some(InlineType::If)
    } else if name == "quote"@ {
        Some(InlineType::Quote)
    } else if name == "do"@ {
        Some(InlineType::Do)
    } else {
        None
    }
}

/// A measure of a tree's extent, for termination.
pub closed spec fn atom_size(a: Atom) -> nat
    decreases a,
{
    match a {
        Atom::AList(l) => 1 + alink_size(l.head),
        _ => 1,
    }
}

pub closed spec fn alink_size(l: Link<Atom>) -> nat
    decreases l,
{
    match l {
        None => 0,
        Some(n) => atom_size((*n).elm) + alink_size((*n).next),
    }
}

/// The structurally last element of a chain: the operator of a form.
pub(crate) open spec fn last_of(l: Link<Atom>) -> Option<Atom>
    decreases l,
{
    match l {
        None => None,
        Some(n) => if (*n).next is None {
            Some((*n).elm)
        } else {
            last_of((*n).next)
        },
    }
}

/// Whether every element of a chain except the structurally last — the
/// argument forms of a form, the last being its operator — is compilable.
pub(crate) open spec fn args_compilable(l: Link<Atom>) -> bool
    decreases l,
{
    match l {
        None => true,
        Some(n) => if (*n).next is None {
            true
        } else {
            compilable((*n).elm) && args_compilable((*n).next)
        },
    }
}

/// Whether a tree may stand inside `quote`: any literal shape, but never an
/// identifier.
pub(crate) open spec fn quotable(a: Atom) -> bool
    decreases a,
{
    match a {
        Atom::AIdentifier(_) => false,
        Atom::AList(l) => all_quotable(l.head),
        _ => true,
    }
}

pub(crate) open spec fn all_quotable(l: Link<Atom>) -> bool
    decreases l,
{
    match l {
        None => true,
        Some(n) => quotable((*n).elm) && all_quotable((*n).next),
    }
}

/// The value a quoted tree denotes.  A chain was assembled by prepending,
/// so converting it by prepending again yields its elements reversed, which
/// restores source order.
pub(crate) open spec fn quoted_model(a: Atom) -> ValueV
    decreases a,
{
    match a {
        Atom::AFalse => ValueV::Bool(false),
        Atom::ATrue => ValueV::Bool(true),
        Atom::AString(s) => ValueV::Str(s@),
        Atom::AInteger(v) => ValueV::Int(v as int),
        Atom::AIdentifier(_) => ValueV::Error,
        Atom::AList(l) => ValueV::VList(rev_quoted(l.head)),
    }
}

pub(crate) open spec fn rev_quoted(l: Link<Atom>) -> Seq<ValueV>
    decreases l,
{
    match l {
        None => Seq::empty(),
        Some(n) => rev_quoted((*n).next) + seq![quoted_model((*n).elm)],
    }
}

/// Whether the compiler accepts a tree: literals always; identifiers only
/// when a scope holds them, and no scope ever does here; a form when its
/// trailing element names a built-in and the built-in's shape is met.
pub closed spec fn compilable(a: Atom) -> bool
    decreases a,
{
    match a {
        Atom::AIdentifier(_) => false,
        Atom::AList(l) => {
            let len = link_view(l.head).len() as int;
            match last_of(l.head) {
                Some(Atom::AIdentifier(name)) => match inline_of(name@) {
                    Some(InlineType::Plus) | Some(InlineType::Times) | Some(
                        InlineType::Divide,
                    ) | Some(InlineType::Minus) => len >= 2 && args_compilable(l.head),
                    Some(InlineType::CompEqual) | Some(InlineType::CompLessEqual) | Some(
                        InlineType::CompGreaterEqual,
                    ) | Some(InlineType::CompLess) | Some(InlineType::CompGreater) => len - 1
                        <= 255 && args_compilable(l.head),
                    Some(InlineType::Car) | Some(InlineType::Cdr) => len == 2 && args_compilable(
                        l.head,
                    ),
                    Some(InlineType::Cons) => len == 3 && args_compilable(l.head),
                    Some(InlineType::If) => (len == 3 || len == 4) && args_compilable(l.head),
                    Some(InlineType::Quote) => len == 2 && match l.head {
                        Some(n) => quotable((*n).elm),
                        None => false,
                    },
                    Some(InlineType::Do) => len >= 2 && args_compilable(l.head),
                    None => false,
                },
                _ => false,
            }
        },
        _ => true,
    }
}

/// Whether every top-level form of a tree is compilable.
pub(crate) open spec fn top_ok(l: Link<ASTAtom>) -> bool
    decreases l,
{
    match l {
        None => true,
        Some(n) => compilable((*n).elm.0) && top_ok((*n).next),
    }
}

/// Whether the compiler accepts a whole top-level tree.
pub closed spec fn top_compilable(l: &ASTList) -> bool {
    top_ok(l.head)
}

/// What one compilation step appends: instruction bytes and pooled
/// constant models.
#[verifier::ext_equal]
pub ghost struct EmitV {
    pub code: Seq<u8>,
    pub vals: Seq<ValueV>,
}

/// One emission followed by another.
pub open spec fn emit_cat(a: EmitV, b: EmitV) -> EmitV {
    EmitV { code: a.code + b.code, vals: a.vals + b.vals }
}

/// An emission of nothing.
pub open spec fn emit_none() -> EmitV {
    EmitV { code: Seq::empty(), vals: Seq::empty() }
}

/// A single instruction, pooling nothing.
pub open spec fn emit_just(op: Op) -> EmitV {
    EmitV { code: seq![op_code(op)], vals: Seq::empty() }
}

/// A pooled constant and its load instruction, at pool index `pool0`.
pub open spec fn emit_one_const(pool0: int, v: ValueV) -> EmitV {
    EmitV { code: const_encoding(pool0), vals: seq![v] }
}

/// `n` copies of one instruction byte.
pub open spec fn ops_n(op: Op, n: int) -> Seq<u8> {
    Seq::new(n as nat, |i: int| op_code(op))
}

/// The code and constants a tree compiles to when `pool0` constants are
/// already pooled — the compiler's output, stated once.  `None` when the
/// compiler rejects the tree or a machine bound inside it is exceeded (a
/// full pool, a conditional branch beyond its one-byte offset, a form too
/// large to count); the instruction stream's own length cap is accounted
/// separately, since it depends on what was emitted before.
pub(crate) open spec fn comp_atom(a: Atom, pool0: int) -> Option<EmitV>
    decreases atom_size(a), 4int,
{
    match a {
        Atom::AList(l) => comp_fn(l, pool0),
        Atom::AInteger(v) => if pool0 < MAX_CONSTANTS {
            Some(emit_one_const(pool0, ValueV::Int(v as int)))
        } else {
            None
        },
        Atom::AString(s) => if pool0 < MAX_CONSTANTS {
            Some(emit_one_const(pool0, ValueV::Str(s@)))
        } else {
            None
        },
        Atom::AIdentifier(_) => None,
        Atom::ATrue => if pool0 < MAX_CONSTANTS {
            Some(emit_one_const(pool0, ValueV::Bool(true)))
        } else {
            None
        },
        Atom::AFalse => if pool0 < MAX_CONSTANTS {
            Some(emit_one_const(pool0, ValueV::Bool(false)))
        } else {
            None
        },
    }
}

/// A form compiles when its trailing element names a built-in.
pub(crate) open spec fn comp_fn(l: List<Atom>, pool0: int) -> Option<EmitV>
    decreases atom_size(Atom::AList(l)), 3int,
{
    match last_of(l.head) {
        Some(Atom::AIdentifier(name)) => match inline_of(name@) {
            Some(it) => comp_form(it, l, pool0),
            None => None,
        },
        _ => None,
    }
}

/// The argument forms of a chain — all elements but the structurally last —
/// compiled in chain order, each at the pool the previous ones left.
pub(crate) open spec fn comp_args(l: Link<Atom>, pool0: int) -> Option<EmitV>
    decreases alink_size(l), 5int,
{
    match l {
        None => Some(emit_none()),
        Some(n) => if (*n).next is None {
            Some(emit_none())
        } else {
            match comp_atom((*n).elm, pool0) {
                None => None,
                Some(e1) => match comp_args((*n).next, pool0 + e1.vals.len()) {
                    None => None,
                    Some(e2) => Some(emit_cat(e1, e2)),
                },
            }
        },
    }
}

/// The argument forms compiled in reverse chain order — source order — for
/// sequencing.
pub(crate) open spec fn comp_rev(l: Link<Atom>, pool0: int) -> Option<EmitV>
    decreases alink_size(l), 5int,
    via comp_rev_decreases
{
    match l {
        None => Some(emit_none()),
        Some(n) => if (*n).next is None {
            Some(emit_none())
        } else {
            match comp_rev((*n).next, pool0) {
                None => None,
                Some(e1) => match comp_atom((*n).elm, pool0 + e1.vals.len()) {
                    None => None,
                    Some(e2) => Some(emit_cat(e1, e2)),
                },
            }
        },
    }
}

#[via_fn]
proof fn comp_rev_decreases(l: Link<Atom>, pool0: int) {
    match &l {
        Some(n) => {
            lemma_atom_size_pos(&(*n).elm);
        },
        None => {},
    }
}

pub(crate) proof fn lemma_atom_size_pos(a: &Atom)
    ensures
        atom_size(*a) >= 1,
{
}

/// The code each built-in generates, mirroring its arity and bounds.
pub(crate) open spec fn comp_form(it: InlineType, l: List<Atom>, pool0: int) -> Option<EmitV>
    decreases atom_size(Atom::AList(l)), 2int,
{
    let len = link_view(l.head).len() as int;
    if len >= usize::MAX {
        None
    } else {
        match it {
            InlineType::Plus | InlineType::Times | InlineType::Divide => if len < 2 {
                None
            } else {
                match comp_args(l.head, pool0) {
                    None => None,
                    Some(em) => Some(
                        EmitV { code: em.code + ops_n(arith_op(it), len - 2), vals: em.vals },
                    ),
                }
            },
            InlineType::Minus => if len > 2 {
                match comp_args(l.head, pool0) {
                    None => None,
                    Some(em) => Some(
                        EmitV {
                            code: em.code + ops_n(Op::Subtract, len - 2),
                            vals: em.vals,
                        },
                    ),
                }
            } else if len == 2 {
                match comp_args(l.head, pool0) {
                    None => None,
                    Some(em) => Some(
                        EmitV { code: em.code + seq![op_code(Op::Negate)], vals: em.vals },
                    ),
                }
            } else {
                None
            },
            InlineType::CompEqual | InlineType::CompLessEqual | InlineType::CompGreaterEqual
                | InlineType::CompLess | InlineType::CompGreater => if len - 1 > 255 {
                None
            } else {
                match comp_args(l.head, pool0) {
                    None => None,
                    Some(em) => Some(
                        EmitV {
                            code: em.code + seq![
                                op_code(comp_op(it)),
                                (len - 1) as u8,
                            ],
                            vals: em.vals,
                        },
                    ),
                }
            },
            InlineType::Car | InlineType::Cdr => if len != 2 {
                None
            } else {
                match comp_args(l.head, pool0) {
                    None => None,
                    Some(em) => Some(
                        EmitV {
                            code: em.code + seq![
                                op_code(
                                    if it is Car {
                                        Op::Car
                                    } else {
                                        Op::Cdr
                                    },
                                ),
                            ],
                            vals: em.vals,
                        },
                    ),
                }
            },
            InlineType::Cons => if len != 3 {
                None
            } else {
                match comp_args(l.head, pool0) {
                    None => None,
                    Some(em) => Some(
                        EmitV { code: em.code + seq![op_code(Op::Cons)], vals: em.vals },
                    ),
                }
            },
            InlineType::If => if len != 3 && len != 4 {
                None
            } else {
                comp_if(l, pool0)
            },
            InlineType::Quote => if len != 2 {
                None
            } else {
                match l.head {
                    None => None,
                    Some(n) => if quotable((*n).elm) && pool0 < MAX_CONSTANTS {
                        Some(emit_one_const(pool0, quoted_model((*n).elm)))
                    } else {
                        None
                    },
                }
            },
            InlineType::Do => if len < 2 {
                None
            } else {
                match comp_rev(l.head, pool0) {
                    None => None,
                    Some(em) => Some(
                        EmitV {
                            code: seq![op_code(Op::CreateFrame)] + em.code + seq![
                                op_code(Op::DropFrameSaveReturn),
                            ],
                            vals: em.vals,
                        },
                    ),
                }
            },
        }
    }
}

/// The conditional's layout: the condition, a conditional jump over the
/// else-code into the then-code, an unconditional jump past the then-code;
/// each offset must fit a signed byte.  Given the chain reversal, the
/// elements are else (when present), then, condition — condition last.
#[verifier::opaque]
pub(crate) open spec fn comp_if(l: List<Atom>, pool0: int) -> Option<EmitV>
    decreases atom_size(Atom::AList(l)), 1int,
    via comp_if_decreases
{
    match l.head {
        Some(n0) => match (*n0).next {
            Some(n1) => match (*n1).next {
                Some(n2) => if (*n2).next is None {
                    // Three elements: then (head), condition, operator.
                    match comp_atom((*n1).elm, pool0) {
                        None => None,
                        Some(ec) => match comp_atom((*n0).elm, pool0 + ec.vals.len()) {
                            None => None,
                            Some(et) => comp_if_join(ec, emit_none(), et),
                        },
                    }
                } else {
                    // Four elements: else (head), then, condition, operator.
                    match (*n2).next {
                        Some(n3) => if (*n3).next is None {
                            match comp_atom((*n2).elm, pool0) {
                                None => None,
                                Some(ec) => match comp_atom(
                                    (*n0).elm,
                                    pool0 + ec.vals.len(),
                                ) {
                                    None => None,
                                    Some(ee) => match comp_atom(
                                        (*n1).elm,
                                        pool0 + ec.vals.len() + ee.vals.len(),
                                    ) {
                                        None => None,
                                        Some(et) => comp_if_join(ec, ee, et),
                                    },
                                },
                            }
                        } else {
                            None
                        },
                        None => None,
                    }
                },
                None => None,
            },
            None => None,
        },
        None => None,
    }
}

#[via_fn]
proof fn comp_if_decreases(l: List<Atom>, pool0: int) {
    match &l.head {
        Some(n0) => {
            match &(*n0).next {
                Some(n1) => {
                    match &(*n1).next {
                        Some(n2) => {
                            assert(alink_size(l.head) == atom_size((*n0).elm) + alink_size(
                                (*n0).next,
                            ));
                            assert(alink_size((*n0).next) == atom_size((*n1).elm)
                                + alink_size((*n1).next));
                            assert(alink_size((*n1).next) == atom_size((*n2).elm)
                                + alink_size((*n2).next));
                        },
                        None => {},
                    }
                },
                None => {},
            }
        },
        None => {},
    }
}

/// Joins the three compiled pieces of a conditional, backpatched offsets
/// written in place; fails when a branch outgrows its one-byte offset.
pub open spec fn comp_if_join(ec: EmitV, ee: EmitV, et: EmitV) -> Option<EmitV> {
    if ee.code.len() + 2 > 127 || et.code.len() > 127 {
        None
    } else {
        Some(
            EmitV {
                code: ec.code + seq![op_code(Op::JumpTrue), (ee.code.len() + 2) as u8]
                    + ee.code + seq![op_code(Op::Jump), et.code.len() as u8] + et.code,
                vals: ec.vals + ee.vals + et.vals,
            },
        )
    }
}

/// The arithmetic instruction of a fold strategy.
pub open spec fn arith_op(it: InlineType) -> Op {
    match it {
        InlineType::Plus => Op::Add,
        InlineType::Times => Op::Multiply,
        InlineType::Divide => Op::Divide,
        _ => Op::Subtract,
    }
}

/// The comparison instruction of a comparison strategy.
pub open spec fn comp_op(it: InlineType) -> Op {
    match it {
        InlineType::CompEqual => Op::Equal,
        InlineType::CompLessEqual => Op::LessEqual,
        InlineType::CompGreaterEqual => Op::GreaterEqual,
        InlineType::CompLess => Op::Less,
        _ => Op::Greater,
    }
}

/// The whole top-level sequence of forms, compiled in the list's own order.
pub closed spec fn comp_top(l: Link<ASTAtom>, pool0: int) -> Option<EmitV>
    decreases l,
{
    match l {
        None => Some(emit_none()),
        Some(n) => match comp_atom((*n).elm.0, pool0) {
            None => None,
            Some(e1) => match comp_top((*n).next, pool0 + e1.vals.len()) {
                None => None,
                Some(e2) => Some(emit_cat(e1, e2)),
            },
        },
    }
}

/// A sequence of trees compiled left to right, each at the pool the
/// previous ones left.
pub(crate) open spec fn comp_seq(s: Seq<Atom>, pool0: int) -> Option<EmitV>
    decreases s.len(),
{
    if s.len() == 0 {
        Some(emit_none())
    } else {
        match comp_atom(s[0], pool0) {
            None => None,
            Some(e1) => match comp_seq(s.drop_first(), pool0 + e1.vals.len()) {
                None => None,
                Some(e2) => Some(emit_cat(e1, e2)),
            },
        }
    }
}

/// A sequence of trees compiled right to left.
pub(crate) open spec fn comp_rseq(s: Seq<Atom>, pool0: int) -> Option<EmitV>
    decreases s.len(),
{
    if s.len() == 0 {
        Some(emit_none())
    } else {
        match comp_atom(s.last(), pool0) {
            None => None,
            Some(e1) => match comp_rseq(s.drop_last(), pool0 + e1.vals.len()) {
                None => None,
                Some(e2) => Some(emit_cat(e1, e2)),
            },
        }
    }
}

/// A sequence of top-level forms compiled left to right.
pub(crate) open spec fn comp_tops(s: Seq<ASTAtom>, pool0: int) -> Option<EmitV>
    decreases s.len(),
{
    if s.len() == 0 {
        Some(emit_none())
    } else {
        match comp_atom(s[0].0, pool0) {
            None => None,
            Some(e1) => match comp_tops(s.drop_first(), pool0 + e1.vals.len()) {
                None => None,
                Some(e2) => Some(emit_cat(e1, e2)),
            },
        }
    }
}


/// A sequence without its last element; empty stays empty.
pub open spec fn drop_last_of(s: Seq<Atom>) -> Seq<Atom> {
    if s.len() == 0 {
        s
    } else {
        s.drop_last()
    }
}

/// Compiling a concatenation is compiling the first part, then the second
/// at the pool the first left.
pub(crate) proof fn lemma_comp_seq_concat(a: Seq<Atom>, b: Seq<Atom>, p: int)
    ensures
        comp_seq(a + b, p) == (match comp_seq(a, p) {
            None => None,
            Some(ea) => match comp_seq(b, p + ea.vals.len()) {
                None => None,
                Some(eb) => Some(emit_cat(ea, eb)),
            },
        }),
    decreases a.len(),
{
    if a.len() == 0 {
        assert(a + b =~= b);
        match comp_seq(b, p) {
            Some(eb) => {
                assert(emit_cat(emit_none(), eb) =~= eb);
            },
            None => {},
        }
    } else {
        assert((a + b)[0] == a[0]);
        assert((a + b).len() > 0);
        match comp_atom(a[0], p) {
            None => {},
            Some(e1) => {
                assert((a + b).drop_first() =~= a.drop_first() + b);
                lemma_comp_seq_concat(a.drop_first(), b, p + e1.vals.len());
                match comp_seq(a.drop_first(), p + e1.vals.len()) {
                    None => {},
                    Some(ea2) => {
                        match comp_seq(b, p + e1.vals.len() + ea2.vals.len()) {
                            None => {},
                            Some(eb) => {
                                assert(emit_cat(e1, emit_cat(ea2, eb)) =~= emit_cat(
                                    emit_cat(e1, ea2),
                                    eb,
                                ));
                            },
                        }
                    },
                }
            },
        }
    }
}

/// A one-element sequence compiles to that element's emission.
pub(crate) proof fn lemma_comp_seq_one(x: Atom, p: int)
    ensures
        comp_seq(seq![x], p) == (match comp_atom(x, p) {
            None => None,
            Some(e) => Some(e),
        }),
{
    assert(seq![x].drop_first() =~= Seq::<Atom>::empty());
    match comp_atom(x, p) {
        None => {},
        Some(e) => {
            assert(comp_seq(Seq::<Atom>::empty(), p + e.vals.len()) == Some(emit_none()));
            assert(emit_cat(e, emit_none()) =~= e);
        },
    }
}

/// Compiling right to left, one more element at the front runs last.
pub(crate) proof fn lemma_comp_rseq_front(x: &Atom, s: Seq<Atom>, p: int)
    ensures
        comp_rseq(seq![*x] + s, p) == (match comp_rseq(s, p) {
            None => None,
            Some(a) => match catom(x, p + a.vals.len()) {
                None => None,
                Some(e) => Some(emit_cat(a, e)),
            },
        }),
    decreases s.len(),
{
    let w = seq![*x] + s;
    if s.len() == 0 {
        assert(w.len() == 1);
        assert(w.last() == *x);
        assert(w.drop_last() =~= Seq::<Atom>::empty());
        assert(comp_rseq(s, p) == Some(emit_none()));
        match catom(x, p) {
            None => {},
            Some(e) => {
                assert(comp_rseq(Seq::<Atom>::empty(), p + e.vals.len()) == Some(emit_none()));
                assert(emit_cat(e, emit_none()) =~= emit_cat(emit_none(), e));
            },
        }
    } else {
        assert(w.last() == s.last());
        assert(w.drop_last() =~= seq![*x] + s.drop_last());
        match comp_seq_last_helper(s, p) {
            None => {},
            Some(e1) => {
                lemma_comp_rseq_front(x, s.drop_last(), p + e1.vals.len());
                match comp_rseq(s.drop_last(), p + e1.vals.len()) {
                    None => {},
                    Some(a2) => {
                        match catom(x, p + e1.vals.len() + a2.vals.len()) {
                            None => {},
                            Some(ex) => {
                                assert(emit_cat(e1, emit_cat(a2, ex)) =~= emit_cat(
                                    emit_cat(e1, a2),
                                    ex,
                                ));
                            },
                        }
                    },
                }
            },
        }
    }
}

/// The chain-level argument fold is the view-level left-to-right fold over
/// everything but the trailing operator.
pub(crate) proof fn lemma_comp_args_view(l: &Link<Atom>, p: int)
    ensures
        comp_args(*l, p) == comp_seq(drop_last_of(link_view(*l)), p),
    decreases *l,
{
    match l {
        None => {},
        Some(n) => {
            let v = vw(l);
            let vn = vw(&(*n).next);
            assert(v =~= seq![(*n).elm] + vn);
            if matches!(&(*n).next, None) {
                assert(drop_last_of(v) =~= Seq::<Atom>::empty());
            } else {
                assert(vn.len() >= 1);
                assert(drop_last_of(v) =~= seq![(*n).elm] + drop_last_of(vn));
                assert(drop_last_of(v)[0] == (*n).elm);
                assert(drop_last_of(v).drop_first() =~= drop_last_of(vn));
                lemma_comp_args_view(&(*n).next, p + (match catom(&(*n).elm, p) {
                    Some(e1) => e1.vals.len() as int,
                    None => 0,
                }));
            }
        },
    }
}

/// The chain-level reverse fold is the view-level right-to-left fold over
/// everything but the trailing operator.
pub(crate) proof fn lemma_comp_rev_view(l: &Link<Atom>, p: int)
    ensures
        comp_rev(*l, p) == comp_rseq(drop_last_of(link_view(*l)), p),
    decreases *l,
{
    match l {
        None => {},
        Some(n) => {
            let v = vw(l);
            let vn = vw(&(*n).next);
            assert(v =~= seq![(*n).elm] + vn);
            if matches!(&(*n).next, None) {
                assert(drop_last_of(v) =~= Seq::<Atom>::empty());
            } else {
                assert(vn.len() >= 1);
                assert(drop_last_of(v) =~= seq![(*n).elm] + drop_last_of(vn));
                lemma_comp_rev_view(&(*n).next, p);
                lemma_comp_rseq_front(&(*n).elm, drop_last_of(vn), p);
            }
        },
    }
}

/// The chain-level top fold is the view-level left-to-right fold.
pub(crate) proof fn lemma_comp_top_view(l: &Link<ASTAtom>, p: int)
    ensures
        comp_top(*l, p) == comp_tops(link_view(*l), p),
    decreases *l,
{
    match l {
        None => {
            assert(link_view(*l).len() == 0);
        },
        Some(n) => {
            let v = vwp(l);
            let vn = vwp(&(*n).next);
            assert(v =~= seq![(*n).elm] + vn);
            assert(v[0] == (*n).elm);
            assert(v.drop_first() =~= vn);
            match catom(&(*n).elm.0, p) {
                None => {},
                Some(e1) => {
                    lemma_comp_top_view(&(*n).next, p + e1.vals.len());
                },
            }
        },
    }
}

/// Compiling a concatenation of top-level forms splits the same way.
pub(crate) proof fn lemma_comp_tops_concat(a: Seq<ASTAtom>, b: Seq<ASTAtom>, p: int)
    ensures
        comp_tops(a + b, p) == (match comp_tops(a, p) {
            None => None,
            Some(ea) => match comp_tops(b, p + ea.vals.len()) {
                None => None,
                Some(eb) => Some(emit_cat(ea, eb)),
            },
        }),
    decreases a.len(),
{
    if a.len() == 0 {
        assert(a + b =~= b);
        match comp_tops(b, p) {
            Some(eb) => {
                assert(emit_cat(emit_none(), eb) =~= eb);
            },
            None => {},
        }
    } else {
        assert((a + b)[0] == a[0]);
        assert((a + b).len() > 0);
        match comp_atom(a[0].0, p) {
            None => {},
            Some(e1) => {
                assert((a + b).drop_first() =~= a.drop_first() + b);
                lemma_comp_tops_concat(a.drop_first(), b, p + e1.vals.len());
                match comp_tops(a.drop_first(), p + e1.vals.len()) {
                    None => {},
                    Some(ea2) => {
                        match comp_tops(b, p + e1.vals.len() + ea2.vals.len()) {
                            None => {},
                            Some(eb) => {
                                assert(emit_cat(e1, emit_cat(ea2, eb)) =~= emit_cat(
                                    emit_cat(e1, ea2),
                                    eb,
                                ));
                            },
                        }
                    },
                }
            },
        }
    }
}

/// When a whole fold succeeds, so do its prefix and the element at `k`,
/// and their code is no longer than the whole's.
pub(crate) proof fn lemma_comp_seq_at(s: Seq<Atom>, p: int, k: int)
    requires
        0 <= k < s.len(),
        comp_seq(s, p) is Some,
    ensures
        comp_seq(s.take(k), p) is Some,
        comp_atom(s[k], p + comp_seq(s.take(k), p)->Some_0.vals.len()) is Some,
        comp_seq(s.take(k), p)->Some_0.code.len() + comp_atom(
            s[k],
            p + comp_seq(s.take(k), p)->Some_0.vals.len(),
        )->Some_0.code.len() <= comp_seq(s, p)->Some_0.code.len(),
{
    assert(s =~= s.take(k) + s.skip(k));
    lemma_comp_seq_concat(s.take(k), s.skip(k), p);
    match comp_seq(s.take(k), p) {
        None => {
            assert(false);
        },
        Some(acc) => {
            assert(s.skip(k).len() >= 1);
            assert(s.skip(k)[0] == s[k]);
            match comp_seq(s.skip(k), p + acc.vals.len()) {
                None => {
                    assert(false);
                },
                Some(suf) => {
                    match comp_seq_head_helper(s.skip(k), p + acc.vals.len()) {
                        None => {
                            assert(false);
                        },
                        Some(ek) => {
                            assert(suf.code.len() >= ek.code.len());
                        },
                    }
                },
            }
        },
    }
}

pub(crate) open spec fn comp_seq_head_helper(s: Seq<Atom>, p: int) -> Option<EmitV> {
    comp_atom(s[0], p)
}

/// Compiling right to left splits on concatenation the mirrored way: the
/// second part runs first.
pub(crate) proof fn lemma_comp_rseq_concat(a: Seq<Atom>, b: Seq<Atom>, p: int)
    ensures
        comp_rseq(a + b, p) == (match comp_rseq(b, p) {
            None => None,
            Some(eb) => match comp_rseq(a, p + eb.vals.len()) {
                None => None,
                Some(ea) => Some(emit_cat(eb, ea)),
            },
        }),
    decreases a.len(),
{
    if a.len() == 0 {
        assert(a + b =~= b);
        match comp_rseq(b, p) {
            None => {},
            Some(eb) => {
                assert(comp_rseq(Seq::<Atom>::empty(), p + eb.vals.len()) == Some(emit_none()));
                assert(emit_cat(eb, emit_none()) =~= eb);
            },
        }
    } else {
        assert(a =~= seq![a[0]] + a.drop_first());
        assert(a + b =~= seq![a[0]] + (a.drop_first() + b));
        lemma_comp_rseq_front_helper(a, b, p);
    }
}

/// The inductive step of `lemma_comp_rseq_concat`, split out for clarity.
proof fn lemma_comp_rseq_front_helper(a: Seq<Atom>, b: Seq<Atom>, p: int)
    requires
        a.len() >= 1,
    ensures
        comp_rseq(a + b, p) == (match comp_rseq(b, p) {
            None => None,
            Some(eb) => match comp_rseq(a, p + eb.vals.len()) {
                None => None,
                Some(ea) => Some(emit_cat(eb, ea)),
            },
        }),
    decreases a.len(),
{
    let hd = seq![a[0]];
    let tl = a.drop_first();
    assert(a =~= hd + tl);
    assert(a + b =~= hd + (tl + b));
    lemma_comp_rseq_front(&a[0], tl + b, p);
    if tl.len() == 0 {
        assert(tl + b =~= b);
        match comp_rseq(b, p) {
            None => {},
            Some(eb) => {
                assert(tl =~= Seq::<Atom>::empty());
                lemma_comp_rseq_front(&a[0], tl, p + eb.vals.len());
                assert(comp_rseq(tl, p + eb.vals.len()) == Some(emit_none()));
                match catom(&a[0], p + eb.vals.len()) {
                    None => {},
                    Some(e0) => {
                        assert(emit_cat(emit_none(), e0) =~= e0);
                        assert(emit_cat(eb, emit_cat(emit_none(), e0)) =~= emit_cat(eb, e0));
                    },
                }
            },
        }
    } else {
        lemma_comp_rseq_front_helper(tl, b, p);
        match comp_rseq(b, p) {
            None => {},
            Some(eb) => {
                lemma_comp_rseq_front(&a[0], tl, p + eb.vals.len());
                match comp_rseq(tl, p + eb.vals.len()) {
                    None => {},
                    Some(et) => {
                        match catom(&a[0], p + eb.vals.len() + et.vals.len()) {
                            None => {},
                            Some(e0) => {
                                assert(emit_cat(eb, emit_cat(et, e0)) =~= emit_cat(
                                    emit_cat(eb, et),
                                    e0,
                                ));
                            },
                        }
                    },
                }
            },
        }
    }
}

/// When a whole right-to-left fold succeeds, so do the suffix past `k` and
/// the element at `k`, and their code is no longer than the whole's.
pub(crate) proof fn lemma_comp_rseq_at(s: Seq<Atom>, p: int, k: int)
    requires
        0 <= k < s.len(),
        comp_rseq(s, p) is Some,
    ensures
        comp_rseq(s.skip(k + 1), p) is Some,
        comp_atom(s[k], p + comp_rseq(s.skip(k + 1), p)->Some_0.vals.len()) is Some,
        comp_rseq(s.skip(k + 1), p)->Some_0.code.len() + comp_atom(
            s[k],
            p + comp_rseq(s.skip(k + 1), p)->Some_0.vals.len(),
        )->Some_0.code.len() <= comp_rseq(s, p)->Some_0.code.len(),
{
    assert(s =~= s.take(k) + s.skip(k));
    lemma_comp_rseq_concat(s.take(k), s.skip(k), p);
    match comp_rseq(s.skip(k), p) {
        None => {
            assert(false);
        },
        Some(w1) => {
            assert(s.skip(k) =~= seq![s[k]] + s.skip(k + 1));
            lemma_comp_rseq_front(&s[k], s.skip(k + 1), p);
            match comp_rseq(s.skip(k + 1), p) {
                None => {
                    assert(false);
                },
                Some(acc) => {
                    match catom(&s[k], p + acc.vals.len()) {
                        None => {
                            assert(false);
                        },
                        Some(ek) => {
                            assert(w1 == emit_cat(acc, ek));
                            assert(comp_rseq(s, p)->Some_0.code.len() >= w1.code.len());
                        },
                    }
                },
            }
        },
    }
}

/// A one-element top-level sequence compiles to its form's emission.
pub(crate) proof fn lemma_comp_tops_one(x: ASTAtom, p: int)
    ensures
        comp_tops(seq![x], p) == (match comp_atom(x.0, p) {
            None => None,
            Some(e) => Some(e),
        }),
{
    assert(seq![x].drop_first() =~= Seq::<ASTAtom>::empty());
    match catom(&x.0, p) {
        None => {},
        Some(e) => {
            assert(comp_tops(Seq::<ASTAtom>::empty(), p + e.vals.len()) == Some(emit_none()));
            assert(emit_cat(e, emit_none()) =~= e);
        },
    }
}

/// When a whole top-level fold succeeds, so do its prefix and the form at
/// `k`, and their code is no longer than the whole's.
pub(crate) proof fn lemma_comp_tops_at(s: Seq<ASTAtom>, p: int, k: int)
    requires
        0 <= k < s.len(),
        comp_tops(s, p) is Some,
    ensures
        comp_tops(s.take(k), p) is Some,
        comp_atom(s[k].0, p + comp_tops(s.take(k), p)->Some_0.vals.len()) is Some,
        comp_tops(s.take(k), p)->Some_0.code.len() + comp_atom(
            s[k].0,
            p + comp_tops(s.take(k), p)->Some_0.vals.len(),
        )->Some_0.code.len() <= comp_tops(s, p)->Some_0.code.len(),
{
    assert(s =~= s.take(k) + s.skip(k));
    lemma_comp_tops_concat(s.take(k), s.skip(k), p);
    match comp_tops(s.take(k), p) {
        None => {
            assert(false);
        },
        Some(acc) => {
            assert(s.skip(k).len() >= 1);
            assert(s.skip(k)[0] == s[k]);
            match comp_tops(s.skip(k), p + acc.vals.len()) {
                None => {
                    assert(false);
                },
                Some(suf) => {
                    match comp_tops_head_helper(s.skip(k), p + acc.vals.len()) {
                        None => {
                            assert(false);
                        },
                        Some(ek) => {
                            assert(suf.code.len() >= ek.code.len());
                        },
                    }
                },
            }
        },
    }
}

pub(crate) open spec fn comp_tops_head_helper(s: Seq<ASTAtom>, p: int) -> Option<EmitV> {
    comp_atom(s[0].0, p)
}

/// The code and constants a whole tree compiles to, starting from a pool
/// of `pool0` constants: the forms in the list's own order.
pub closed spec fn comp_program(t: &ASTList, pool0: int) -> Option<EmitV> {
    comp_top(t.head, pool0)
}

/// The conditional's compilation read off the view: for three elements the
/// condition is the second and the then-branch the first; for four, the
/// condition is the third, the then-branch the second, the else-branch the
/// first — the chain reversal at work.
pub(crate) proof fn lemma_comp_if_view(l: &List<Atom>, p: int)
    requires
        link_view(l.head).len() == 3 || link_view(l.head).len() == 4,
    ensures
        link_view(l.head).len() == 3 ==> comp_if(*l, p) == (match catom(
            &link_view(l.head)[1],
            p,
        ) {
            None => None,
            Some(ec) => match catom(&link_view(l.head)[0], p + ec.vals.len()) {
                None => None,
                Some(et) => comp_if_join(ec, emit_none(), et),
            },
        }),
        link_view(l.head).len() == 4 ==> comp_if(*l, p) == (match catom(
            &link_view(l.head)[2],
            p,
        ) {
            None => None,
            Some(ec) => match catom(&link_view(l.head)[0], p + ec.vals.len()) {
                None => None,
                Some(ee) => match catom(
                    &link_view(l.head)[1],
                    p + ec.vals.len() + ee.vals.len(),
                ) {
                    None => None,
                    Some(et) => comp_if_join(ec, ee, et),
                },
            },
        }),
{
    reveal(comp_if);
    match &l.head {
        Some(n0) => {
            match &(*n0).next {
                Some(n1) => {
                    match &(*n1).next {
                        Some(n2) => {
                            assert(link_view(l.head) == node_view(**n0));
                            assert(node_view(**n0) == seq![(*n0).elm] + link_view((*n0).next));
                            assert(link_view((*n0).next) == node_view(**n1));
                            assert(node_view(**n1) == seq![(*n1).elm] + link_view((*n1).next));
                            assert(link_view((*n1).next) == node_view(**n2));
                            assert(node_view(**n2) == seq![(*n2).elm] + link_view((*n2).next));
                            assert(link_view((*n1).next)[0] == (*n2).elm);
                            assert(link_view((*n0).next)[0] == (*n1).elm);
                            assert(link_view((*n0).next)[1] == (*n2).elm);
                            assert(link_view(l.head)[0] == (*n0).elm);
                            assert(link_view(l.head)[1] == (*n1).elm);
                            assert(link_view(l.head)[2] == (*n2).elm);
                            assert(link_view(l.head).len() == 3 + link_view((*n2).next).len());
                            match &(*n2).next {
                                Some(n3) => {
                                    assert(link_view((*n2).next) == node_view(**n3));
                                    assert(node_view(**n3) == seq![(*n3).elm] + link_view(
                                        (*n3).next,
                                    ));
                                    assert(link_view(l.head).len() == 4 + link_view(
                                        (*n3).next,
                                    ).len());
                                },
                                None => {},
                            }
                        },
                        None => {
                            assert(link_view(l.head) == node_view(**n0));
                            assert(node_view(**n0) == seq![(*n0).elm] + link_view((*n0).next));
                            assert(link_view((*n0).next) == node_view(**n1));
                            assert(node_view(**n1) == seq![(*n1).elm] + link_view((*n1).next));
                            assert(link_view(l.head).len() == 2);
                            assert(false);
                        },
                    }
                },
                None => {
                    assert(link_view(l.head) == node_view(**n0));
                    assert(node_view(**n0) == seq![(*n0).elm] + link_view((*n0).next));
                    assert(link_view(l.head).len() == 1);
                    assert(false);
                },
            }
        },
        None => {
            assert(link_view(l.head).len() == 0);
            assert(false);
        },
    }
}

/// A constant-load emission spans at least two bytes.
pub(crate) proof fn lemma_const_emission_wide(idx: int)
    ensures
        const_encoding(idx).len() >= 2,
{
}

/// The view index of a conditional's condition element.
pub(crate) open spec fn if_ci(l: &List<Atom>) -> int {
    if link_view(l.head).len() == 4 {
        2
    } else {
        1
    }
}

/// The view index of a conditional's then-branch element.
pub(crate) open spec fn if_ti(l: &List<Atom>) -> int {
    if link_view(l.head).len() == 4 {
        1
    } else {
        0
    }
}

/// What the condition compiles to.
pub(crate) open spec fn if_cond_em(l: &List<Atom>, p: int) -> Option<EmitV> {
    catom(&link_view(l.head)[if_ci(l)], p)
}

/// What the else-branch compiles to: nothing when absent.
pub(crate) open spec fn if_else_em(l: &List<Atom>, p: int) -> Option<EmitV> {
    match if_cond_em(l, p) {
        None => None,
        Some(ec) => if link_view(l.head).len() == 4 {
            catom(&link_view(l.head)[0], p + ec.vals.len())
        } else {
            Some(emit_none())
        },
    }
}

/// What the then-branch compiles to.
pub(crate) open spec fn if_then_em(l: &List<Atom>, p: int) -> Option<EmitV> {
    match if_cond_em(l, p) {
        None => None,
        Some(ec) => match if_else_em(l, p) {
            None => None,
            Some(ee) => catom(&link_view(l.head)[if_ti(l)], p + ec.vals.len() + ee.vals.len()),
        },
    }
}

/// When a conditional compiles, its three pieces compile, both branches fit
/// their one-byte offsets, and the whole is their join.
pub(crate) proof fn lemma_if_pieces(l: &List<Atom>, p: int)
    requires
        link_view(l.head).len() == 3 || link_view(l.head).len() == 4,
        comp_if(*l, p) is Some,
    ensures
        if_cond_em(l, p) is Some,
        if_else_em(l, p) is Some,
        if_then_em(l, p) is Some,
        if_else_em(l, p)->Some_0.code.len() + 2 <= 127,
        if_then_em(l, p)->Some_0.code.len() <= 127,
        comp_if(*l, p) == comp_if_join(
            if_cond_em(l, p)->Some_0,
            if_else_em(l, p)->Some_0,
            if_then_em(l, p)->Some_0,
        ),
{
    lemma_comp_if_view(l, p);
    match if_cond_em(l, p) {
        None => {
            assert(false);
        },
        Some(ec) => {
            match if_else_em(l, p) {
                None => {
                    assert(false);
                },
                Some(ee) => {
                    match if_then_em(l, p) {
                        None => {
                            assert(false);
                        },
                        Some(et) => {
                            assert(comp_if(*l, p) == comp_if_join(ec, ee, et));
                        },
                    }
                },
            }
        },
    }
}

/// The exact length and shape of a compiled conditional, packaged so that
/// callers need only arithmetic.
pub(crate) proof fn lemma_if_len(l: &List<Atom>, p: int)
    requires
        link_view(l.head).len() == 3 || link_view(l.head).len() == 4,
        comp_if(*l, p) is Some,
    ensures
        if_cond_em(l, p) is Some,
        if_else_em(l, p) is Some,
        if_then_em(l, p) is Some,
        if_else_em(l, p)->Some_0.code.len() + 2 <= 127,
        if_then_em(l, p)->Some_0.code.len() <= 127,
        comp_if(*l, p)->Some_0.code.len() == if_cond_em(l, p)->Some_0.code.len() + 2
            + if_else_em(l, p)->Some_0.code.len() + 2 + if_then_em(l, p)->Some_0.code.len(),
        comp_if(*l, p)->Some_0 == comp_if_join(
            if_cond_em(l, p)->Some_0,
            if_else_em(l, p)->Some_0,
            if_then_em(l, p)->Some_0,
        )->Some_0,
{
    lemma_if_pieces(l, p);
}

/// Conversely, once the condition and else-branch have compiled, the whole
/// conditional's compilation is decided by the then-branch and the join.
pub(crate) proof fn lemma_if_complete(l: &List<Atom>, p: int)
    requires
        link_view(l.head).len() == 3 || link_view(l.head).len() == 4,
        if_cond_em(l, p) is Some,
        if_else_em(l, p) is Some,
    ensures
        comp_if(*l, p) == (match if_then_em(l, p) {
            None => None,
            Some(et) => comp_if_join(
                if_cond_em(l, p)->Some_0,
                if_else_em(l, p)->Some_0,
                et,
            ),
        }),
{
    lemma_comp_if_view(l, p);
}

/// The chunk after is the chunk before with `em` appended.
pub(crate) open spec fn emits(pre: Evaluator, post: Evaluator, em: EmitV) -> bool {
    &&& post.chunk.code_m() == pre.chunk.code_m() + em.code
    &&& post.chunk.values_m() == pre.chunk.values_m() + em.vals
}

/// Whether the instruction stream has room for `em` beyond `pre`: the cap
/// each emission step checks cannot strike while this holds.
pub(crate) open spec fn cap_ok(pre: Evaluator, em: EmitV) -> bool {
    pre.chunk.code_m().len() + em.code.len() <= usize::MAX - 4
}

/// What the argument walker emits, `None` when it must fail.
pub(crate) open spec fn m_args(l: &List<Atom>, pool0: int) -> Option<EmitV> {
    if link_view(l.head).len() >= usize::MAX {
        None
    } else {
        comp_args(l.head, pool0)
    }
}

/// What a left-fold arithmetic form emits.
pub(crate) open spec fn m_binary(l: &List<Atom>, pool0: int, opcode: Op) -> Option<EmitV> {
    let len = link_view(l.head).len() as int;
    if len >= usize::MAX || len < 2 {
        None
    } else {
        match comp_args(l.head, pool0) {
            None => None,
            Some(em) => Some(EmitV { code: em.code + ops_n(opcode, len - 2), vals: em.vals }),
        }
    }
}

/// What a chained comparison form emits.
pub(crate) open spec fn m_compare(l: &List<Atom>, pool0: int, opcode: Op) -> Option<EmitV> {
    let len = link_view(l.head).len() as int;
    if len >= usize::MAX || len - 1 > 255 {
        None
    } else {
        match comp_args(l.head, pool0) {
            None => None,
            Some(em) => Some(
                EmitV {
                    code: em.code + seq![op_code(opcode), (len - 1) as u8],
                    vals: em.vals,
                },
            ),
        }
    }
}

/// What a fixed-arity form that ends in one instruction emits.
pub(crate) open spec fn m_fixed(l: &List<Atom>, pool0: int, opcode: Op, arity: int) -> Option<
    EmitV,
> {
    let len = link_view(l.head).len() as int;
    if len >= usize::MAX || len != arity {
        None
    } else {
        match comp_args(l.head, pool0) {
            None => None,
            Some(em) => Some(
                EmitV { code: em.code + seq![op_code(opcode)], vals: em.vals },
            ),
        }
    }
}

/// Reference-taking aliases so that proof code can bind these values.
pub(crate) open spec fn vw(l: &Link<Atom>) -> Seq<Atom> {
    link_view(*l)
}

pub(crate) open spec fn catom(a: &Atom, p: int) -> Option<EmitV> {
    comp_atom(*a, p)
}

pub(crate) open spec fn comp_seq_last_helper(s: Seq<Atom>, p: int) -> Option<EmitV> {
    comp_atom(s.last(), p)
}

pub(crate) open spec fn vwp(l: &Link<ASTAtom>) -> Seq<ASTAtom> {
    link_view(*l)
}

pub(crate) open spec fn cmpl(a: &Atom) -> bool {
    compilable(*a)
}

pub(crate) open spec fn argsc(l: &Link<Atom>) -> bool {
    args_compilable(*l)
}

pub(crate) open spec fn quot(a: &Atom) -> bool {
    quotable(*a)
}

pub(crate) open spec fn allq(l: &Link<Atom>) -> bool {
    all_quotable(*l)
}

pub(crate) open spec fn topokr(l: &Link<ASTAtom>) -> bool {
    top_ok(*l)
}

/// Each element of a chain weighs no more than the whole chain.
pub(crate) proof fn lemma_link_elem_size(l: &Link<Atom>, i: int)
    requires
        0 <= i < link_view(*l).len(),
    ensures
        atom_size(link_view(*l)[i]) <= alink_size(*l),
    decreases *l,
{
    match l {
        None => {},
        Some(n) => {
            if i == 0 {
            } else {
                lemma_link_elem_size(&(*n).next, i - 1);
            }
        },
    }
}

/// The structurally last element is the last of the view.
pub(crate) proof fn lemma_last_of_view(l: &Link<Atom>)
    ensures
        match last_of(*l) {
            None => link_view(*l).len() == 0,
            Some(a) => link_view(*l).len() > 0 && a == link_view(*l).last(),
        },
    decreases *l,
{
    match l {
        None => {},
        Some(n) => {
            lemma_last_of_view(&(*n).next);
        },
    }
}

/// The argument forms are the view's elements short of the last.
pub(crate) proof fn lemma_args_compilable_view(l: &Link<Atom>)
    ensures
        args_compilable(*l) == (forall|i: int|
            0 <= i < link_view(*l).len() - 1 ==> compilable(#[trigger] link_view(*l)[i])),
    decreases *l,
{
    match l {
        None => {},
        Some(n) => {
            lemma_args_compilable_view(&(*n).next);
            let v = vw(l);
            let vn = vw(&(*n).next);
            assert(forall|i: int| 0 <= i < vn.len() ==> vn[i] == v[i + 1]);
            if matches!(&(*n).next, None) {
            } else {
                assert(v[0] == (*n).elm);
                if cmpl(&(*n).elm) && argsc(&(*n).next) {
                    assert(forall|i: int| 0 <= i < v.len() - 1 ==> compilable(#[trigger] v[i]))
                        by {
                        assert(forall|i: int|
                            1 <= i < v.len() - 1 ==> vn[i - 1] == v[i] && compilable(
                                #[trigger] v[i],
                            ));
                    }
                } else {
                    if !cmpl(&(*n).elm) {
                        assert(!compilable(v[0]));
                    } else {
                        let j = choose|j: int|
                            0 <= j < vn.len() - 1 && !compilable(#[trigger] vn[j]);
                        assert(!compilable(v[j + 1]));
                    }
                }
            }
        },
    }
}

/// Quoting all of a chain is quoting each of the view's elements.
pub(crate) proof fn lemma_all_quotable_view(l: &Link<Atom>)
    ensures
        all_quotable(*l) == (forall|i: int|
            0 <= i < link_view(*l).len() ==> quotable(#[trigger] link_view(*l)[i])),
    decreases *l,
{
    match l {
        None => {},
        Some(n) => {
            lemma_all_quotable_view(&(*n).next);
            let v = vw(l);
            let vn = vw(&(*n).next);
            assert(forall|i: int| 0 <= i < vn.len() ==> vn[i] == v[i + 1]);
            assert(v[0] == (*n).elm);
            if quot(&(*n).elm) && allq(&(*n).next) {
                assert(forall|i: int| 0 <= i < v.len() ==> quotable(#[trigger] v[i])) by {
                    assert(forall|i: int|
                        1 <= i < v.len() ==> vn[i - 1] == v[i] && quotable(#[trigger] v[i]));
                }
            } else {
                if !quot(&(*n).elm) {
                    assert(!quotable(v[0]));
                } else {
                    let j = choose|j: int| 0 <= j < vn.len() && !quotable(#[trigger] vn[j]);
                    assert(!quotable(v[j + 1]));
                }
            }
        },
    }
}

/// The first slot bound to a name in one scope.
pub(crate) open spec fn scope_find(s: Seq<(String, usize)>, name: Seq<char>) -> Option<usize>
    decreases s.len(),
{
    if s.len() == 0 {
        None
    } else if s[0].0@ == name {
        Some(s[0].1)
    } else {
        scope_find(s.drop_first(), name)
    }
}

/// A name resolved against a scope stack, innermost scope last: the slot it
/// is bound to and how many scopes back from the innermost it was found.
pub(crate) open spec fn lookup_slot(
    scopes: Seq<Seq<(String, usize)>>,
    name: Seq<char>,
) -> Option<(usize, int)>
    decreases scopes.len(),
{
    if scopes.len() == 0 {
        None
    } else {
        match scope_find(scopes.last(), name) {
            Some(slot) => Some((slot, 0int)),
            None => match lookup_slot(scopes.drop_last(), name) {
                Some(p) => Some((p.0, p.1 + 1)),
                None => None,
            },
        }
    }
}

/// A resolved name's depth is never negative.
pub(crate) proof fn lemma_lookup_depth_nonneg(scopes: Seq<Seq<(String, usize)>>, name: Seq<char>)
    ensures
        match lookup_slot(scopes, name) {
            Some(p) => p.1 >= 0,
            None => true,
        },
    decreases scopes.len(),
{
    if scopes.len() > 0 {
        lemma_lookup_depth_nonneg(scopes.drop_last(), name);
    }
}

/// Whether every top-level form is compilable, read off the view.
pub(crate) proof fn lemma_top_ok_view(l: &Link<ASTAtom>)
    ensures
        top_ok(*l) == (forall|i: int|
            0 <= i < link_view(*l).len() ==> compilable(
                (#[trigger] link_view(*l)[i]).0,
            )),
    decreases *l,
{
    match l {
        None => {},
        Some(n) => {
            lemma_top_ok_view(&(*n).next);
            let v = vwp(l);
            let vn = vwp(&(*n).next);
            assert(forall|i: int| 0 <= i < vn.len() ==> vn[i] == v[i + 1]);
            assert(v[0] == (*n).elm);
            if cmpl(&(*n).elm.0) && topokr(&(*n).next) {
                assert(forall|i: int| 0 <= i < v.len() ==> compilable((#[trigger] v[i]).0)) by {
                    assert(forall|i: int|
                        1 <= i < v.len() ==> vn[i - 1] == v[i] && compilable(
                            (#[trigger] v[i]).0,
                        ));
                }
            } else {
                if !cmpl(&(*n).elm.0) {
                    assert(!compilable(v[0].0));
                } else {
                    let j = choose|j: int| 0 <= j < vn.len() && !compilable((#[trigger] vn[j]).0);
                    assert(!compilable(v[j + 1].0));
                }
            }
        },
    }
}

/// The quoted value of each element, in order.
pub(crate) open spec fn map_quoted(s: Seq<Atom>) -> Seq<ValueV> {
    s.map_values(|a: Atom| quoted_model(a))
}

/// The quoted chain read structurally is the view's elements quoted and
/// reversed: prepending while iterating reverses, which restores source
/// order.
pub(crate) proof fn lemma_rev_quoted_view(l: &Link<Atom>)
    ensures
        rev_quoted(*l) == map_quoted(link_view(*l)).reverse(),
    decreases *l,
{
    match l {
        None => {
            assert(rev_quoted(*l) =~= map_quoted(link_view(*l)).reverse());
        },
        Some(n) => {
            lemma_rev_quoted_view(&(*n).next);
            assert(rev_quoted(*l) =~= map_quoted(link_view(*l)).reverse());
        },
    }
}

/// Prefixes compose.
pub(crate) proof fn lemma_prefix_trans(a: Seq<u8>, b: Seq<u8>, c: Seq<u8>)
    requires
        a.is_prefix_of(b),
        b.is_prefix_of(c),
    ensures
        a.is_prefix_of(c),
{
    assert(c.subrange(0, a.len() as int) =~= a);
}

/// True when the string holds exactly the given literal's characters.
fn str_is(name: &String, lit: &str) -> (r: bool)
    ensures
        r == (name@ == lit@),
{
    let s = lit.to_owned();
    *name == s
}

/// The code-generation strategy for an operator name, if one is registered.
fn lookup_inline(name: &String) -> (r: Option<InlineType>)
    ensures
        r == inline_of(name@),
{
    if str_is(name, "+") {
        Some(InlineType::Plus)
    } else if str_is(name, "*") {
        Some(InlineType::Times)
    } else if str_is(name, "-") {
        Some(InlineType::Minus)
    } else if str_is(name, "/") {
        Some(InlineType::Divide)
    } else if str_is(name, "=") {
        Some(InlineType::CompEqual)
    } else if str_is(name, "<=") {
        Some(InlineType::CompLessEqual)
    } else if str_is(name, ">=") {
        Some(InlineType::CompGreaterEqual)
    } else if str_is(name, "<") {
        Some(InlineType::CompLess)
    } else if str_is(name, ">") {
        Some(InlineType::CompGreater)
    } else if str_is(name, "car") {
        Some(InlineType::Car)
    } else if str_is(name, "cdr") {
        Some(InlineType::Cdr)
    } else if str_is(name, "cons") {
        Some(InlineType::Cons)
    } else if str_is(name, "if") {
        Some(InlineType::If)
    } else if str_is(name, "quote") {
        Some(InlineType::Quote)
    } else if str_is(name, "do") {
        Some(InlineType::Do)
    } else {
        None
    }
}

/// The compiler's working state: the chunk being built, the operator
/// registry, and the lexical scope stack, innermost scope last.
pub struct Evaluator {
    pub(crate) chunk: Chunk,
    pub(crate) inlined: Vec<(String, InlineType)>,
    pub(crate) var_stack: Vec<Vec<(String, usize)>>,
}

impl Evaluator {
    /// The instruction bytes accumulated so far.
    pub closed spec fn built_code(&self) -> Seq<u8> {
        self.chunk.code_m()
    }

    /// The models of the constants pooled so far.
    pub closed spec fn built_vals(&self) -> Seq<ValueV> {
        self.chunk.values_m()
    }

    /// The scope stack as the model reads it.
    pub(crate) open spec fn scopes_m(&self) -> Seq<Seq<(String, usize)>> {
        self.var_stack@.map_values(|v: Vec<(String, usize)>| v@)
    }

    /// The shape every compilation step keeps: a well-formed chunk and, in
    /// this system, which never opens a scope, an empty scope stack.
    pub closed spec fn wf_ev(&self) -> bool {
        &&& self.chunk.wf()
        &&& self.var_stack@.len() == 0
    }

    /// Appends one instruction, unless the stream is at the machine's limit.
    pub(crate) fn emit_op(&mut self, op: Op, line: usize) -> (r: Result<usize, CompileError>)
        requires
            old(self).wf_ev(),
        ensures
            final(self).wf_ev(),
            final(self).var_stack == old(self).var_stack,
            final(self).inlined == old(self).inlined,
            old(self).chunk.code_m().is_prefix_of(final(self).chunk.code_m()),
            match r {
                Ok(i) => {
                    &&& old(self).chunk.code_m().len() < usize::MAX - 4
                    &&& i == old(self).chunk.code_m().len()
                    &&& final(self).chunk.code_m() == old(self).chunk.code_m().push(op_code(op))
                    &&& final(self).chunk.values_m() == old(self).chunk.values_m()
                },
                Err(e) => {
                    &&& old(self).chunk.code_m().len() >= usize::MAX - 4
                    &&& e is CodeTooLong
                    &&& final(self).chunk.code_m() == old(self).chunk.code_m()
                    &&& final(self).chunk.values_m() == old(self).chunk.values_m()
                },
            },
    {
        if self.chunk.get_count() >= usize::MAX - 4 {
            return Err(CompileError::CodeTooLong(line));
        }
        let i = self.chunk.add_op(op, line);
        proof {
            assert(old(self).chunk.code_m().is_prefix_of(self.chunk.code_m()));
        }
        Ok(i)
    }

    /// Appends one raw operand byte, under the same limit.
    pub(crate) fn emit_byte(&mut self, b: u8, line: usize) -> (r: Result<usize, CompileError>)
        requires
            old(self).wf_ev(),
        ensures
            final(self).wf_ev(),
            final(self).var_stack == old(self).var_stack,
            final(self).inlined == old(self).inlined,
            old(self).chunk.code_m().is_prefix_of(final(self).chunk.code_m()),
            match r {
                Ok(i) => {
                    &&& old(self).chunk.code_m().len() < usize::MAX - 4
                    &&& i == old(self).chunk.code_m().len()
                    &&& final(self).chunk.code_m() == old(self).chunk.code_m().push(b)
                    &&& final(self).chunk.values_m() == old(self).chunk.values_m()
                },
                Err(e) => {
                    &&& old(self).chunk.code_m().len() >= usize::MAX - 4
                    &&& e is CodeTooLong
                    &&& final(self).chunk.code_m() == old(self).chunk.code_m()
                    &&& final(self).chunk.values_m() == old(self).chunk.values_m()
                },
            },
    {
        if self.chunk.get_count() >= usize::MAX - 4 {
            return Err(CompileError::CodeTooLong(line));
        }
        let i = self.chunk.add_byte(b, line);
        proof {
            assert(old(self).chunk.code_m().is_prefix_of(self.chunk.code_m()));
        }
        Ok(i)
    }

    /// Pools a constant and emits its load instruction, under both limits.
    pub(crate) fn emit_const(&mut self, val: Value, line: usize) -> (r: Result<
        usize,
        CompileError,
    >)
        requires
            old(self).wf_ev(),
        ensures
            final(self).wf_ev(),
            final(self).var_stack == old(self).var_stack,
            final(self).inlined == old(self).inlined,
            old(self).chunk.code_m().is_prefix_of(final(self).chunk.code_m()),
            match r {
                Ok(i) => {
                    &&& old(self).chunk.code_m().len() < usize::MAX - 4
                    &&& old(self).chunk.values_m().len() < MAX_CONSTANTS
                    &&& i == old(self).chunk.values_m().len()
                    &&& final(self).chunk.values_m() == old(self).chunk.values_m().push(val@)
                    &&& final(self).chunk.code_m() == old(self).chunk.code_m()
                        + const_encoding(i as int)
                },
                Err(e) => {
                    &&& final(self).chunk.code_m() == old(self).chunk.code_m()
                    &&& final(self).chunk.values_m() == old(self).chunk.values_m()
                    &&& if old(self).chunk.code_m().len() >= usize::MAX - 4 {
                        e is CodeTooLong
                    } else {
                        e is TooManyConstants && old(self).chunk.values_m().len()
                            >= MAX_CONSTANTS
                    }
                },
            },
    {
        if self.chunk.get_count() >= usize::MAX - 4 {
            return Err(CompileError::CodeTooLong(line));
        }
        match self.chunk.add_constant(val, line) {
            Some(i) => {
                proof {
                    assert(old(self).chunk.code_m().is_prefix_of(self.chunk.code_m()));
                }
                Ok(i)
            },
            None => Err(CompileError::TooManyConstants(line)),
        }
    }

    /// Resolves a name against the scope stack, innermost first: the slot
    /// and the depth back from the innermost scope, when both fit the
    /// instruction's one-byte operands.
    pub(crate) fn get_var_stack_loc(&self, var: &String) -> (r: Option<(u8, u8)>)
        ensures
            match lookup_slot(self.scopes_m(), var@) {
                None => r is None,
                Some(p) => if p.0 <= 255 && p.1 <= 255 {
                    r == Some((p.0 as u8, p.1 as u8))
                } else {
                    r is None
                },
            },
    {
        let ghost scopes = self.scopes_m();
        let total = self.var_stack.len();
        let mut i: usize = total;
        proof {
            assert(scopes.take(total as int) =~= scopes);
            lemma_lookup_depth_nonneg(scopes, var@);
        }
        while i > 0
            invariant
                i <= total,
                total == scopes.len(),
                scopes == self.scopes_m(),
                match lookup_slot(scopes, var@) {
                    None => lookup_slot(scopes.take(i as int), var@) is None,
                    Some(p) => p.1 >= total - i && lookup_slot(scopes.take(i as int), var@)
                        == Some((p.0, p.1 - (total - i))),
                },
            decreases i,
        {
            let scope = &self.var_stack[i - 1];
            let ghost sv = scope@;
            let mut j: usize = 0;
            let mut found: Option<usize> = None;
            proof {
                assert(sv.skip(0) =~= sv);
            }
            while j < scope.len() && found.is_none()
                invariant
                    j <= sv.len(),
                    sv == scope@,
                    match found {
                        None => scope_find(sv, var@) == scope_find(sv.skip(j as int), var@),
                        Some(slot) => scope_find(sv, var@) == Some(slot),
                    },
                decreases sv.len() - j,
            {
                if str_is(var, scope[j].0.as_str()) {
                    proof {
                        assert(sv.skip(j as int)[0] == sv[j as int]);
                    }
                    found = Some(scope[j].1);
                    j = j + 1;
                } else {
                    proof {
                        assert(sv.skip(j as int)[0] == sv[j as int]);
                        assert(sv.skip(j as int).drop_first() =~= sv.skip(j as int + 1));
                    }
                    j = j + 1;
                }
            }
            proof {
                assert(scopes.take(i as int).last() == sv);
                assert(scopes.take(i as int).drop_last() =~= scopes.take(i as int - 1));
            }
            match found {
                Some(slot) => {
                    let depth = total - i;
                    if slot <= 255 && depth <= 255 {
                        return Some((slot as u8, depth as u8));
                    }
                    return None;
                },
                None => {
                    proof {
                        assert(scope_find(sv, var@) is None);
                        assert(lookup_slot(scopes.take(i as int), var@) == (
                        match lookup_slot(scopes.take(i as int - 1), var@) {
                            Some(p) => Some((p.0, p.1 + 1)),
                            None => None,
                        }));
                        lemma_lookup_depth_nonneg(scopes.take(i as int - 1), var@);
                    }
                    i = i - 1;
                },
            }
        }
        proof {
            assert(scopes.take(0) =~= Seq::<Seq<(String, usize)>>::empty());
        }
        None
    }

    /// Emits the code for one tree node: a pooled constant for a literal, a
    /// load for a resolved identifier, a form's dispatch for a nested list.
    pub(crate) fn eval_atom(&mut self, ast: &Atom, line: usize) -> (r: Result<(), CompileError>)
        requires
            old(self).wf_ev(),
        ensures
            final(self).wf_ev(),
            final(self).var_stack == old(self).var_stack,
            final(self).inlined == old(self).inlined,
            old(self).chunk.code_m().is_prefix_of(final(self).chunk.code_m()),
            match r {
                Ok(_) => compilable(*ast),
                Err(e) => resource_error(e) || !compilable(*ast),
            },
            r is Ok ==> match *ast {
                Atom::AInteger(v) => final(self).chunk.values_m() == old(
                    self,
                ).chunk.values_m().push(ValueV::Int(v as int)),
                Atom::AString(sx) => final(self).chunk.values_m() == old(
                    self,
                ).chunk.values_m().push(ValueV::Str(sx@)),
                Atom::ATrue => final(self).chunk.values_m() == old(
                    self,
                ).chunk.values_m().push(ValueV::Bool(true)),
                Atom::AFalse => final(self).chunk.values_m() == old(
                    self,
                ).chunk.values_m().push(ValueV::Bool(false)),
                _ => true,
            },
            r is Ok ==> (comp_atom(*ast, old(self).chunk.values_m().len() as int) matches Some(
                em,
            ) && emits(*old(self), *final(self), em)),
            !(r is Ok) ==> (match comp_atom(*ast, old(self).chunk.values_m().len() as int) {
                Some(em) => !cap_ok(*old(self), em),
                None => true,
            }),
        decreases atom_size(*ast), 4int,
    {
        broadcast use crate::bytecode::group_value_view;

        match ast {
            Atom::AList(l) => self.eval_fn(l, line),
            Atom::AInteger(v) => match self.emit_const(Value::VInt(*v), line) {
                Ok(_) => {
                    proof {
                        assert(self.chunk.values_m() =~= old(self).chunk.values_m() + seq![
                            ValueV::Int(*v as int),
                        ]);
                    }
                    Ok(())
                },
                Err(e) => {
                    proof {
                        lemma_const_emission_wide(old(self).chunk.values_m().len() as int);
                    }
                    Err(e)
                },
            },
            Atom::AString(v) => match self.emit_const(Value::VString(v.clone()), line) {
                Ok(_) => {
                    proof {
                        assert(self.chunk.values_m() =~= old(self).chunk.values_m() + seq![
                            ValueV::Str(v@),
                        ]);
                    }
                    Ok(())
                },
                Err(e) => {
                    proof {
                        lemma_const_emission_wide(old(self).chunk.values_m().len() as int);
                    }
                    Err(e)
                },
            },
            Atom::AIdentifier(v) => {
                match self.get_var_stack_loc(v) {
                    Some(pair) => {
                        // No scope is ever opened in this system, so a name can
                        // never resolve; this branch is provably unreachable.
                        proof {
                            assert(false);
                        }
                        match self.emit_op(Op::Load, line) {
                            Err(e) => {
                                return Err(e);
                            },
                            Ok(_) => {},
                        }
                        match self.emit_byte(pair.0, line) {
                            Err(e) => {
                                return Err(e);
                            },
                            Ok(_) => {},
                        }
                        match self.emit_byte(pair.1, line) {
                            Err(e) => {
                                return Err(e);
                            },
                            Ok(_) => {},
                        }
                        Ok(())
                    },
                    None => Err(CompileError::UnresolvedIdentifier(v.clone(), line)),
                }
            },
            Atom::ATrue => match self.emit_const(Value::VBool(true), line) {
                Ok(_) => {
                    proof {
                        assert(self.chunk.values_m() =~= old(self).chunk.values_m() + seq![
                            ValueV::Bool(true),
                        ]);
                    }
                    Ok(())
                },
                Err(e) => {
                    proof {
                        lemma_const_emission_wide(old(self).chunk.values_m().len() as int);
                    }
                    Err(e)
                },
            },
            Atom::AFalse => match self.emit_const(Value::VBool(false), line) {
                Ok(_) => {
                    proof {
                        assert(self.chunk.values_m() =~= old(self).chunk.values_m() + seq![
                            ValueV::Bool(false),
                        ]);
                    }
                    Ok(())
                },
                Err(e) => {
                    proof {
                        lemma_const_emission_wide(old(self).chunk.values_m().len() as int);
                    }
                    Err(e)
                },
            },
        }
    }

    /// Dispatches a parenthesized form: its structurally last element — the
    /// first token the reader saw — must name a registered built-in.
    pub(crate) fn eval_fn(&mut self, ast: &List<Atom>, line: usize) -> (r: Result<
        (),
        CompileError,
    >)
        requires
            old(self).wf_ev(),
        ensures
            final(self).wf_ev(),
            final(self).var_stack == old(self).var_stack,
            final(self).inlined == old(self).inlined,
            old(self).chunk.code_m().is_prefix_of(final(self).chunk.code_m()),
            match r {
                Ok(_) => compilable(Atom::AList(*ast)),
                Err(e) => resource_error(e) || !compilable(Atom::AList(*ast)),
            },
            r is Ok ==> (comp_fn(*ast, old(self).chunk.values_m().len() as int) matches Some(em)
                && emits(*old(self), *final(self), em)),
            !(r is Ok) ==> (match comp_fn(*ast, old(self).chunk.values_m().len() as int) {
                Some(em) => !cap_ok(*old(self), em),
                None => true,
            }),
        decreases 1 + alink_size(ast.head), 3int,
    {
        proof {
            crate::ast::list::lemma_view_is_link_view(ast);
            lemma_last_of_view(&ast.head);
        }
        match ast.tail_tip() {
            Some(a) => match a {
                Atom::AIdentifier(cmd) => match lookup_inline(cmd) {
                    Some(it) => {
                        let res = match it {
                            InlineType::Plus => functions::plus_inline(self, ast),
                            InlineType::Times => functions::times_inline(self, ast),
                            InlineType::Minus => functions::minus_inline(self, ast),
                            InlineType::Divide => functions::divide_inline(self, ast),
                            InlineType::CompEqual => functions::comp_equal_inline(self, ast),
                            InlineType::CompLessEqual => functions::comp_less_equal_inline(
                                self,
                                ast,
                            ),
                            InlineType::CompGreaterEqual => functions::comp_greater_equal_inline(
                                self,
                                ast,
                            ),
                            InlineType::CompLess => functions::comp_less_then_inline(self, ast),
                            InlineType::CompGreater => functions::comp_greater_then_inline(
                                self,
                                ast,
                            ),
                            InlineType::Car => functions::car_inline(self, ast),
                            InlineType::Cdr => functions::cdr_inline(self, ast),
                            InlineType::Cons => functions::cons_inline(self, ast),
                            InlineType::If => functions::if_inline(self, ast),
                            InlineType::Quote => functions::quote_inline(self, ast),
                            InlineType::Do => functions::do_inline(self, ast),
                        };
                        proof {
                            assert(comp_fn(*ast, old(self).chunk.values_m().len() as int)
                                == comp_form(
                                it,
                                *ast,
                                old(self).chunk.values_m().len() as int,
                            ));
                        }
                        res
                    },
                    None => Err(CompileError::UnknownOperator(cmd.clone(), line)),
                },
                _ => Err(CompileError::NotAFunction(line)),
            },
            None => Err(CompileError::NotAFunction(line)),
        }
    }

    /// Compiles each top-level form in the list's own order.
    pub(crate) fn eval_s_expr(&mut self, ast: ASTList) -> (r: Result<(), CompileError>)
        requires
            old(self).wf_ev(),
        ensures
            final(self).wf_ev(),
            final(self).var_stack == old(self).var_stack,
            final(self).inlined == old(self).inlined,
            old(self).chunk.code_m().is_prefix_of(final(self).chunk.code_m()),
            match r {
                Ok(_) => top_ok(ast.head),
                Err(e) => resource_error(e) || !top_ok(ast.head),
            },
            r is Ok ==> (comp_tops(ast@, old(self).chunk.values_m().len() as int) matches Some(
                em,
            ) && emits(*old(self), *final(self), em)),
            !(r is Ok) ==> (match comp_tops(ast@, old(self).chunk.values_m().len() as int) {
                Some(em) => !cap_ok(*old(self), em),
                None => true,
            }),
    {
        proof {
            crate::ast::list::lemma_view_is_link_view(&ast);
            lemma_top_ok_view(&ast.head);
        }
        let ghost full = ast@;
        let ghost pool0: int = old(self).chunk.values_m().len() as int;
        let ghost mut k: int = 0;
        let mut val = ast;
        proof {
            assert(full.take(0) =~= Seq::<ASTAtom>::empty());
            assert(self.chunk.code_m() =~= old(self).chunk.code_m() + emit_none().code);
            assert(self.chunk.values_m() =~= old(self).chunk.values_m() + emit_none().vals);
        }
        loop
            invariant
                old(self).wf_ev(),
                self.wf_ev(),
                self.var_stack == old(self).var_stack,
                self.inlined == old(self).inlined,
                old(self).chunk.code_m().is_prefix_of(self.chunk.code_m()),
                0 <= k <= full.len(),
                full == ast@,
                val@ == full.skip(k),
                pool0 == old(self).chunk.values_m().len() as int,
                forall|j: int| 0 <= j < k ==> compilable((#[trigger] full[j]).0),
                top_ok(ast.head) == (forall|i: int|
                    0 <= i < full.len() ==> compilable((#[trigger] full[i]).0)),
                comp_tops(full.take(k), pool0) is Some,
                self.chunk.code_m() == old(self).chunk.code_m() + comp_tops(
                    full.take(k),
                    pool0,
                )->Some_0.code,
                self.chunk.values_m() == old(self).chunk.values_m() + comp_tops(
                    full.take(k),
                    pool0,
                )->Some_0.vals,
            decreases val@.len(),
        {
            let ghost pre_code = self.chunk.code_m();
            let ghost pre_vals = self.chunk.values_m();
            let ghost acc = comp_tops(full.take(k), pool0)->Some_0;
            let stop: bool;
            {
                match val.head() {
                    None => {
                        stop = true;
                    },
                    Some(p) => {
                        stop = false;
                        let line = p.1;
                        match self.eval_atom(&p.0, line) {
                            Err(e) => {
                                proof {
                                    assert(full[k] == p);
                                    lemma_prefix_trans(
                                        old(self).chunk.code_m(),
                                        pre_code,
                                        self.chunk.code_m(),
                                    );
                                    lemma_top_ok_view(&ast.head);
                                    match comp_tops(full, pool0) {
                                        Some(em) => {
                                            lemma_comp_tops_at(full, pool0, k);
                                            assert(!cap_ok(*old(self), em));
                                        },
                                        None => {},
                                    }
                                }
                                return Err(e);
                            },
                            Ok(_) => {
                                proof {
                                    assert(full[k] == p);
                                    lemma_prefix_trans(
                                        old(self).chunk.code_m(),
                                        pre_code,
                                        self.chunk.code_m(),
                                    );
                                    let emk = catom(&p.0, pool0 + acc.vals.len())->Some_0;
                                    assert(full.take(k + 1) =~= full.take(k) + seq![full[k]]);
                                    lemma_comp_tops_concat(full.take(k), seq![full[k]], pool0);
                                    lemma_comp_tops_one(full[k], pool0 + acc.vals.len());
                                    assert(comp_tops(full.take(k + 1), pool0) == Some(
                                        emit_cat(acc, emk),
                                    ));
                                    assert(self.chunk.code_m() =~= old(self).chunk.code_m()
                                        + emit_cat(acc, emk).code);
                                    assert(self.chunk.values_m() =~= old(self).chunk.values_m()
                                        + emit_cat(acc, emk).vals);
                                }
                            },
                        }
                    },
                }
            }
            if stop {
                proof {
                    assert(k == full.len());
                    assert(full.take(k) =~= full);
                }
                return Ok(());
            }
            let t = val.tail();
            val = t;
            proof {
                assert(full.skip(k).drop_first() =~= full.skip(k + 1));
                k = k + 1;
            }
        }
    }

    /// Compiles a whole tree and hands back the finished chunk, which ends
    /// with a return instruction.
    pub fn eval(&mut self, ast: ASTList) -> (r: Result<Chunk, CompileError>)
        requires
            old(self).wf_ev(),
        ensures
            final(self).wf_ev(),
            match r {
                Ok(c) => {
                    &&& top_compilable(&ast)
                    &&& c.wf()
                    &&& c.code_m().len() > 0
                    &&& c.code_m().last() == op_code(Op::Return)
                    &&& comp_program(&ast, old(self).built_vals().len() as int) matches Some(
                        em,
                    ) && c.code_m() == old(self).built_code() + em.code + seq![
                        op_code(Op::Return),
                    ] && c.values_m() == old(self).built_vals() + em.vals
                },
                Err(e) => (resource_error(e) || !top_compilable(&ast)) && (match comp_program(
                    &ast,
                    old(self).built_vals().len() as int,
                ) {
                    Some(em) => old(self).built_code().len() + em.code.len() + 1 > usize::MAX
                        - 4,
                    None => true,
                }),
            },
    {
        proof {
            crate::ast::list::lemma_view_is_link_view(&ast);
            lemma_comp_top_view(&ast.head, old(self).chunk.values_m().len() as int);
        }
        match self.eval_s_expr(ast) {
            Err(e) => {
                return Err(e);
            },
            Ok(_) => {},
        }
        match self.emit_op(Op::Return, 1) {
            Err(e) => {
                return Err(e);
            },
            Ok(_) => {},
        }
        let mut fin = chunk::new();
        core::mem::swap(&mut self.chunk, &mut fin);
        proof {
            match comp_program(&ast, old(self).chunk.values_m().len() as int) {
                Some(em) => {
                    assert(fin.code_m() =~= old(self).chunk.code_m() + em.code + seq![
                        op_code(Op::Return),
                    ]);
                },
                None => {},
            }
        }
        Ok(fin)
    }
}

impl Evaluator {
    /// A fresh compiler: an empty chunk, the operator registry, and no open
    /// scope — the state every compilation starts from.
    pub fn new() -> (r: Evaluator)
        ensures
            r.wf_ev(),
            r.built_code() == Seq::<u8>::empty(),
            r.built_vals() == Seq::<ValueV>::empty(),
    {
        Evaluator {
            chunk: chunk::new(),
            inlined: functions::get_inlines(),
            var_stack: Vec::new(),
        }
    }
}

/// A whole tree is accepted exactly when each of its top-level forms is.
pub proof fn lemma_top_compilable_elems(l: &ASTList)
    ensures
        top_compilable(l) <==> (forall|i: int|
            0 <= i < l@.len() ==> compilable((#[trigger] l@[i]).0)),
{
    crate::ast::list::lemma_view_is_link_view(l);
    lemma_top_ok_view(&l.head);
}

/// Compiles an optional tree: no tree compiles to nothing; a tree compiles
/// to a chunk that ends with a return instruction exactly when every form
/// in it is well formed, machine limits aside.
pub fn evaluate(ast: Option<ASTList>) -> (r: Result<Option<Chunk>, CompileError>)
    ensures
        match r {
            Ok(oc) => match oc {
                None => ast is None,
                Some(c) => {
                    &&& ast matches Some(t) && top_compilable(&t)
                    &&& c.wf()
                    &&& c.code_m().len() > 0
                    &&& c.code_m().last() == op_code(Op::Return)
                    &&& ast matches Some(t2) && (comp_program(&t2, 0) matches Some(em)
                        && c.code_m() == em.code + seq![op_code(Op::Return)] && c.values_m()
                        == em.vals)
                },
            },
            Err(e) => ast matches Some(t) && (resource_error(e) || !top_compilable(&t)) && (
            match comp_program(&t, 0) {
                Some(em) => em.code.len() + 1 > usize::MAX - 4,
                None => true,
            }),
        },
{
    match ast {
        None => Ok(None),
        Some(t) => {
            let mut x = Evaluator::new();
            match x.eval(t) {
                Ok(c) => {
                    proof {
                        match comp_program(&t, 0) {
                            Some(em) => {
                                assert(c.code_m() =~= em.code + seq![op_code(Op::Return)]);
                                assert(c.values_m() =~= em.vals);
                            },
                            None => {},
                        }
                    }
                    Ok(Some(c))
                },
                Err(e) => Err(e),
            }
        },
    }
}

} // verus!
