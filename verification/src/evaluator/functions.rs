//! The registry of built-in operators and the code generation for each.
//!
//! Every generator receives the form's element chain, whose structurally
//! last element is the operator itself; the remaining elements, read in the
//! chain's own order, are the argument forms in reverse source order.

use vstd::prelude::*;

use super::{
    alink_size, args_compilable, atom_size, cap_ok, catom, comp_args, comp_atom, comp_fn,
    comp_form, comp_if, comp_if_join, comp_rev, comp_rseq, comp_seq, compilable, drop_last_of,
    emit_cat, emit_none, emit_one_const, emits, lemma_all_quotable_view,
    lemma_args_compilable_view, lemma_comp_args_view, lemma_comp_if_view, lemma_comp_rev_view,
    lemma_comp_rseq_at, lemma_comp_rseq_front, lemma_comp_seq_at, lemma_comp_seq_concat,
    lemma_comp_seq_one, lemma_link_elem_size, lemma_prefix_trans, lemma_rev_quoted_view,
    m_args, m_binary, m_compare, m_fixed, map_quoted, ops_n, quotable, quoted_model, rev_quoted,
    all_quotable, arith_op, comp_op, CompileError, EmitV, Evaluator, InlineType, resource_error,
};
use crate::chunk::{const_encoding, MAX_CONSTANTS};
use crate::ast::list::{link_view, node_view, List};
use crate::ast::Atom;
use crate::bytecode::{models_of, op_code, Op, Value, ValueV};

verus! {

/// The line recorded for instructions that belong to an enclosing form.
pub(crate) const SAME_LINE: usize = 0;

/// The registry: each operator name with its code-generation strategy.
pub fn get_inlines() -> (r: Vec<(String, InlineType)>)
    ensures
        r@.len() == 15,
        r@[0].0@ == "+"@ && r@[0].1 == InlineType::Plus,
        r@[1].0@ == "*"@ && r@[1].1 == InlineType::Times,
        r@[2].0@ == "-"@ && r@[2].1 == InlineType::Minus,
        r@[3].0@ == "/"@ && r@[3].1 == InlineType::Divide,
        r@[4].0@ == "="@ && r@[4].1 == InlineType::CompEqual,
        r@[5].0@ == "<"@ && r@[5].1 == InlineType::CompLess,
        r@[6].0@ == ">"@ && r@[6].1 == InlineType::CompGreater,
        r@[7].0@ == "<="@ && r@[7].1 == InlineType::CompLessEqual,
        r@[8].0@ == ">="@ && r@[8].1 == InlineType::CompGreaterEqual,
        r@[9].0@ == "car"@ && r@[9].1 == InlineType::Car,
        r@[10].0@ == "cdr"@ && r@[10].1 == InlineType::Cdr,
        r@[11].0@ == "cons"@ && r@[11].1 == InlineType::Cons,
        r@[12].0@ == "if"@ && r@[12].1 == InlineType::If,
        r@[13].0@ == "quote"@ && r@[13].1 == InlineType::Quote,
        r@[14].0@ == "do"@ && r@[14].1 == InlineType::Do,
{
    let mut funs: Vec<(String, InlineType)> = Vec::new();
    funs.push(("+".to_owned(), InlineType::Plus));
    funs.push(("*".to_owned(), InlineType::Times));
    funs.push(("-".to_owned(), InlineType::Minus));
    funs.push(("/".to_owned(), InlineType::Divide));
    funs.push(("=".to_owned(), InlineType::CompEqual));
    funs.push(("<".to_owned(), InlineType::CompLess));
    funs.push((">".to_owned(), InlineType::CompGreater));
    funs.push(("<=".to_owned(), InlineType::CompLessEqual));
    funs.push((">=".to_owned(), InlineType::CompGreaterEqual));
    funs.push(("car".to_owned(), InlineType::Car));
    funs.push(("cdr".to_owned(), InlineType::Cdr));
    funs.push(("cons".to_owned(), InlineType::Cons));
    funs.push(("if".to_owned(), InlineType::If));
    funs.push(("quote".to_owned(), InlineType::Quote));
    funs.push(("do".to_owned(), InlineType::Do));
    funs
}

/// Compiles every argument form of `ast` — every element but the trailing
/// operator — in the chain's own order, and counts them.
pub(crate) fn inline_helper_parse_args(eve: &mut Evaluator, ast: &List<Atom>) -> (r: Result<
    usize,
    CompileError,
>)
    requires
        old(eve).wf_ev(),
        ast@.len() >= 1,
    ensures
        final(eve).wf_ev(),
        final(eve).var_stack == old(eve).var_stack,
        final(eve).inlined == old(eve).inlined,
        old(eve).chunk.code_m().is_prefix_of(final(eve).chunk.code_m()),
        match r {
            Ok(count) => count == ast@.len() - 1 && args_compilable(ast.head),
            Err(e) => resource_error(e) || !args_compilable(ast.head),
        },
        r is Ok ==> (m_args(ast, old(eve).chunk.values_m().len() as int) matches Some(em)
            && emits(*old(eve), *final(eve), em)),
        !(r is Ok) ==> (match m_args(ast, old(eve).chunk.values_m().len() as int) {
            Some(em) => !cap_ok(*old(eve), em),
            None => true,
        }),
    decreases 1 + alink_size(ast.head), 0int,
{
    proof {
        crate::ast::list::lemma_view_is_link_view(ast);
        lemma_args_compilable_view(&ast.head);
        lemma_comp_args_view(&ast.head, old(eve).chunk.values_m().len() as int);
    }
    let ghost full = ast@;
    let ghost pool0: int = old(eve).chunk.values_m().len() as int;
    let total = ast.len();
    if total == usize::MAX {
        return Err(CompileError::CodeTooLong(SAME_LINE));
    }
    let args = total - 1;
    let mut it = ast.iter();
    let mut count: usize = 0;
    proof {
        assert(full.skip(0) =~= full);
        assert(full.take(0) =~= Seq::<Atom>::empty());
        assert(drop_last_of(full) =~= full.take(args as int));
        assert(eve.chunk.code_m() =~= old(eve).chunk.code_m() + emit_none().code);
        assert(eve.chunk.values_m() =~= old(eve).chunk.values_m() + emit_none().vals);
    }
    while count < args
        invariant
            old(eve).wf_ev(),
            eve.wf_ev(),
            eve.var_stack == old(eve).var_stack,
            eve.inlined == old(eve).inlined,
            old(eve).chunk.code_m().is_prefix_of(eve.chunk.code_m()),
            count <= args,
            args == full.len() - 1,
            full.len() < usize::MAX,
            full == ast@,
            full == link_view(ast.head),
            pool0 == old(eve).chunk.values_m().len() as int,
            it@ == full.skip(count as int),
            forall|j: int| 0 <= j < count ==> compilable(#[trigger] full[j]),
            comp_args(ast.head, pool0) == comp_seq(full.take(args as int), pool0),
            args_compilable(ast.head) == (forall|i: int|
                0 <= i < full.len() - 1 ==> compilable(#[trigger] full[i])),
            comp_seq(full.take(count as int), pool0) is Some,
            eve.chunk.code_m() == old(eve).chunk.code_m() + comp_seq(
                full.take(count as int),
                pool0,
            )->Some_0.code,
            eve.chunk.values_m() == old(eve).chunk.values_m() + comp_seq(
                full.take(count as int),
                pool0,
            )->Some_0.vals,
        decreases args - count,
    {
        let ghost pre_code = eve.chunk.code_m();
        let ghost acc = comp_seq(full.take(count as int), pool0)->Some_0;
        match it.next() {
            None => {
                proof {
                    assert(false);
                }
                return Err(CompileError::CodeTooLong(SAME_LINE));
            },
            Some(node) => {
                proof {
                    assert(*node == full[count as int]);
                    lemma_link_elem_size(&ast.head, count as int);
                }
                match eve.eval_atom(node, SAME_LINE) {
                    Err(e) => {
                        proof {
                            lemma_prefix_trans(
                                old(eve).chunk.code_m(),
                                pre_code,
                                eve.chunk.code_m(),
                            );
                            match comp_seq(full.take(args as int), pool0) {
                                Some(em) => {
                                    lemma_comp_seq_at(full.take(args as int), pool0, count as int);
                                    assert(full.take(args as int).take(count as int) =~= full.take(
                                        count as int,
                                    ));
                                    assert(full.take(args as int)[count as int] == full[
                                        count as int]);
                                    assert(!cap_ok(*old(eve), em));
                                },
                                None => {},
                            }
                        }
                        return Err(e);
                    },
                    Ok(_) => {
                        proof {
                            lemma_prefix_trans(
                                old(eve).chunk.code_m(),
                                pre_code,
                                eve.chunk.code_m(),
                            );
                            let emk = catom(&full[count as int], pool0 + acc.vals.len())->Some_0;
                            assert(full.take(count as int + 1) =~= full.take(count as int) + seq![
                                full[count as int],
                            ]);
                            lemma_comp_seq_concat(
                                full.take(count as int),
                                seq![full[count as int]],
                                pool0,
                            );
                            lemma_comp_seq_one(full[count as int], pool0 + acc.vals.len());
                            assert(comp_seq(full.take(count as int + 1), pool0) == Some(
                                emit_cat(acc, emk),
                            ));
                            assert(eve.chunk.code_m() =~= old(eve).chunk.code_m() + emit_cat(
                                acc,
                                emk,
                            ).code);
                            assert(eve.chunk.values_m() =~= old(eve).chunk.values_m() + emit_cat(
                                acc,
                                emk,
                            ).vals);
                            assert(full.skip(count as int).drop_first() =~= full.skip(
                                count as int + 1,
                            ));
                        }
                    },
                }
            },
        }
        count = count + 1;
    }
    proof {
        lemma_args_compilable_view(&ast.head);
    }
    Ok(count)
}

/// Compiles all operands, then emits `count - 1` copies of the binary
/// instruction: the left fold.
pub(crate) fn inline_helper_binary(eve: &mut Evaluator, ast: &List<Atom>, opcode: Op) -> (r:
    Result<(), CompileError>)
    requires
        old(eve).wf_ev(),
        ast@.len() >= 1,
    ensures
        final(eve).wf_ev(),
        final(eve).var_stack == old(eve).var_stack,
        final(eve).inlined == old(eve).inlined,
        old(eve).chunk.code_m().is_prefix_of(final(eve).chunk.code_m()),
        match r {
            Ok(_) => ast@.len() >= 2 && args_compilable(ast.head),
            Err(e) => resource_error(e) || !(ast@.len() >= 2 && args_compilable(ast.head)),
        },
        r is Ok ==> (m_binary(ast, old(eve).chunk.values_m().len() as int, opcode) matches Some(
            em,
        ) && emits(*old(eve), *final(eve), em)),
        !(r is Ok) ==> (match m_binary(ast, old(eve).chunk.values_m().len() as int, opcode) {
            Some(em) => !cap_ok(*old(eve), em),
            None => true,
        }),
    decreases 1 + alink_size(ast.head), 1int,
{
    proof {
        crate::ast::list::lemma_view_is_link_view(ast);
    }
    let ghost c0 = eve.chunk.code_m();
    let ghost v0 = eve.chunk.values_m();
    let ghost pool0: int = old(eve).chunk.values_m().len() as int;
    let count = match inline_helper_parse_args(eve, ast) {
        Err(e) => {
            proof {
                match m_binary(ast, pool0, opcode) {
                    Some(em) => {
                        assert(m_args(ast, pool0) is Some);
                        assert(!cap_ok(*old(eve), em));
                    },
                    None => {},
                }
            }
            return Err(e);
        },
        Ok(c) => c,
    };
    if count < 1 {
        return Err(CompileError::WrongArity(SAME_LINE));
    }
    let ghost ea = m_args(ast, pool0)->Some_0;
    let mut k: usize = 1;
    proof {
        assert(ops_n(opcode, 0) =~= Seq::<u8>::empty());
        assert(eve.chunk.code_m() =~= old(eve).chunk.code_m() + ea.code + ops_n(opcode, 0));
    }
    while k < count
        invariant
            eve.wf_ev(),
            eve.var_stack == old(eve).var_stack,
            eve.inlined == old(eve).inlined,
            c0 == old(eve).chunk.code_m(),
            pool0 == old(eve).chunk.values_m().len() as int,
            c0.is_prefix_of(eve.chunk.code_m()),
            1 <= k <= count,
            count >= 1,
            count == ast@.len() - 1,
            ast@.len() < usize::MAX,
            ast@ == link_view(ast.head),
            args_compilable(ast.head),
            m_args(ast, pool0) is Some,
            ea == m_args(ast, pool0)->Some_0,
            eve.chunk.code_m() == old(eve).chunk.code_m() + ea.code + ops_n(opcode, k - 1),
            eve.chunk.values_m() == old(eve).chunk.values_m() + ea.vals,
        decreases count - k,
    {
        let ghost pre_code = eve.chunk.code_m();
        match eve.emit_op(opcode, SAME_LINE) {
            Err(e) => {
                proof {
                    lemma_prefix_trans(c0, pre_code, eve.chunk.code_m());
                    match m_binary(ast, pool0, opcode) {
                        Some(em) => {
                            assert(link_view(ast.head).len() < usize::MAX);
                            assert(m_args(ast, pool0) == comp_args(ast.head, pool0));
                            assert(em.code == ea.code + ops_n(opcode, count - 1));
                            assert(ops_n(opcode, count - 1).len() == count - 1);
                            assert(em.code.len() == ea.code.len() + (count - 1));
                            assert(ops_n(opcode, k - 1).len() == k - 1);
                            assert(pre_code.len() == old(eve).chunk.code_m().len()
                                + ea.code.len() + (k - 1));
                            assert(!cap_ok(*old(eve), em));
                        },
                        None => {},
                    }
                }
                return Err(e);
            },
            Ok(_) => {
                proof {
                    lemma_prefix_trans(c0, pre_code, eve.chunk.code_m());
                    assert(eve.chunk.code_m() == pre_code.push(op_code(opcode)));
                    assert(pre_code == old(eve).chunk.code_m() + ea.code + ops_n(
                        opcode,
                        k - 1,
                    ));
                    assert(ops_n(opcode, k - 1).len() == k - 1);
                    assert(ops_n(opcode, k as int).len() == k as int);
                    assert(ops_n(opcode, k - 1).push(op_code(opcode)) =~= ops_n(
                        opcode,
                        k as int,
                    ));
                    assert(eve.chunk.code_m() =~= old(eve).chunk.code_m() + ea.code + ops_n(
                        opcode,
                        k as int,
                    ));
                }
            },
        }
        k = k + 1;
    }
    proof {
        match m_binary(ast, pool0, opcode) {
            Some(em) => {
                assert(em.code =~= ea.code + ops_n(opcode, count - 1));
                assert(eve.chunk.code_m() =~= old(eve).chunk.code_m() + em.code);
            },
            None => {
                assert(false);
            },
        }
    }
    Ok(())
}

/// Compiles all operands, then emits the comparison instruction followed by
/// the operand count, which must fit one byte.
pub(crate) fn inline_helper_comp(eve: &mut Evaluator, ast: &List<Atom>, opcode: Op) -> (r: Result<
    (),
    CompileError,
>)
    requires
        old(eve).wf_ev(),
        ast@.len() >= 1,
    ensures
        final(eve).wf_ev(),
        final(eve).var_stack == old(eve).var_stack,
        final(eve).inlined == old(eve).inlined,
        old(eve).chunk.code_m().is_prefix_of(final(eve).chunk.code_m()),
        match r {
            Ok(_) => ast@.len() - 1 <= 255 && args_compilable(ast.head),
            Err(e) => resource_error(e) || !(ast@.len() - 1 <= 255 && args_compilable(ast.head)),
        },
        r is Ok ==> (m_compare(ast, old(eve).chunk.values_m().len() as int, opcode) matches Some(
            em,
        ) && emits(*old(eve), *final(eve), em)),
        !(r is Ok) ==> (match m_compare(ast, old(eve).chunk.values_m().len() as int, opcode) {
            Some(em) => !cap_ok(*old(eve), em),
            None => true,
        }),
    decreases 1 + alink_size(ast.head), 1int,
{
    proof {
        crate::ast::list::lemma_view_is_link_view(ast);
    }
    let ghost c0 = eve.chunk.code_m();
    let ghost pool0: int = old(eve).chunk.values_m().len() as int;
    let count = match inline_helper_parse_args(eve, ast) {
        Err(e) => {
            proof {
                match m_compare(ast, pool0, opcode) {
                    Some(em) => {
                        assert(m_args(ast, pool0) is Some);
                        assert(!cap_ok(*old(eve), em));
                    },
                    None => {},
                }
            }
            return Err(e);
        },
        Ok(c) => c,
    };
    if count > 255 {
        return Err(CompileError::TooManyCompareOperands(SAME_LINE));
    }
    let ghost ea = m_args(ast, pool0)->Some_0;
    let ghost pre_code = eve.chunk.code_m();
    match eve.emit_op(opcode, SAME_LINE) {
        Err(e) => {
            proof {
                lemma_prefix_trans(c0, pre_code, eve.chunk.code_m());
                match m_compare(ast, pool0, opcode) {
                    Some(em) => {
                        assert(em.code.len() == ea.code.len() + 2);
                        assert(!cap_ok(*old(eve), em));
                    },
                    None => {},
                }
            }
            return Err(e);
        },
        Ok(_) => {},
    }
    let ghost pre_code2 = eve.chunk.code_m();
    match eve.emit_byte(count as u8, SAME_LINE) {
        Err(e) => {
            proof {
                lemma_prefix_trans(c0, pre_code, pre_code2);
                lemma_prefix_trans(c0, pre_code2, eve.chunk.code_m());
                match m_compare(ast, pool0, opcode) {
                    Some(em) => {
                        assert(em.code.len() == ea.code.len() + 2);
                        assert(!cap_ok(*old(eve), em));
                    },
                    None => {},
                }
            }
            return Err(e);
        },
        Ok(_) => {
            proof {
                lemma_prefix_trans(c0, pre_code, pre_code2);
                lemma_prefix_trans(c0, pre_code2, eve.chunk.code_m());
            }
        },
    }
    proof {
        match m_compare(ast, pool0, opcode) {
            Some(em) => {
                assert(em.code =~= ea.code + seq![op_code(opcode), (ast@.len() - 1) as u8]);
                assert(eve.chunk.code_m() =~= old(eve).chunk.code_m() + em.code);
            },
            None => {
                assert(false);
            },
        }
    }
    Ok(())
}

pub(crate) fn comp_equal_inline(eve: &mut Evaluator, ast: &List<Atom>) -> (r: Result<
    (),
    CompileError,
>)
    requires
        old(eve).wf_ev(),
        ast@.len() >= 1,
    ensures
        final(eve).wf_ev(),
        final(eve).var_stack == old(eve).var_stack,
        final(eve).inlined == old(eve).inlined,
        old(eve).chunk.code_m().is_prefix_of(final(eve).chunk.code_m()),
        match r {
            Ok(_) => ast@.len() - 1 <= 255 && args_compilable(ast.head),
            Err(e) => resource_error(e) || !(ast@.len() - 1 <= 255 && args_compilable(ast.head)),
        },
        r is Ok ==> (comp_form(InlineType::CompEqual, *ast, old(eve).chunk.values_m().len() as int)
            matches Some(em) && emits(*old(eve), *final(eve), em)),
        !(r is Ok) ==> (match comp_form(
            InlineType::CompEqual,
            *ast,
            old(eve).chunk.values_m().len() as int,
        ) {
            Some(em) => !cap_ok(*old(eve), em),
            None => true,
        }),
    decreases 1 + alink_size(ast.head), 2int,
{
    let r = inline_helper_comp(eve, ast, Op::Equal);
    proof {
        assert(comp_form(InlineType::CompEqual, *ast, old(eve).chunk.values_m().len() as int)
            == m_compare(ast, old(eve).chunk.values_m().len() as int, Op::Equal));
    }
    r
}

pub(crate) fn comp_less_equal_inline(eve: &mut Evaluator, ast: &List<Atom>) -> (r: Result<
    (),
    CompileError,
>)
    requires
        old(eve).wf_ev(),
        ast@.len() >= 1,
    ensures
        final(eve).wf_ev(),
        final(eve).var_stack == old(eve).var_stack,
        final(eve).inlined == old(eve).inlined,
        old(eve).chunk.code_m().is_prefix_of(final(eve).chunk.code_m()),
        match r {
            Ok(_) => ast@.len() - 1 <= 255 && args_compilable(ast.head),
            Err(e) => resource_error(e) || !(ast@.len() - 1 <= 255 && args_compilable(ast.head)),
        },
        r is Ok ==> (comp_form(InlineType::CompLessEqual, *ast, old(eve).chunk.values_m().len() as int)
            matches Some(em) && emits(*old(eve), *final(eve), em)),
        !(r is Ok) ==> (match comp_form(
            InlineType::CompLessEqual,
            *ast,
            old(eve).chunk.values_m().len() as int,
        ) {
            Some(em) => !cap_ok(*old(eve), em),
            None => true,
        }),
    decreases 1 + alink_size(ast.head), 2int,
{
    let r = inline_helper_comp(eve, ast, Op::LessEqual);
    proof {
        assert(comp_form(InlineType::CompLessEqual, *ast, old(eve).chunk.values_m().len() as int)
            == m_compare(ast, old(eve).chunk.values_m().len() as int, Op::LessEqual));
    }
    r
}

pub(crate) fn comp_greater_equal_inline(eve: &mut Evaluator, ast: &List<Atom>) -> (r: Result<
    (),
    CompileError,
>)
    requires
        old(eve).wf_ev(),
        ast@.len() >= 1,
    ensures
        final(eve).wf_ev(),
        final(eve).var_stack == old(eve).var_stack,
        final(eve).inlined == old(eve).inlined,
        old(eve).chunk.code_m().is_prefix_of(final(eve).chunk.code_m()),
        match r {
            Ok(_) => ast@.len() - 1 <= 255 && args_compilable(ast.head),
            Err(e) => resource_error(e) || !(ast@.len() - 1 <= 255 && args_compilable(ast.head)),
        },
        r is Ok ==> (comp_form(InlineType::CompGreaterEqual, *ast, old(eve).chunk.values_m().len() as int)
            matches Some(em) && emits(*old(eve), *final(eve), em)),
        !(r is Ok) ==> (match comp_form(
            InlineType::CompGreaterEqual,
            *ast,
            old(eve).chunk.values_m().len() as int,
        ) {
            Some(em) => !cap_ok(*old(eve), em),
            None => true,
        }),
    decreases 1 + alink_size(ast.head), 2int,
{
    let r = inline_helper_comp(eve, ast, Op::GreaterEqual);
    proof {
        assert(comp_form(InlineType::CompGreaterEqual, *ast, old(eve).chunk.values_m().len() as int)
            == m_compare(ast, old(eve).chunk.values_m().len() as int, Op::GreaterEqual));
    }
    r
}

pub(crate) fn comp_less_then_inline(eve: &mut Evaluator, ast: &List<Atom>) -> (r: Result<
    (),
    CompileError,
>)
    requires
        old(eve).wf_ev(),
        ast@.len() >= 1,
    ensures
        final(eve).wf_ev(),
        final(eve).var_stack == old(eve).var_stack,
        final(eve).inlined == old(eve).inlined,
        old(eve).chunk.code_m().is_prefix_of(final(eve).chunk.code_m()),
        match r {
            Ok(_) => ast@.len() - 1 <= 255 && args_compilable(ast.head),
            Err(e) => resource_error(e) || !(ast@.len() - 1 <= 255 && args_compilable(ast.head)),
        },
        r is Ok ==> (comp_form(InlineType::CompLess, *ast, old(eve).chunk.values_m().len() as int)
            matches Some(em) && emits(*old(eve), *final(eve), em)),
        !(r is Ok) ==> (match comp_form(
            InlineType::CompLess,
            *ast,
            old(eve).chunk.values_m().len() as int,
        ) {
            Some(em) => !cap_ok(*old(eve), em),
            None => true,
        }),
    decreases 1 + alink_size(ast.head), 2int,
{
    let r = inline_helper_comp(eve, ast, Op::Less);
    proof {
        assert(comp_form(InlineType::CompLess, *ast, old(eve).chunk.values_m().len() as int)
            == m_compare(ast, old(eve).chunk.values_m().len() as int, Op::Less));
    }
    r
}

pub(crate) fn comp_greater_then_inline(eve: &mut Evaluator, ast: &List<Atom>) -> (r: Result<
    (),
    CompileError,
>)
    requires
        old(eve).wf_ev(),
        ast@.len() >= 1,
    ensures
        final(eve).wf_ev(),
        final(eve).var_stack == old(eve).var_stack,
        final(eve).inlined == old(eve).inlined,
        old(eve).chunk.code_m().is_prefix_of(final(eve).chunk.code_m()),
        match r {
            Ok(_) => ast@.len() - 1 <= 255 && args_compilable(ast.head),
            Err(e) => resource_error(e) || !(ast@.len() - 1 <= 255 && args_compilable(ast.head)),
        },
        r is Ok ==> (comp_form(InlineType::CompGreater, *ast, old(eve).chunk.values_m().len() as int)
            matches Some(em) && emits(*old(eve), *final(eve), em)),
        !(r is Ok) ==> (match comp_form(
            InlineType::CompGreater,
            *ast,
            old(eve).chunk.values_m().len() as int,
        ) {
            Some(em) => !cap_ok(*old(eve), em),
            None => true,
        }),
    decreases 1 + alink_size(ast.head), 2int,
{
    let r = inline_helper_comp(eve, ast, Op::Greater);
    proof {
        assert(comp_form(InlineType::CompGreater, *ast, old(eve).chunk.values_m().len() as int)
            == m_compare(ast, old(eve).chunk.values_m().len() as int, Op::Greater));
    }
    r
}

pub(crate) fn plus_inline(eve: &mut Evaluator, ast: &List<Atom>) -> (r: Result<(), CompileError>)
    requires
        old(eve).wf_ev(),
        ast@.len() >= 1,
    ensures
        final(eve).wf_ev(),
        final(eve).var_stack == old(eve).var_stack,
        final(eve).inlined == old(eve).inlined,
        old(eve).chunk.code_m().is_prefix_of(final(eve).chunk.code_m()),
        match r {
            Ok(_) => ast@.len() >= 2 && args_compilable(ast.head),
            Err(e) => resource_error(e) || !(ast@.len() >= 2 && args_compilable(ast.head)),
        },
        r is Ok ==> (comp_form(InlineType::Plus, *ast, old(eve).chunk.values_m().len() as int)
            matches Some(em) && emits(*old(eve), *final(eve), em)),
        !(r is Ok) ==> (match comp_form(
            InlineType::Plus,
            *ast,
            old(eve).chunk.values_m().len() as int,
        ) {
            Some(em) => !cap_ok(*old(eve), em),
            None => true,
        }),
    decreases 1 + alink_size(ast.head), 2int,
{
    let r = inline_helper_binary(eve, ast, Op::Add);
    proof {
        assert(comp_form(InlineType::Plus, *ast, old(eve).chunk.values_m().len() as int)
            == m_binary(ast, old(eve).chunk.values_m().len() as int, Op::Add));
    }
    r
}

pub(crate) fn times_inline(eve: &mut Evaluator, ast: &List<Atom>) -> (r: Result<(), CompileError>)
    requires
        old(eve).wf_ev(),
        ast@.len() >= 1,
    ensures
        final(eve).wf_ev(),
        final(eve).var_stack == old(eve).var_stack,
        final(eve).inlined == old(eve).inlined,
        old(eve).chunk.code_m().is_prefix_of(final(eve).chunk.code_m()),
        match r {
            Ok(_) => ast@.len() >= 2 && args_compilable(ast.head),
            Err(e) => resource_error(e) || !(ast@.len() >= 2 && args_compilable(ast.head)),
        },
        r is Ok ==> (comp_form(InlineType::Times, *ast, old(eve).chunk.values_m().len() as int)
            matches Some(em) && emits(*old(eve), *final(eve), em)),
        !(r is Ok) ==> (match comp_form(
            InlineType::Times,
            *ast,
            old(eve).chunk.values_m().len() as int,
        ) {
            Some(em) => !cap_ok(*old(eve), em),
            None => true,
        }),
    decreases 1 + alink_size(ast.head), 2int,
{
    let r = inline_helper_binary(eve, ast, Op::Multiply);
    proof {
        assert(comp_form(InlineType::Times, *ast, old(eve).chunk.values_m().len() as int)
            == m_binary(ast, old(eve).chunk.values_m().len() as int, Op::Multiply));
    }
    r
}

pub(crate) fn divide_inline(eve: &mut Evaluator, ast: &List<Atom>) -> (r: Result<(), CompileError>)
    requires
        old(eve).wf_ev(),
        ast@.len() >= 1,
    ensures
        final(eve).wf_ev(),
        final(eve).var_stack == old(eve).var_stack,
        final(eve).inlined == old(eve).inlined,
        old(eve).chunk.code_m().is_prefix_of(final(eve).chunk.code_m()),
        match r {
            Ok(_) => ast@.len() >= 2 && args_compilable(ast.head),
            Err(e) => resource_error(e) || !(ast@.len() >= 2 && args_compilable(ast.head)),
        },
        r is Ok ==> (comp_form(InlineType::Divide, *ast, old(eve).chunk.values_m().len() as int)
            matches Some(em) && emits(*old(eve), *final(eve), em)),
        !(r is Ok) ==> (match comp_form(
            InlineType::Divide,
            *ast,
            old(eve).chunk.values_m().len() as int,
        ) {
            Some(em) => !cap_ok(*old(eve), em),
            None => true,
        }),
    decreases 1 + alink_size(ast.head), 2int,
{
    let r = inline_helper_binary(eve, ast, Op::Divide);
    proof {
        assert(comp_form(InlineType::Divide, *ast, old(eve).chunk.values_m().len() as int)
            == m_binary(ast, old(eve).chunk.values_m().len() as int, Op::Divide));
    }
    r
}

/// With two or more operands a left-fold subtraction; with exactly one, its
/// arithmetic negation.
pub(crate) fn minus_inline(eve: &mut Evaluator, ast: &List<Atom>) -> (r: Result<(), CompileError>)
    requires
        old(eve).wf_ev(),
        ast@.len() >= 1,
    ensures
        final(eve).wf_ev(),
        final(eve).var_stack == old(eve).var_stack,
        final(eve).inlined == old(eve).inlined,
        old(eve).chunk.code_m().is_prefix_of(final(eve).chunk.code_m()),
        match r {
            Ok(_) => ast@.len() >= 2 && args_compilable(ast.head),
            Err(e) => resource_error(e) || !(ast@.len() >= 2 && args_compilable(ast.head)),
        },
        r is Ok ==> (comp_form(InlineType::Minus, *ast, old(eve).chunk.values_m().len() as int)
            matches Some(em) && emits(*old(eve), *final(eve), em)),
        !(r is Ok) ==> (match comp_form(
            InlineType::Minus,
            *ast,
            old(eve).chunk.values_m().len() as int,
        ) {
            Some(em) => !cap_ok(*old(eve), em),
            None => true,
        }),
    decreases 1 + alink_size(ast.head), 2int,
{
    proof {
        crate::ast::list::lemma_view_is_link_view(ast);
    }
    let ghost pool0: int = old(eve).chunk.values_m().len() as int;
    let total = ast.len();
    if total == usize::MAX {
        return Err(CompileError::CodeTooLong(SAME_LINE));
    }
    if total > 2 {
        let r = inline_helper_binary(eve, ast, Op::Subtract);
        proof {
            assert(comp_form(InlineType::Minus, *ast, pool0) == m_binary(
                ast,
                pool0,
                Op::Subtract,
            ));
        }
        r
    } else if total == 2 {
        let ghost c0 = eve.chunk.code_m();
        match inline_helper_parse_args(eve, ast) {
            Err(e) => {
                proof {
                    match comp_form(InlineType::Minus, *ast, pool0) {
                        Some(em) => {
                            assert(m_args(ast, pool0) is Some);
                            assert(!cap_ok(*old(eve), em));
                        },
                        None => {},
                    }
                }
                return Err(e);
            },
            Ok(_) => {},
        }
        let ghost ea = m_args(ast, pool0)->Some_0;
        let ghost pre_code = eve.chunk.code_m();
        match eve.emit_op(Op::Negate, SAME_LINE) {
            Err(e) => {
                proof {
                    lemma_prefix_trans(c0, pre_code, eve.chunk.code_m());
                    match comp_form(InlineType::Minus, *ast, pool0) {
                        Some(em) => {
                            assert(em.code.len() == ea.code.len() + 1);
                            assert(!cap_ok(*old(eve), em));
                        },
                        None => {},
                    }
                }
                return Err(e);
            },
            Ok(_) => {
                proof {
                    lemma_prefix_trans(c0, pre_code, eve.chunk.code_m());
                }
            },
        }
        proof {
            match comp_form(InlineType::Minus, *ast, pool0) {
                Some(em) => {
                    assert(em.code =~= ea.code + seq![op_code(Op::Negate)]);
                    assert(eve.chunk.code_m() =~= old(eve).chunk.code_m() + em.code);
                },
                None => {
                    assert(false);
                },
            }
        }
        Ok(())
    } else {
        Err(CompileError::WrongArity(SAME_LINE))
    }
}

/// Exactly one argument; emits its code, then the list-head instruction.
pub(crate) fn car_inline(eve: &mut Evaluator, ast: &List<Atom>) -> (r: Result<(), CompileError>)
    requires
        old(eve).wf_ev(),
        ast@.len() >= 1,
    ensures
        final(eve).wf_ev(),
        final(eve).var_stack == old(eve).var_stack,
        final(eve).inlined == old(eve).inlined,
        old(eve).chunk.code_m().is_prefix_of(final(eve).chunk.code_m()),
        match r {
            Ok(_) => ast@.len() == 2 && args_compilable(ast.head),
            Err(e) => resource_error(e) || !(ast@.len() == 2 && args_compilable(ast.head)),
        },
        r is Ok ==> (comp_form(InlineType::Car, *ast, old(eve).chunk.values_m().len() as int)
            matches Some(em) && emits(*old(eve), *final(eve), em)),
        !(r is Ok) ==> (match comp_form(
            InlineType::Car,
            *ast,
            old(eve).chunk.values_m().len() as int,
        ) {
            Some(em) => !cap_ok(*old(eve), em),
            None => true,
        }),
    decreases 1 + alink_size(ast.head), 2int,
{
    let r = inline_helper_fixed(eve, ast, Op::Car, 2);
    proof {
        assert(comp_form(InlineType::Car, *ast, old(eve).chunk.values_m().len() as int)
            == m_fixed(ast, old(eve).chunk.values_m().len() as int, Op::Car, 2));
    }
    r
}

/// Exactly one argument; emits its code, then the list-tail instruction.
pub(crate) fn cdr_inline(eve: &mut Evaluator, ast: &List<Atom>) -> (r: Result<(), CompileError>)
    requires
        old(eve).wf_ev(),
        ast@.len() >= 1,
    ensures
        final(eve).wf_ev(),
        final(eve).var_stack == old(eve).var_stack,
        final(eve).inlined == old(eve).inlined,
        old(eve).chunk.code_m().is_prefix_of(final(eve).chunk.code_m()),
        match r {
            Ok(_) => ast@.len() == 2 && args_compilable(ast.head),
            Err(e) => resource_error(e) || !(ast@.len() == 2 && args_compilable(ast.head)),
        },
        r is Ok ==> (comp_form(InlineType::Cdr, *ast, old(eve).chunk.values_m().len() as int)
            matches Some(em) && emits(*old(eve), *final(eve), em)),
        !(r is Ok) ==> (match comp_form(
            InlineType::Cdr,
            *ast,
            old(eve).chunk.values_m().len() as int,
        ) {
            Some(em) => !cap_ok(*old(eve), em),
            None => true,
        }),
    decreases 1 + alink_size(ast.head), 2int,
{
    let r = inline_helper_fixed(eve, ast, Op::Cdr, 2);
    proof {
        assert(comp_form(InlineType::Cdr, *ast, old(eve).chunk.values_m().len() as int)
            == m_fixed(ast, old(eve).chunk.values_m().len() as int, Op::Cdr, 2));
    }
    r
}

/// A fixed-arity form: its arguments, then one closing instruction.
fn inline_helper_fixed(eve: &mut Evaluator, ast: &List<Atom>, opcode: Op, arity: usize) -> (r:
    Result<(), CompileError>)
    requires
        old(eve).wf_ev(),
        ast@.len() >= 1,
        2 <= arity <= 3,
    ensures
        final(eve).wf_ev(),
        final(eve).var_stack == old(eve).var_stack,
        final(eve).inlined == old(eve).inlined,
        old(eve).chunk.code_m().is_prefix_of(final(eve).chunk.code_m()),
        match r {
            Ok(_) => ast@.len() == arity && args_compilable(ast.head),
            Err(e) => resource_error(e) || !(ast@.len() == arity && args_compilable(ast.head)),
        },
        r is Ok ==> (m_fixed(ast, old(eve).chunk.values_m().len() as int, opcode, arity as int)
            matches Some(em) && emits(*old(eve), *final(eve), em)),
        !(r is Ok) ==> (match m_fixed(
            ast,
            old(eve).chunk.values_m().len() as int,
            opcode,
            arity as int,
        ) {
            Some(em) => !cap_ok(*old(eve), em),
            None => true,
        }),
    decreases 1 + alink_size(ast.head), 1int,
{
    proof {
        crate::ast::list::lemma_view_is_link_view(ast);
    }
    let ghost pool0: int = old(eve).chunk.values_m().len() as int;
    let total = ast.len();
    if total == usize::MAX {
        return Err(CompileError::CodeTooLong(SAME_LINE));
    }
    if total != arity {
        return Err(CompileError::WrongArity(SAME_LINE));
    }
    let ghost c0 = eve.chunk.code_m();
    match inline_helper_parse_args(eve, ast) {
        Err(e) => {
            proof {
                match m_fixed(ast, pool0, opcode, arity as int) {
                    Some(em) => {
                        assert(m_args(ast, pool0) is Some);
                        assert(!cap_ok(*old(eve), em));
                    },
                    None => {},
                }
            }
            return Err(e);
        },
        Ok(_) => {},
    }
    let ghost ea = m_args(ast, pool0)->Some_0;
    let ghost pre_code = eve.chunk.code_m();
    match eve.emit_op(opcode, SAME_LINE) {
        Err(e) => {
            proof {
                lemma_prefix_trans(c0, pre_code, eve.chunk.code_m());
                match m_fixed(ast, pool0, opcode, arity as int) {
                    Some(em) => {
                        assert(em.code.len() == ea.code.len() + 1);
                        assert(!cap_ok(*old(eve), em));
                    },
                    None => {},
                }
            }
            return Err(e);
        },
        Ok(_) => {
            proof {
                lemma_prefix_trans(c0, pre_code, eve.chunk.code_m());
            }
        },
    }
    proof {
        match m_fixed(ast, pool0, opcode, arity as int) {
            Some(em) => {
                assert(em.code =~= ea.code + seq![op_code(opcode)]);
                assert(eve.chunk.code_m() =~= old(eve).chunk.code_m() + em.code);
            },
            None => {
                assert(false);
            },
        }
    }
    Ok(())
}

/// Exactly two arguments, an element and a list; emits both, then the
/// prepend instruction.
pub(crate) fn cons_inline(eve: &mut Evaluator, ast: &List<Atom>) -> (r: Result<(), CompileError>)
    requires
        old(eve).wf_ev(),
        ast@.len() >= 1,
    ensures
        final(eve).wf_ev(),
        final(eve).var_stack == old(eve).var_stack,
        final(eve).inlined == old(eve).inlined,
        old(eve).chunk.code_m().is_prefix_of(final(eve).chunk.code_m()),
        match r {
            Ok(_) => ast@.len() == 3 && args_compilable(ast.head),
            Err(e) => resource_error(e) || !(ast@.len() == 3 && args_compilable(ast.head)),
        },
        r is Ok ==> (comp_form(InlineType::Cons, *ast, old(eve).chunk.values_m().len() as int)
            matches Some(em) && emits(*old(eve), *final(eve), em)),
        !(r is Ok) ==> (match comp_form(
            InlineType::Cons,
            *ast,
            old(eve).chunk.values_m().len() as int,
        ) {
            Some(em) => !cap_ok(*old(eve), em),
            None => true,
        }),
    decreases 1 + alink_size(ast.head), 2int,
{
    let r = inline_helper_fixed(eve, ast, Op::Cons, 3);
    proof {
        assert(comp_form(InlineType::Cons, *ast, old(eve).chunk.values_m().len() as int)
            == m_fixed(ast, old(eve).chunk.values_m().len() as int, Op::Cons, 3));
    }
    r
}

/// Converts a quoted tree — literals and nested lists only — into the
/// runtime value it denotes.
pub(crate) fn quote_helper_alist_to_vlist(ast: &Atom) -> (r: Result<Value, CompileError>)
    ensures
        match r {
            Ok(v) => quotable(*ast) && v@ == quoted_model(*ast),
            Err(e) => !quotable(*ast) && !resource_error(e),
        },
    decreases atom_size(*ast),
{
    match ast {
        Atom::AFalse => {
            let v = Value::VBool(false);
            proof {
                crate::bytecode::lemma_view_cases(&v);
            }
            Ok(v)
        },
        Atom::ATrue => {
            let v = Value::VBool(true);
            proof {
                crate::bytecode::lemma_view_cases(&v);
            }
            Ok(v)
        },
        Atom::AString(s) => {
            let v = Value::VString(s.clone());
            proof {
                crate::bytecode::lemma_view_cases(&v);
            }
            Ok(v)
        },
        Atom::AInteger(i) => {
            let v = Value::VInt(*i);
            proof {
                crate::bytecode::lemma_view_cases(&v);
            }
            Ok(v)
        },
        Atom::AIdentifier(_) => Err(CompileError::QuotedIdentifier(SAME_LINE)),
        Atom::AList(src) => {
            proof {
                crate::ast::list::lemma_view_is_link_view(src);
                lemma_all_quotable_view(&src.head);
                lemma_rev_quoted_view(&src.head);
            }
            let ghost full = src@;
            let mut out: List<Value> = List::new();
            let mut it = src.iter();
            let ghost mut k: int = 0;
            proof {
                assert(full.skip(0) =~= full);
                assert(models_of(out@) =~= map_quoted(full.take(0)).reverse());
            }
            loop
                invariant
                    0 <= k <= full.len(),
                    full == src@,
                    full == link_view(src.head),
                    atom_size(*ast) == 1 + alink_size(src.head),
                    quotable(*ast) == all_quotable(src.head),
                    quoted_model(*ast) == ValueV::VList(rev_quoted(src.head)),
                    all_quotable(src.head) == (forall|i: int|
                        0 <= i < full.len() ==> quotable(#[trigger] full[i])),
                    rev_quoted(src.head) == map_quoted(full).reverse(),
                    it@ == full.skip(k),
                    models_of(out@) == map_quoted(full.take(k)).reverse(),
                    forall|j: int| 0 <= j < k ==> quotable(#[trigger] full[j]),
                decreases full.len() - k,
            {
                match it.next() {
                    None => {
                        proof {
                            assert(k == full.len());
                            assert(full.take(full.len() as int) =~= full);
                        }
                        let v = Value::VList(out);
                        proof {
                            crate::bytecode::lemma_view_cases(&v);
                        }
                        return Ok(v);
                    },
                    Some(x) => {
                        proof {
                            assert(*x == full[k]);
                            lemma_link_elem_size(&src.head, k);
                        }
                        match quote_helper_alist_to_vlist(x) {
                            Err(e) => {
                                return Err(e);
                            },
                            Ok(converted) => {
                                let out2 = out.append(converted);
                                proof {
                                    assert(converted@ == quoted_model(full[k]));
                                    assert(models_of(out2@) =~= seq![converted@] + models_of(
                                        out@,
                                    ));
                                    assert(map_quoted(full.take(k + 1)).reverse() =~= seq![
                                        quoted_model(full[k]),
                                    ] + map_quoted(full.take(k)).reverse());
                                    assert(models_of(out2@) =~= map_quoted(
                                        full.take(k + 1),
                                    ).reverse());
                                    assert(full.skip(k).drop_first() =~= full.skip(k + 1));
                                }
                                out = out2;
                                proof {
                                    k = k + 1;
                                }
                            },
                        }
                    },
                }
            }
        },
    }
}

/// Exactly one argument, converted as a literal tree into a single pooled
/// constant; no instructions are emitted for its contents.
pub(crate) fn quote_inline(eve: &mut Evaluator, ast: &List<Atom>) -> (r: Result<(), CompileError>)
    requires
        old(eve).wf_ev(),
        ast@.len() >= 1,
    ensures
        final(eve).wf_ev(),
        final(eve).var_stack == old(eve).var_stack,
        final(eve).inlined == old(eve).inlined,
        old(eve).chunk.code_m().is_prefix_of(final(eve).chunk.code_m()),
        match r {
            Ok(_) => ast@.len() == 2 && (ast.head matches Some(n) && quotable(n.elm)),
            Err(e) => resource_error(e) || !(ast@.len() == 2 && (ast.head matches Some(n)
                && quotable(n.elm))),
        },
        r is Ok ==> (comp_form(InlineType::Quote, *ast, old(eve).chunk.values_m().len() as int)
            matches Some(em) && emits(*old(eve), *final(eve), em)),
        !(r is Ok) ==> (match comp_form(
            InlineType::Quote,
            *ast,
            old(eve).chunk.values_m().len() as int,
        ) {
            Some(em) => !cap_ok(*old(eve), em),
            None => true,
        }),
    decreases 1 + alink_size(ast.head), 2int,
{
    proof {
        crate::ast::list::lemma_view_is_link_view(ast);
        match &ast.head {
            Some(n) => {
                assert(link_view(ast.head) == node_view(**n));
                assert(node_view(**n) == seq![(*n).elm] + link_view((*n).next));
                assert(link_view(ast.head)[0] == (*n).elm);
            },
            None => {},
        }
    }
    let ghost pool0: int = old(eve).chunk.values_m().len() as int;
    let total = ast.len();
    if total == usize::MAX {
        return Err(CompileError::CodeTooLong(SAME_LINE));
    }
    if total != 2 {
        return Err(CompileError::WrongArity(SAME_LINE));
    }
    match ast.head() {
        None => {
            proof {
                assert(false);
            }
            Err(CompileError::WrongArity(SAME_LINE))
        },
        Some(arg) => {
            match quote_helper_alist_to_vlist(arg) {
                Err(e) => Err(e),
                Ok(v) => {
                    match eve.emit_const(v, SAME_LINE) {
                        Err(e) => {
                            proof {
                                super::lemma_const_emission_wide(pool0);
                            }
                            Err(e)
                        },
                        Ok(_) => {
                            proof {
                                assert(eve.chunk.values_m() =~= old(eve).chunk.values_m()
                                    + seq![quoted_model(link_view(ast.head)[0])]);
                            }
                            Ok(())
                        },
                    }
                },
            }
        },
    }
}

/// Sequences its forms in source order inside a fresh frame, keeping only
/// the final form's value: intermediate results are discarded when the
/// frame closes.
#[verifier::rlimit(100)]
#[verifier::spinoff_prover]
pub(crate) fn do_inline(eve: &mut Evaluator, ast: &List<Atom>) -> (r: Result<(), CompileError>)
    requires
        old(eve).wf_ev(),
        ast@.len() >= 1,
    ensures
        final(eve).wf_ev(),
        final(eve).var_stack == old(eve).var_stack,
        final(eve).inlined == old(eve).inlined,
        old(eve).chunk.code_m().is_prefix_of(final(eve).chunk.code_m()),
        match r {
            Ok(_) => ast@.len() >= 2 && args_compilable(ast.head),
            Err(e) => resource_error(e) || !(ast@.len() >= 2 && args_compilable(ast.head)),
        },
        r is Ok ==> (comp_form(InlineType::Do, *ast, old(eve).chunk.values_m().len() as int)
            matches Some(em) && emits(*old(eve), *final(eve), em)),
        !(r is Ok) ==> (match comp_form(
            InlineType::Do,
            *ast,
            old(eve).chunk.values_m().len() as int,
        ) {
            Some(em) => !cap_ok(*old(eve), em),
            None => true,
        }),
    decreases 1 + alink_size(ast.head), 2int,
{
    proof {
        crate::ast::list::lemma_view_is_link_view(ast);
        lemma_args_compilable_view(&ast.head);
        lemma_comp_rev_view(&ast.head, old(eve).chunk.values_m().len() as int);
    }
    let ghost full = ast@;
    let ghost pool0: int = old(eve).chunk.values_m().len() as int;
    let total = ast.len();
    if total == usize::MAX {
        return Err(CompileError::CodeTooLong(SAME_LINE));
    }
    if total < 2 {
        return Err(CompileError::WrongArity(SAME_LINE));
    }
    let args = total - 1;
    proof {
        assert(drop_last_of(full) =~= full.take(args as int));
    }
    let ghost c0 = eve.chunk.code_m();
    match eve.emit_op(Op::CreateFrame, SAME_LINE) {
        Err(e) => {
            proof {
                match comp_form(InlineType::Do, *ast, pool0) {
                    Some(em) => {
                        assert(em.code.len() >= 2);
                        assert(!cap_ok(*old(eve), em));
                    },
                    None => {},
                }
            }
            return Err(e);
        },
        Ok(_) => {},
    }
    // Collect the argument forms so they can be walked in reverse, which is
    // source order.
    let mut elems: Vec<&Atom> = Vec::new();
    let mut it = ast.iter();
    proof {
        assert(full.skip(0) =~= full);
    }
    while elems.len() < args
        invariant
            elems@.len() <= args,
            args == full.len() - 1,
            full == ast@,
            full == link_view(ast.head),
            it@ == full.skip(elems@.len() as int),
            forall|j: int| 0 <= j < elems@.len() ==> *(#[trigger] elems@[j]) == full[j],
        decreases args - elems@.len(),
    {
        match it.next() {
            None => {
                proof {
                    assert(false);
                }
                return Err(CompileError::CodeTooLong(SAME_LINE));
            },
            Some(x) => {
                proof {
                    assert(full.skip(elems@.len() as int).drop_first() =~= full.skip(
                        elems@.len() as int + 1,
                    ));
                }
                elems.push(x);
            },
        }
    }
    let ghost sarg = full.take(args as int);
    let mut k: usize = args;
    proof {
        assert(sarg.skip(args as int) =~= Seq::<Atom>::empty());
        assert(eve.chunk.code_m() =~= old(eve).chunk.code_m() + seq![op_code(Op::CreateFrame)]
            + emit_none().code);
        assert(eve.chunk.values_m() =~= old(eve).chunk.values_m() + emit_none().vals);
    }
    while k > 0
        invariant
            old(eve).wf_ev(),
            eve.wf_ev(),
            eve.var_stack == old(eve).var_stack,
            eve.inlined == old(eve).inlined,
            c0 == old(eve).chunk.code_m(),
            pool0 == old(eve).chunk.values_m().len() as int,
            c0.is_prefix_of(eve.chunk.code_m()),
            k <= args,
            args >= 1,
            args == full.len() - 1,
            full.len() < usize::MAX,
            full == ast@,
            full == link_view(ast.head),
            sarg == full.take(args as int),
            comp_rev(ast.head, pool0) == comp_rseq(sarg, pool0),
            elems@.len() == args,
            forall|j: int| 0 <= j < args ==> *(#[trigger] elems@[j]) == full[j],
            forall|j: int| k <= j < args ==> compilable(#[trigger] full[j]),
            args_compilable(ast.head) == (forall|i: int|
                0 <= i < full.len() - 1 ==> compilable(#[trigger] full[i])),
            comp_rseq(sarg.skip(k as int), pool0) is Some,
            eve.chunk.code_m() == old(eve).chunk.code_m() + seq![op_code(Op::CreateFrame)]
                + comp_rseq(sarg.skip(k as int), pool0)->Some_0.code,
            eve.chunk.values_m() == old(eve).chunk.values_m() + comp_rseq(
                sarg.skip(k as int),
                pool0,
            )->Some_0.vals,
        decreases k,
    {
        let ghost pre_code = eve.chunk.code_m();
        let ghost acc = comp_rseq(sarg.skip(k as int), pool0)->Some_0;
        let node: &Atom = elems[k - 1];
        proof {
            assert(*node == full[k - 1]);
            assert(sarg[k - 1] == full[k - 1]);
            lemma_link_elem_size(&ast.head, k - 1);
        }
        match eve.eval_atom(node, SAME_LINE) {
            Err(e) => {
                proof {
                    lemma_prefix_trans(c0, pre_code, eve.chunk.code_m());
                    lemma_args_compilable_view(&ast.head);
                    match comp_form(InlineType::Do, *ast, pool0) {
                        Some(em) => {
                            lemma_comp_rseq_at(sarg, pool0, k - 1);
                            assert(!cap_ok(*old(eve), em));
                        },
                        None => {},
                    }
                }
                return Err(e);
            },
            Ok(_) => {
                proof {
                    lemma_prefix_trans(c0, pre_code, eve.chunk.code_m());
                    let emk = catom(&sarg[k - 1], pool0 + acc.vals.len())->Some_0;
                    assert(sarg.skip(k - 1) =~= seq![sarg[k - 1]] + sarg.skip(k as int));
                    lemma_comp_rseq_front(&sarg[k - 1], sarg.skip(k as int), pool0);
                    assert(comp_rseq(sarg.skip(k - 1), pool0) == Some(emit_cat(acc, emk)));
                    assert(eve.chunk.code_m() =~= old(eve).chunk.code_m() + seq![
                        op_code(Op::CreateFrame),
                    ] + emit_cat(acc, emk).code);
                    assert(eve.chunk.values_m() =~= old(eve).chunk.values_m() + emit_cat(
                        acc,
                        emk,
                    ).vals);
                }
            },
        }
        k = k - 1;
    }
    proof {
        lemma_args_compilable_view(&ast.head);
        assert(sarg.skip(0) =~= sarg);
    }
    let ghost rev = comp_rseq(sarg, pool0)->Some_0;
    let ghost pre_code = eve.chunk.code_m();
    match eve.emit_op(Op::DropFrameSaveReturn, SAME_LINE) {
        Err(e) => {
            proof {
                lemma_prefix_trans(c0, pre_code, eve.chunk.code_m());
                match comp_form(InlineType::Do, *ast, pool0) {
                    Some(em) => {
                        assert(em.code.len() == 2 + rev.code.len());
                        assert(!cap_ok(*old(eve), em));
                    },
                    None => {},
                }
            }
            return Err(e);
        },
        Ok(_) => {
            proof {
                lemma_prefix_trans(c0, pre_code, eve.chunk.code_m());
            }
        },
    }
    proof {
        match comp_form(InlineType::Do, *ast, pool0) {
            Some(em) => {
                assert(em.code =~= seq![op_code(Op::CreateFrame)] + rev.code + seq![
                    op_code(Op::DropFrameSaveReturn),
                ]);
                assert(eve.chunk.code_m() =~= old(eve).chunk.code_m() + em.code);
            },
            None => {
                assert(false);
            },
        }
    }
    Ok(())
}

/// The conditional: compiles the condition, a conditional jump over the
/// else-branch's code into the then-branch, and an unconditional jump past
/// the then-branch, both offsets backpatched once their targets are known.
pub(crate) fn if_inline(eve: &mut Evaluator, ast: &List<Atom>) -> (r: Result<(), CompileError>)
    requires
        old(eve).wf_ev(),
        ast@.len() >= 1,
    ensures
        final(eve).wf_ev(),
        final(eve).var_stack == old(eve).var_stack,
        final(eve).inlined == old(eve).inlined,
        old(eve).chunk.code_m().is_prefix_of(final(eve).chunk.code_m()),
        match r {
            Ok(_) => (ast@.len() == 3 || ast@.len() == 4) && args_compilable(ast.head),
            Err(e) => resource_error(e) || !((ast@.len() == 3 || ast@.len() == 4)
                && args_compilable(ast.head)),
        },
        r is Ok ==> (comp_form(InlineType::If, *ast, old(eve).chunk.values_m().len() as int)
            matches Some(em) && emits(*old(eve), *final(eve), em)),
        !(r is Ok) ==> (match comp_form(
            InlineType::If,
            *ast,
            old(eve).chunk.values_m().len() as int,
        ) {
            Some(em) => !cap_ok(*old(eve), em),
            None => true,
        }),
    decreases 1 + alink_size(ast.head), 2int,
{
    proof {
        crate::ast::list::lemma_view_is_link_view(ast);
    }
    let ghost pool0: int = old(eve).chunk.values_m().len() as int;
    let total = ast.len();
    if total == usize::MAX {
        return Err(CompileError::CodeTooLong(SAME_LINE));
    }
    if total != 3 && total != 4 {
        return Err(CompileError::WrongArity(SAME_LINE));
    }
    let r = if_emit(eve, ast);
    proof {
        assert(comp_form(InlineType::If, *ast, pool0) == comp_if(*ast, pool0));
    }
    r
}

/// The conditional's emission, once its arity is settled.
#[verifier::rlimit(100)]
#[verifier::spinoff_prover]
fn if_emit(eve: &mut Evaluator, ast: &List<Atom>) -> (r: Result<(), CompileError>)
    requires
        old(eve).wf_ev(),
        ast@.len() == 3 || ast@.len() == 4,
        ast@ == link_view(ast.head),
    ensures
        final(eve).wf_ev(),
        final(eve).var_stack == old(eve).var_stack,
        final(eve).inlined == old(eve).inlined,
        old(eve).chunk.code_m().is_prefix_of(final(eve).chunk.code_m()),
        match r {
            Ok(_) => args_compilable(ast.head),
            Err(e) => resource_error(e) || !args_compilable(ast.head),
        },
        r is Ok ==> (comp_if(*ast, old(eve).chunk.values_m().len() as int) matches Some(em)
            && emits(*old(eve), *final(eve), em)),
        !(r is Ok) ==> (match comp_if(*ast, old(eve).chunk.values_m().len() as int) {
            Some(em) => !cap_ok(*old(eve), em),
            None => true,
        }),
    decreases 1 + alink_size(ast.head), 1int,
{
    proof {
        lemma_args_compilable_view(&ast.head);
    }
    let ghost full = ast@;
    let ghost pool0: int = old(eve).chunk.values_m().len() as int;
    let total = ast.len();
    let t1 = ast.tail();
    let t2 = t1.tail();
    let ghost c0 = eve.chunk.code_m();

    // Given the reversal, the condition is the last-iterated argument.
    let cond: &Atom;
    if total == 4 {
        cond = match t2.head() {
            Some(x) => x,
            None => {
                proof {
                    assert(false);
                }
                return Err(CompileError::WrongArity(SAME_LINE));
            },
        };
        proof {
            assert(*cond == full[2]);
        }
    } else {
        cond = match t1.head() {
            Some(x) => x,
            None => {
                proof {
                    assert(false);
                }
                return Err(CompileError::WrongArity(SAME_LINE));
            },
        };
        proof {
            assert(*cond == full[1]);
        }
    }
    proof {
        assert(*cond == full[super::if_ci(ast)]);
        lemma_link_elem_size(&ast.head, super::if_ci(ast));
    }
    match eve.eval_atom(cond, SAME_LINE) {
        Err(e) => {
            proof {
                match comp_if(*ast, pool0) {
                    Some(em) => {
                        super::lemma_if_len(ast, pool0);
                        assert(!cap_ok(*old(eve), em));
                    },
                    None => {},
                }
            }
            return Err(e);
        },
        Ok(_) => {},
    }
    let ghost ec = catom(&full[super::if_ci(ast)], pool0)->Some_0;
    let ghost c1 = eve.chunk.code_m();
    match eve.emit_op(Op::JumpTrue, SAME_LINE) {
        Err(e) => {
            proof {
                lemma_prefix_trans(c0, c1, eve.chunk.code_m());
                match comp_if(*ast, pool0) {
                    Some(em) => {
                        super::lemma_if_len(ast, pool0);
                        assert(!cap_ok(*old(eve), em));
                    },
                    None => {},
                }
            }
            return Err(e);
        },
        Ok(_) => {},
    }
    let ghost c2 = eve.chunk.code_m();
    let d1 = match eve.emit_byte(0, SAME_LINE) {
        Err(e) => {
            proof {
                lemma_prefix_trans(c0, c1, c2);
                lemma_prefix_trans(c0, c2, eve.chunk.code_m());
                match comp_if(*ast, pool0) {
                    Some(em) => {
                        super::lemma_if_len(ast, pool0);
                        assert(!cap_ok(*old(eve), em));
                    },
                    None => {},
                }
            }
            return Err(e);
        },
        Ok(i) => i,
    };
    proof {
        lemma_prefix_trans(c0, c1, c2);
        lemma_prefix_trans(c0, c2, eve.chunk.code_m());
        assert(d1 == c0.len() + ec.code.len() + 1);
    }
    // The else-branch, when present, is the first-iterated argument.
    if total == 4 {
        let ghost c3 = eve.chunk.code_m();
        let false_arg = match ast.head() {
            Some(x) => x,
            None => {
                proof {
                    assert(false);
                }
                return Err(CompileError::WrongArity(SAME_LINE));
            },
        };
        proof {
            assert(*false_arg == full[0]);
            lemma_link_elem_size(&ast.head, 0);
        }
        match eve.eval_atom(false_arg, SAME_LINE) {
            Err(e) => {
                proof {
                    lemma_prefix_trans(c0, c3, eve.chunk.code_m());
                    match comp_if(*ast, pool0) {
                        Some(em) => {
                            super::lemma_if_len(ast, pool0);
                            assert(!cap_ok(*old(eve), em));
                        },
                        None => {},
                    }
                }
                return Err(e);
            },
            Ok(_) => {
                proof {
                    lemma_prefix_trans(c0, c3, eve.chunk.code_m());
                }
            },
        }
    }
    let ghost ee = super::if_else_em(ast, pool0)->Some_0;
    proof {
        assert(super::if_else_em(ast, pool0) is Some);
        assert(eve.chunk.code_m() =~= c0 + ec.code + seq![op_code(Op::JumpTrue), 0u8] + ee.code);
        assert(eve.chunk.values_m() =~= old(eve).chunk.values_m() + ec.vals + ee.vals);
    }
    let ghost c4 = eve.chunk.code_m();
    match eve.emit_op(Op::Jump, SAME_LINE) {
        Err(e) => {
            proof {
                lemma_prefix_trans(c0, c4, eve.chunk.code_m());
                match comp_if(*ast, pool0) {
                    Some(em) => {
                        super::lemma_if_len(ast, pool0);
                        assert(!cap_ok(*old(eve), em));
                    },
                    None => {},
                }
            }
            return Err(e);
        },
        Ok(_) => {},
    }
    let ghost c5 = eve.chunk.code_m();
    let d2 = match eve.emit_byte(0, SAME_LINE) {
        Err(e) => {
            proof {
                lemma_prefix_trans(c0, c4, c5);
                lemma_prefix_trans(c0, c5, eve.chunk.code_m());
                match comp_if(*ast, pool0) {
                    Some(em) => {
                        super::lemma_if_len(ast, pool0);
                        assert(!cap_ok(*old(eve), em));
                    },
                    None => {},
                }
            }
            return Err(e);
        },
        Ok(i) => i,
    };
    proof {
        lemma_prefix_trans(c0, c4, c5);
        lemma_prefix_trans(c0, c5, eve.chunk.code_m());
        assert(d2 == c0.len() + ec.code.len() + 2 + ee.code.len() + 1);
    }
    // Backpatch the conditional jump to land right after the unconditional
    // one: the offsets are single signed bytes, so a branch longer than 127
    // instructions cannot be encoded.
    if d2 - d1 > 127 {
        proof {
            super::lemma_if_complete(ast, pool0);
        }
        return Err(CompileError::JumpTooFar(SAME_LINE));
    }
    let patch1 = (d2 - d1) as u8;
    eve.chunk.replace_instruction(d1, patch1);
    proof {
        assert(c0.is_prefix_of(eve.chunk.code_m()));
        assert(eve.chunk.code_m() =~= c0 + ec.code + seq![
            op_code(Op::JumpTrue),
            (ee.code.len() + 2) as u8,
        ] + ee.code + seq![op_code(Op::Jump), 0u8]);
    }
    // The then-branch is the middle argument.
    let ghost c6 = eve.chunk.code_m();
    let true_arg = if total == 4 {
        match t1.head() {
            Some(x) => x,
            None => {
                proof {
                    assert(false);
                }
                return Err(CompileError::WrongArity(SAME_LINE));
            },
        }
    } else {
        match ast.head() {
            Some(x) => x,
            None => {
                proof {
                    assert(false);
                }
                return Err(CompileError::WrongArity(SAME_LINE));
            },
        }
    };
    proof {
        assert(*true_arg == full[super::if_ti(ast)]);
        lemma_link_elem_size(&ast.head, super::if_ti(ast));
    }
    match eve.eval_atom(true_arg, SAME_LINE) {
        Err(e) => {
            proof {
                lemma_prefix_trans(c0, c6, eve.chunk.code_m());
                match comp_if(*ast, pool0) {
                    Some(em) => {
                        super::lemma_if_len(ast, pool0);
                        assert(!cap_ok(*old(eve), em));
                    },
                    None => {},
                }
            }
            return Err(e);
        },
        Ok(_) => {
            proof {
                lemma_prefix_trans(c0, c6, eve.chunk.code_m());
            }
        },
    }
    let ghost et = super::if_then_em(ast, pool0)->Some_0;
    proof {
        assert(super::if_then_em(ast, pool0) is Some);
    }
    let end = eve.chunk.get_count() - 1;
    proof {
        assert(end - d2 == et.code.len());
    }
    if end - d2 > 127 {
        proof {
            super::lemma_if_complete(ast, pool0);
        }
        return Err(CompileError::JumpTooFar(SAME_LINE));
    }
    let patch2 = (end - d2) as u8;
    eve.chunk.replace_instruction(d2, patch2);
    proof {
        assert(c0.is_prefix_of(eve.chunk.code_m()));
        assert(eve.chunk.code_m() =~= c0 + ec.code + seq![
            op_code(Op::JumpTrue),
            (ee.code.len() + 2) as u8,
        ] + ee.code + seq![op_code(Op::Jump), et.code.len() as u8] + et.code);
        super::lemma_if_complete(ast, pool0);
        match comp_if(*ast, pool0) {
            Some(em) => {
                assert(em == comp_if_join(ec, ee, et)->Some_0);
                assert(eve.chunk.code_m() =~= old(eve).chunk.code_m() + em.code);
                assert(eve.chunk.values_m() =~= old(eve).chunk.values_m() + em.vals);
            },
            None => {
                assert(comp_if_join(ec, ee, et) is Some);
                assert(false);
            },
        }
    }
    Ok(())
}

} // verus!